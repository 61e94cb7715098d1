use ride::document::{EditError, InvalidLineNumber, RideText};
use ride::normalize::NormalizationError;
use ride::reformat::ReformatError;
use ride::search::{search_in_text, SearchDirection};

fn loaded(text: &str) -> RideText {
    let mut doc = RideText::new();
    doc.load(text.to_string()).unwrap();
    doc
}

fn depths(doc: &RideText) -> Vec<usize> {
    (0..doc.line_count()).map(|i| doc.line_depth(i)).collect()
}

fn texts(doc: &RideText) -> Vec<String> {
    (0..doc.line_count()).map(|i| doc.line_text(i)).collect()
}

#[test]
fn new_document_is_one_blank_line() {
    let doc = RideText::new();
    assert_eq!(doc.line_count(), 1);
    assert_eq!(doc.get_current_line(), "\n");
    assert_eq!(doc.get_current_character(), '\n');
    assert_eq!(doc.current_indentation_level(), 0);
    assert!(doc.file_path().is_none());
}

#[test]
fn normalize_children_are_not_siblings() {
    let mut doc = loaded("a\n  b\n  c\n");
    assert_eq!(depths(&doc), vec![0, 1, 1]);
    assert_eq!(texts(&doc), vec!["a\n", "b\n", "c\n"]);
    assert!(!doc.navigate_to_next_line());
    assert_eq!(doc.current_line_number(), 0);
}

#[test]
fn next_sibling_inside_block() {
    let mut doc = loaded("a\n  b\n  c\n");
    assert_eq!(doc.jump_to_line(2), Ok(true));
    assert_eq!(doc.current_indentation_level(), 1);
    assert!(doc.navigate_to_next_line());
    assert_eq!(doc.current_line_number(), 2);
    assert_eq!(doc.get_current_line(), "c\n");
}

#[test]
fn jump_on_fresh_document() {
    let mut doc = RideText::new();
    assert_eq!(doc.jump_to_line(1), Ok(false));
    assert_eq!(doc.jump_to_line(0), Err(InvalidLineNumber::Zero));
    assert_eq!(doc.jump_to_line(2), Err(InvalidLineNumber::OutOfRange));
}

#[test]
fn load_empty_text_gives_one_blank_line() {
    let doc = loaded("");
    assert_eq!(doc.line_count(), 1);
    assert_eq!(doc.line_text(0), "\n");
}

#[test]
fn load_strips_carriage_returns_before_newlines() {
    let doc = loaded("a\r\n  b\r\n");
    assert_eq!(texts(&doc), vec!["a\n", "b\n"]);
    assert_eq!(depths(&doc), vec![0, 1]);
}

#[test]
fn deferred_lines_take_the_next_depth() {
    let doc = loaded("a\n  b\n\n  // note\n  c\nd\n");
    assert_eq!(depths(&doc), vec![0, 1, 1, 1, 1, 0]);
    assert_eq!(doc.line_text(3), "  // note\n");
}

#[test]
fn deferred_line_at_root_stays_at_root() {
    let doc = loaded("a\n\nb\n");
    assert_eq!(depths(&doc), vec![0, 0, 0]);
}

#[test]
fn inconsistent_dedent_is_refused() {
    let mut doc = loaded("x\n");
    assert_eq!(
        doc.load("a\n    b\n  c\n".to_string()),
        Err(NormalizationError::InconsistentDedent(2))
    );
    assert_eq!(texts(&doc), vec!["x\n"]);
}

#[test]
fn below_floor_is_refused() {
    let mut doc = RideText::new();
    assert_eq!(
        doc.load("  a\nb\n".to_string()),
        Err(NormalizationError::BelowFloor(1))
    );
    assert_eq!(doc.line_count(), 1);
}

#[test]
fn render_uses_four_spaces_per_level() {
    let doc = loaded("a\n  b\n\n   \nc  \n");
    assert_eq!(doc.render_text(0, doc.line_count()), "a\n    b\n\n\nc\n");
}

#[test]
fn render_then_load_keeps_depths() {
    let text = "f\n\tg\n\t\th\n\ti\n// c\nj\n";
    let doc = loaded(text);
    let again = loaded(&doc.render_text(0, doc.line_count()));
    assert_eq!(depths(&again), depths(&doc));
    assert_eq!(depths(&doc), vec![0, 1, 2, 1, 0, 0]);
}

#[test]
fn next_then_previous_returns() {
    let mut doc = loaded("a\n  x\nb\n");
    assert!(doc.navigate_to_next_line());
    assert_eq!(doc.current_line_number(), 2);
    assert!(doc.navigate_to_previous_line());
    assert_eq!(doc.current_line_number(), 0);
}

#[test]
fn previous_line_stops_at_first() {
    let mut doc = loaded("a\nb\n");
    assert!(!doc.navigate_to_previous_line());
    assert_eq!(doc.current_line_number(), 0);
}

#[test]
fn character_navigation_crosses_lines() {
    let mut doc = loaded("ab\ncd\n");
    assert!(doc.navigate_to_next_character());
    assert!(doc.navigate_to_next_character());
    assert_eq!(doc.get_current_character(), '\n');
    assert!(doc.navigate_to_next_character());
    assert_eq!(doc.current_line_number(), 1);
    assert_eq!(doc.current_character_offset(), 0);
    assert!(doc.navigate_to_previous_character());
    assert_eq!(doc.current_line_number(), 0);
    assert_eq!(doc.current_character_offset(), 2);
}

#[test]
fn area_navigation_and_line_ends() {
    let mut doc = loaded("a\nb\n  x\nc\n");
    doc.navigate_to_area_ending();
    assert_eq!(doc.current_line_number(), 3);
    doc.navigate_to_area_beginning();
    assert_eq!(doc.current_line_number(), 0);
    doc.navigate_to_line_ending();
    assert_eq!(doc.current_character_offset(), 1);
    doc.navigate_to_line_beginning();
    assert_eq!(doc.current_character_offset(), 0);
}

#[test]
fn enter_and_leave_block() {
    let mut doc = loaded("a\n  b\n  c\nd\n");
    assert!(doc.increase_indentation_level());
    assert_eq!(doc.current_indentation_level(), 1);
    assert_eq!(doc.current_line_number(), 0);
    assert!(doc.navigate_to_next_line());
    assert_eq!(doc.current_line_number(), 1);
    assert!(doc.navigate_to_next_line());
    assert_eq!(doc.current_line_number(), 2);
    assert!(doc.decrease_indentation_level());
    assert_eq!(doc.current_indentation_level(), 0);
    assert_eq!(doc.current_line_number(), 0);
    assert!(!doc.decrease_indentation_level());
    assert!(!doc.increase_indentation_level() || doc.current_indentation_level() == 1);
}

#[test]
fn increase_needs_a_child() {
    let mut doc = loaded("a\nb\n");
    assert!(!doc.increase_indentation_level());
    assert_eq!(doc.current_indentation_level(), 0);
}

#[test]
fn insert_advances_cursor() {
    let mut doc = RideText::new();
    doc.insert('h');
    doc.insert('i');
    assert_eq!(doc.get_current_line(), "hi\n");
    assert_eq!(doc.current_character_offset(), 2);
}

#[test]
fn new_line_at_end_skips_block() {
    let mut doc = loaded("a\n  b\nc\n");
    doc.navigate_to_line_ending();
    doc.create_new_line();
    assert_eq!(doc.current_line_number(), 2);
    assert_eq!(texts(&doc), vec!["a\n", "b\n", "\n", "c\n"]);
    assert_eq!(depths(&doc), vec![0, 1, 0, 0]);
}

#[test]
fn new_line_in_middle_splits() {
    let mut doc = loaded("abcd\n");
    doc.navigate_to_next_character();
    doc.navigate_to_next_character();
    doc.create_new_line();
    assert_eq!(texts(&doc), vec!["ab\n", "cd\n"]);
    assert_eq!(doc.current_line_number(), 1);
    assert_eq!(doc.current_character_offset(), 0);
}

#[test]
fn new_block_then_join_restores() {
    let mut doc = loaded("abcd\nz\n");
    doc.navigate_to_next_character();
    doc.create_new_block();
    assert_eq!(texts(&doc), vec!["a\n", "bcd\n", "z\n"]);
    assert_eq!(depths(&doc), vec![0, 1, 0]);
    assert_eq!(doc.current_indentation_level(), 1);
    assert_eq!(doc.delete_character(), Some('\n'));
    assert_eq!(texts(&doc), vec!["abcd\n", "z\n"]);
    assert_eq!(depths(&doc), vec![0, 0]);
    assert_eq!(doc.current_line_number(), 0);
    assert_eq!(doc.current_character_offset(), 1);
}

#[test]
fn empty_new_block_then_join_restores() {
    let mut doc = loaded("ab\n");
    doc.navigate_to_line_ending();
    doc.create_new_block();
    assert_eq!(texts(&doc), vec!["ab\n", "\n"]);
    assert_eq!(doc.delete_character(), Some('\n'));
    assert_eq!(texts(&doc), vec!["ab\n"]);
}

#[test]
fn delete_character_before_cursor() {
    let mut doc = loaded("abc\n");
    doc.navigate_to_next_character();
    assert_eq!(doc.delete_character(), Some('a'));
    assert_eq!(doc.get_current_line(), "bc\n");
    assert_eq!(doc.current_character_offset(), 0);
    assert_eq!(doc.delete_character(), None);
}

#[test]
fn join_blocked_by_child() {
    let mut doc = loaded("a\nb\n  c\n");
    doc.jump_to_line(2).unwrap();
    assert_eq!(doc.delete_character(), None);
    assert_eq!(doc.line_count(), 3);
}

#[test]
fn delete_removes_block() {
    let mut doc = loaded("a\nb\n  c\nd\n");
    doc.jump_to_line(2).unwrap();
    doc.delete();
    assert_eq!(texts(&doc), vec!["a\n", "d\n"]);
    assert_eq!(doc.current_line_number(), 0);
}

#[test]
fn delete_only_line_leaves_blank_root() {
    let mut doc = loaded("hello\n");
    doc.delete();
    assert_eq!(doc.line_count(), 1);
    assert_eq!(doc.line_text(0), "\n");
    assert_eq!(doc.line_depth(0), 0);
    doc.delete();
    assert_eq!(doc.line_count(), 1);
}

#[test]
fn copy_selection_with_block() {
    let mut doc = loaded("a\nb\n  c\nd\n");
    doc.start_selection();
    assert!(doc.navigate_to_next_line());
    assert_eq!(doc.get_selected_text(false), Ok("a\nb\n    c".to_string()));
    assert_eq!(doc.line_count(), 4);
}

#[test]
fn cut_selection_removes_lines() {
    let mut doc = loaded("a\nb\n  c\nd\n");
    doc.jump_to_line(2).unwrap();
    assert_eq!(doc.get_selected_text(true), Ok("b\n    c".to_string()));
    assert_eq!(texts(&doc), vec!["a\n", "d\n"]);
    assert_eq!(doc.current_line_number(), 0);
}

#[test]
fn cut_outside_view_is_refused() {
    let mut doc = loaded("a\n  b\n");
    doc.start_selection();
    assert!(doc.increase_indentation_level());
    assert_eq!(doc.get_selected_text(true), Err(EditError::InvalidSelection));
    assert_eq!(doc.line_count(), 2);
    doc.cancel_selection();
}

#[test]
fn paste_single_line_inserts_trimmed() {
    let mut doc = loaded("ab\n");
    doc.navigate_to_next_character();
    assert_eq!(doc.paste("  xy"), Ok(()));
    assert_eq!(doc.get_current_line(), "axyb\n");
    assert_eq!(doc.current_character_offset(), 3);
}

#[test]
fn paste_lines_after_block_at_view_depth() {
    let mut doc = loaded("a\n  b\nc\n");
    assert_eq!(doc.paste("x\r\n  y\n"), Ok(()));
    assert_eq!(texts(&doc), vec!["a\n", "b\n", "x\n", "y\n", "\n", "c\n"]);
    assert_eq!(depths(&doc), vec![0, 1, 0, 1, 0, 0]);
    assert_eq!(doc.current_line_number(), 0);
}

#[test]
fn paste_refuses_bad_indentation() {
    let mut doc = loaded("a\n");
    assert_eq!(
        doc.paste("  a\nb\n"),
        Err(NormalizationError::BelowFloor(1))
    );
    assert_eq!(doc.line_count(), 1);
}

#[test]
fn search_forward_in_line() {
    let line: Vec<char> = "abcabc\n".chars().collect();
    let term: Vec<char> = "bc".chars().collect();
    assert_eq!(search_in_text(&line, 0, &term, SearchDirection::Forward), Some(1));
    assert_eq!(search_in_text(&line, 2, &term, SearchDirection::Forward), Some(4));
    assert_eq!(search_in_text(&line, 5, &term, SearchDirection::Forward), None);
    assert_eq!(search_in_text(&line, 6, &term, SearchDirection::Backward), Some(4));
    assert_eq!(search_in_text(&line, 3, &term, SearchDirection::Backward), Some(1));
    assert_eq!(search_in_text(&line, 1, &term, SearchDirection::Backward), None);
    assert_eq!(search_in_text(&line, 0, &Vec::new(), SearchDirection::Forward), None);
}

#[test]
fn find_moves_cursor() {
    let mut doc = loaded("abcabc\n");
    assert!(doc.find("bc", SearchDirection::Forward));
    assert_eq!(doc.current_character_offset(), 1);
    assert!(doc.find("bc", SearchDirection::Forward));
    assert_eq!(doc.current_character_offset(), 4);
    assert!(!doc.find("bc", SearchDirection::Forward));
    assert_eq!(doc.current_character_offset(), 4);
    assert!(!doc.find("", SearchDirection::Forward));
}

#[test]
fn find_crosses_lines_both_ways() {
    let mut doc = loaded("one\ntwo\nthree\n");
    assert!(doc.find("ee", SearchDirection::Forward));
    assert_eq!(doc.current_line_number(), 2);
    assert_eq!(doc.current_character_offset(), 3);
    assert!(doc.find("on", SearchDirection::Backward));
    assert_eq!(doc.current_line_number(), 0);
    assert_eq!(doc.current_character_offset(), 0);
    assert!(!doc.find("zz", SearchDirection::Backward));
}

#[test]
fn reformat_braces() {
    let mut doc = loaded("{\n  x\n}\n");
    assert_eq!(doc.reformat("{", "}"), Ok(()));
    assert_eq!(depths(&doc), vec![1, 1, 1]);
    assert_eq!(texts(&doc), vec!["{\n", "x\n", "}\n"]);
}

#[test]
fn reformat_opener_after_text() {
    let mut doc = loaded("f {\nx\n}\ny\n");
    assert_eq!(doc.reformat("{", "}"), Ok(()));
    assert_eq!(depths(&doc), vec![0, 1, 1, 0]);
}

#[test]
fn reformat_ignores_marks_in_strings_and_comments() {
    let mut doc = loaded("a \"{\" {\nb // }\n/* { */ c\n}\nd\n");
    assert_eq!(doc.reformat("{", "}"), Ok(()));
    assert_eq!(depths(&doc), vec![0, 1, 1, 1, 0]);
}

#[test]
fn reformat_word_marks() {
    let mut doc = loaded("if x then\nbegin\ny\nend\nz\n");
    assert_eq!(doc.reformat("begin", "end"), Ok(()));
    assert_eq!(depths(&doc), vec![0, 1, 1, 1, 0]);
}

#[test]
fn reformat_clamps_negative_levels() {
    let mut doc = loaded("}\n}\na\n{\nb\n");
    assert_eq!(doc.reformat("{", "}"), Ok(()));
    assert_eq!(depths(&doc), vec![0, 0, 0, 0, 0]);
}

#[test]
fn reformat_refuses_empty_mark() {
    let mut doc = loaded("a\n  b\n");
    assert_eq!(doc.reformat("", "}"), Err(ReformatError::EmptyMark));
    assert_eq!(doc.reformat("{", ""), Err(ReformatError::EmptyMark));
    assert_eq!(depths(&doc), vec![0, 1]);
}

#[test]
fn file_path_is_kept() {
    let mut doc = RideText::new();
    doc.set_file_path(Some("notes.txt".to_string()));
    assert_eq!(doc.file_path(), &Some("notes.txt".to_string()));
}

#[test]
fn cut_moves_cursor_before_removed_lines() {
    let mut doc = loaded("{\nb\nc\n");
    assert_eq!(doc.reformat("{", "}"), Ok(()));
    assert_eq!(depths(&doc), vec![1, 1, 1]);
    assert_eq!(doc.current_indentation_level(), 0);
    assert!(doc.find("b", SearchDirection::Forward));
    assert_eq!(doc.current_line_number(), 1);
    assert_eq!(doc.get_selected_text(true), Ok("    b".to_string()));
    assert_eq!(texts(&doc), vec!["{\n", "c\n"]);
    assert_eq!(doc.current_line_number(), 0);
}

#[test]
fn save_and_load_keep_depths_after_leading_blank_and_comment() {
    for text in ["\n  a\n    b\n  c\n", "// c\n  a\n    b\n", "  # x\n\n  a\n\t\t\tb\n"] {
        let doc = loaded(text);
        let saved = doc.render_text(0, doc.line_count());
        let again = loaded(&saved);
        assert_eq!(again.line_count(), doc.line_count());
        assert_eq!(depths(&again), depths(&doc));
    }
}
