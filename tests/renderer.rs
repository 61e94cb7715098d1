use ride::keys::{Action, Key, KeyboardShortcut, KeyboardShortcutsManager};
use ride::text_renderer::{replace_chars, TextRenderer};

fn chars(s: &str) -> Vec<char> {
    s.chars().collect()
}

#[test]
fn blank_text_is_spoken_as_blank() {
    let r = TextRenderer::new();
    assert_eq!(r.render_text(""), "blank");
    assert_eq!(r.render_text("\n"), "blank");
    assert_eq!(r.render_text("x = 1"), "x = 1");
}

#[test]
fn phrases_are_replaced() {
    let mut r = TextRenderer::new();
    r.add_string_definition("==", " equals ");
    r.add_string_definition("!", "not ");
    assert_eq!(r.render_text("a==b"), "a equals b");
    assert_eq!(r.render_text("!a == !b"), "not a  equals  not b");
    r.add_string_definition("==", "is");
    assert_eq!(r.render_text("a==b"), "aisb");
}

#[test]
fn characters_are_looked_up() {
    let mut r = TextRenderer::new();
    assert_eq!(r.render_character('\n'), Some("blank".to_string()));
    assert_eq!(r.render_character('('), None);
    r.add_character_definition('(', "left paren");
    assert_eq!(r.render_character('('), Some("left paren".to_string()));
    r.add_character_definition('(', "open");
    assert_eq!(r.render_character('('), Some("open".to_string()));
}

#[test]
fn replace_matches_std() {
    for (s, p, w) in [("aaa", "aa", "b"), ("abc", "", "x"), ("", "", "x"), ("abab", "ab", ""), ("xyz", "q", "r")] {
        let got: String = replace_chars(&chars(s), &chars(p), &chars(w)).into_iter().collect();
        assert_eq!(got, s.replace(p, w));
    }
}

#[test]
fn shortcuts_bind_actions() {
    let mut m = KeyboardShortcutsManager::new();
    m.add_shortcut(true, false, false, Key::S, Action::Save);
    m.add_shortcut(false, false, false, Key::Up, Action::NavigateToPreviousLine);
    m.add_shortcut(true, false, false, Key::S, Action::Copy);
    assert_eq!(m.get_function(&KeyboardShortcut::new(true, false, false, Key::S)), Some(Action::Copy));
    assert_eq!(
        m.get_function(&KeyboardShortcut::from_key_code(false, false, false, 111)),
        Some(Action::NavigateToPreviousLine)
    );
    assert_eq!(m.get_function(&KeyboardShortcut::new(false, true, false, Key::Up)), None);
    let k = KeyboardShortcut::new(true, false, true, Key::F3);
    assert!(k.control() && k.alt());
    assert_eq!(k.key, 69);
}
