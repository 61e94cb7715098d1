//! The document: lines with depths, a cursor, the depth at which sibling
//! navigation works, and an optional selection anchor.

use vstd::prelude::*;
use crate::line::{Line, LineView, views, texts, newline_terminated};
use crate::text::{
    string_of, copy_range, trim_end, trim_end_index, trim_start_index, chars_of, char_views,
    text_lines, lines_of, split_on_newlines, without_carriage_returns, has_newline, holds_newline,
};
use crate::normalize::{NormalizationError, normalize, parse_indentation, lemma_normalize_keeps_newlines};
use crate::render::{render_lines, render_range};
use crate::search::{SearchDirection, found_in, is_found_at, search_in_text};
use crate::reformat::{
    ReformatError, pattern_accepted, reformatted_depths, reformat_depths, scan_lines, total_len, token_views,
    scan_alternatives, tokens,
};
use crate::model::{
    DocView, blank_root, is_subtree_end, subtree_end, has_child, remove_block, new_line_index,
    selection_bounds, selection_mark, terminated, load_texts, paste_text, paste_texts, paste_index,
    shifted, search_start, line_found, is_hit_line, new_block_of, deletes_character,
    lemma_area_beginning_keeps, lemma_prev_target_unique, lemma_next_target_unique,
    lemma_subtree_end_unique,
};

verus! {

/// Why a line number is refused.
#[derive(PartialEq, Eq, Structural, Debug, Clone, Copy)]
pub enum InvalidLineNumber {
    /// Lines are counted from 1.
    Zero,
    /// The document has fewer lines.
    OutOfRange,
}

/// Lines at the root with the given texts, each with a newline appended.
fn lines_from_pieces(pieces: &Vec<Vec<char>>) -> (r: Vec<Line>)
    ensures
        texts(views(r@)) == terminated(char_views(pieces@)),
        r@.len() == pieces@.len(),
{
    let mut r: Vec<Line> = Vec::new();
    let mut i: usize = 0;
    while i < pieces.len()
        invariant
            i <= pieces@.len(),
            r@.len() == i,
            forall|k: int| 0 <= k < i ==> #[trigger] r@[k].text@ == pieces@[k]@.push('\n'),
        decreases pieces@.len() - i,
    {
        let mut t = copy_range(&pieces[i], 0, pieces[i].len());
        assert(t@ =~= pieces@[i as int]@);
        t.push('\n');
        r.push(Line { indentation_level: 0, text: t });
        i = i + 1;
    }
    assert(texts(views(r@)) =~= terminated(char_views(pieces@)));
    r
}

/// Why an edit is refused.
#[derive(PartialEq, Eq, Structural, Debug, Clone, Copy)]
pub enum EditError {
    /// A cut would reach out of the block being viewed.
    InvalidSelection,
}

/// A blank line at the root.
pub fn blank_root_line() -> (r: Line)
    ensures
        r@ == blank_root(),
{
    let mut text: Vec<char> = Vec::new();
    text.push('\n');
    assert(text@ =~= seq!['\n']);
    Line { indentation_level: 0, text }
}

/// The document: its lines, the cursor, the view depth, the selection
/// anchor and the file it came from.
pub struct RideText {
    current_line_number: usize,
    current_character_offset: usize,
    current_indentation_level: usize,
    lines: Vec<Line>,
    file_path: Option<String>,
    selection_mark: Option<usize>,
}

impl View for RideText {
    type V = DocView;

    closed spec fn view(&self) -> DocView {
        DocView {
            lines: views(self.lines@),
            line: self.current_line_number as nat,
            offset: self.current_character_offset as nat,
            view_depth: self.current_indentation_level as nat,
            anchor: match self.selection_mark {
                Some(a) => Some(a as nat),
                None => None,
            },
            path: match self.file_path {
                Some(p) => Some(p@),
                None => None,
            },
        }
    }
}

impl RideText {
    /// An empty document: one blank root line, the cursor on it.
    pub fn new() -> (r: RideText)
        ensures
            r@.wf(),
            r@.lines == seq![blank_root()],
            r@.line == 0,
            r@.offset == 0,
            r@.view_depth == 0,
            r@.anchor is None,
            r@.path is None,
    {
        let mut lines: Vec<Line> = Vec::new();
        lines.push(blank_root_line());
        let r = RideText {
            current_line_number: 0,
            current_character_offset: 0,
            current_indentation_level: 0,
            lines,
            file_path: None,
            selection_mark: None,
        };
        assert(r@.lines =~= seq![blank_root()]);
        r
    }

    /// Steps back to the nearest line above that is no deeper than the view
    /// depth, at offset 0. Fails, changing nothing, where the cursor's line
    /// is shallower than the view depth or no such line exists.
    pub fn navigate_to_previous_line(&mut self) -> (r: bool)
        requires
            old(self)@.wf(),
        ensures
            r == old(self)@.can_go_back(),
            r ==> old(self)@.is_prev_target(final(self)@.line as int) && final(self)@ == old(
                self,
            )@.moved_to(final(self)@.line as int),
            !r ==> final(self)@ == old(self)@,
            final(self)@.wf(),
    {
        let ghost v = self@;
        let cur = self.current_line_number;
        let vd = self.current_indentation_level;
        if self.lines[cur].indentation_level < vd {
            return false;
        }
        let mut i: usize = cur;
        while i > 0
            invariant
                v == self@,
                v == old(self)@,
                v.wf(),
                cur == v.line,
                vd == v.view_depth,
                v.depth(cur as int) >= vd,
                i <= cur,
                forall|k: int| i <= k < cur ==> v.depth(k) > vd,
            decreases i,
        {
            i = i - 1;
            assert(self.lines@[i as int]@ == v.lines[i as int]);
            if self.lines[i].indentation_level <= vd {
                self.current_line_number = i;
                self.current_character_offset = 0;
                assert(v.is_prev_target(i as int));
                assert(v.can_go_back());

                assert(self@ =~= v.moved_to(i as int));
                return true;
            }
        }
        assert(!v.can_go_back());
        false
    }

    /// Steps forward to the next sibling at the view depth, skipping deeper
    /// lines, at offset 0. Fails, changing nothing, where a shallower line
    /// or the end of the document comes first.
    pub fn navigate_to_next_line(&mut self) -> (r: bool)
        requires
            old(self)@.wf(),
        ensures
            r == old(self)@.can_go_forward(),
            r ==> old(self)@.is_next_target(final(self)@.line as int) && final(self)@ == old(
                self,
            )@.moved_to(final(self)@.line as int),
            !r ==> final(self)@ == old(self)@,
            final(self)@.wf(),
    {
        let ghost v = self@;
        let vd = self.current_indentation_level;
        let n = self.lines.len();
        let mut i: usize = self.current_line_number + 1;
        while i < n
            invariant
                v == self@,
                v == old(self)@,
                v.wf(),
                n == v.lines.len(),
                vd == v.view_depth,
                v.line < i <= n,
                forall|k: int| v.line < k < i ==> v.depth(k) > vd,
            decreases n - i,
        {
            assert(self.lines@[i as int]@ == v.lines[i as int]);
            if self.lines[i].indentation_level == vd {
                self.current_line_number = i;
                self.current_character_offset = 0;
                assert(v.is_next_target(i as int));
                assert(self@ =~= v.moved_to(i as int));
                return true;
            } else if self.lines[i].indentation_level < vd {
                assert(v.depth(i as int) < vd);
                assert forall|j: int| !v.is_next_target(j) by {
                    if v.is_next_target(j) {
                        assert(j <= i);
                    }
                }
                return false;
            }
            i = i + 1;
        }
        false
    }

    /// One character back; at the start of a line, one line back (as
    /// `navigate_to_previous_line`) to that line's last character, its
    /// newline.
    pub fn navigate_to_previous_character(&mut self) -> (r: bool)
        requires
            old(self)@.wf(),
        ensures
            old(self)@.offset > 0 ==> r && final(self)@ == (DocView {
                offset: (old(self)@.offset - 1) as nat,
                ..old(self)@
            }),
            old(self)@.offset == 0 ==> r == old(self)@.can_go_back(),
            old(self)@.offset == 0 && r ==> old(self)@.is_prev_target(final(self)@.line as int)
                && final(self)@ == (DocView {
                offset: (final(self)@.current_text().len() - 1) as nat,
                ..old(self)@.moved_to(final(self)@.line as int)
            }),
            !r ==> final(self)@ == old(self)@,
            final(self)@.wf(),
    {
        if self.current_character_offset > 0 {
            self.current_character_offset = self.current_character_offset - 1;
            return true;
        }
        if self.navigate_to_previous_line() {
            assert(self.lines@[self.current_line_number as int]@ == self@.lines[self@.line as int]);
            self.current_character_offset = self.lines[self.current_line_number].text.len() - 1;
            return true;
        }
        false
    }

    /// One character forward; on the last character of a line, one line
    /// forward (as `navigate_to_next_line`).
    pub fn navigate_to_next_character(&mut self) -> (r: bool)
        requires
            old(self)@.wf(),
        ensures
            old(self)@.offset + 1 < old(self)@.current_text().len() ==> r && final(self)@ == (
            DocView { offset: old(self)@.offset + 1, ..old(self)@ }),
            old(self)@.offset + 1 == old(self)@.current_text().len() ==> r == old(
                self,
            )@.can_go_forward(),
            old(self)@.offset + 1 == old(self)@.current_text().len() && r ==> old(
                self,
            )@.is_next_target(final(self)@.line as int) && final(self)@ == old(self)@.moved_to(
                final(self)@.line as int,
            ),
            !r ==> final(self)@ == old(self)@,
            final(self)@.wf(),
    {
        assert(self.lines@[self.current_line_number as int]@ == self@.lines[self@.line as int]);
        if self.current_character_offset < self.lines[self.current_line_number].text.len() - 1 {
            self.current_character_offset = self.current_character_offset + 1;
            return true;
        }
        self.navigate_to_next_line()
    }

    /// The cursor to the start of its line.
    pub fn navigate_to_line_beginning(&mut self)
        requires
            old(self)@.wf(),
        ensures
            final(self)@ == (DocView { offset: 0, ..old(self)@ }),
            final(self)@.wf(),
    {
        self.current_character_offset = 0;
    }

    /// The cursor to the last character of its line, the newline.
    pub fn navigate_to_line_ending(&mut self)
        requires
            old(self)@.wf(),
        ensures
            final(self)@ == (DocView {
                offset: (old(self)@.current_text().len() - 1) as nat,
                ..old(self)@
            }),
            final(self)@.wf(),
    {
        assert(self.lines@[self.current_line_number as int]@ == self@.lines[self@.line as int]);
        self.current_character_offset = self.lines[self.current_line_number].text.len() - 1;
    }

    /// Whether line `line_number` has a child: the next line is deeper.
    pub fn line_has_subblock(&self, line_number: usize) -> (r: bool)
        requires
            self@.wf(),
            line_number < self@.lines.len(),
        ensures
            r == has_child(self@.lines, line_number as int),
    {
        if line_number >= self.lines.len() - 1 {
            return false;
        }
        assert(self.lines@[line_number as int]@ == self@.lines[line_number as int]);
        assert(self.lines@[line_number + 1]@ == self@.lines[line_number + 1]);
        self.lines[line_number + 1].indentation_level > self.lines[line_number].indentation_level
    }

    /// The last line of the block that line `starting_line_number` opens.
    pub fn get_subblock_finishing_line_number(&self, starting_line_number: usize) -> (r: usize)
        requires
            self@.wf(),
            starting_line_number < self@.lines.len(),
        ensures
            is_subtree_end(self@.lines, starting_line_number as int, r as int),
    {
        let ghost ls = self@.lines;
        assert(self.lines@[starting_line_number as int]@ == ls[starting_line_number as int]);
        let d = self.lines[starting_line_number].indentation_level;
        let n = self.lines.len();
        let mut l: usize = starting_line_number + 1;
        while l < n
            invariant
                ls == self@.lines,
                n == ls.len(),
                starting_line_number < l <= n,
                d == ls[starting_line_number as int].depth,
                forall|k: int| starting_line_number < k < l ==> #[trigger] ls[k].depth > d,
            decreases n - l,
        {
            assert(self.lines@[l as int]@ == ls[l as int]);
            if self.lines[l].indentation_level <= d {
                return l - 1;
            }
            l = l + 1;
        }
        n - 1
    }

    /// Enters the block that the cursor's line opens: where the view depth
    /// is the line's own depth and the line has a child, the view depth
    /// grows by one. Otherwise nothing changes.
    pub fn increase_indentation_level(&mut self) -> (r: bool)
        requires
            old(self)@.wf(),
        ensures
            r == (old(self)@.view_depth == old(self)@.depth(old(self)@.line as int) && has_child(
                old(self)@.lines,
                old(self)@.line as int,
            )),
            r ==> final(self)@ == (DocView { view_depth: old(self)@.view_depth + 1, ..old(self)@ }),
            !r ==> final(self)@ == old(self)@,
            final(self)@.wf(),
    {
        let cur = self.current_line_number;
        assert(self.lines@[cur as int]@ == self@.lines[cur as int]);
        if self.current_indentation_level != self.lines[cur].indentation_level {
            return false;
        }
        if self.line_has_subblock(cur) {
            assert(self.lines@[cur + 1]@ == self@.lines[cur + 1]);
            self.current_indentation_level = self.current_indentation_level + 1;
            return true;
        }
        false
    }

    /// Moves to line `line_number`, counted from 1, at offset 0, and views it
    /// at its own depth. Tells whether the view depth changed.
    pub fn jump_to_line(&mut self, line_number: usize) -> (r: Result<bool, InvalidLineNumber>)
        requires
            old(self)@.wf(),
        ensures
            line_number == 0 ==> r == Err::<bool, InvalidLineNumber>(InvalidLineNumber::Zero),
            line_number > old(self)@.lines.len() ==> r == Err::<bool, InvalidLineNumber>(
                InvalidLineNumber::OutOfRange,
            ),
            r is Err ==> final(self)@ == old(self)@,
            0 < line_number <= old(self)@.lines.len() ==> r == Ok::<bool, InvalidLineNumber>(
                old(self)@.view_depth != old(self)@.depth(line_number - 1),
            ) && final(self)@ == (DocView {
                view_depth: old(self)@.depth(line_number - 1),
                ..old(self)@.moved_to(line_number - 1)
            }),
            final(self)@.wf(),
    {
        if line_number == 0 {
            return Err(InvalidLineNumber::Zero);
        }
        if line_number > self.lines.len() {
            return Err(InvalidLineNumber::OutOfRange);
        }
        let previous = self.current_indentation_level;
        self.current_line_number = line_number - 1;
        self.current_character_offset = 0;
        assert(self.lines@[line_number - 1]@ == self@.lines[line_number - 1]);
        self.current_indentation_level = self.lines[line_number - 1].indentation_level;
        Ok(previous != self.current_indentation_level)
    }

    /// Inserts `character` at the cursor and moves past it.
    pub fn insert(&mut self, character: char)
        requires
            old(self)@.wf(),
        ensures
            final(self)@ == (DocView {
                lines: old(self)@.lines.update(
                    old(self)@.line as int,
                    LineView {
                        text: old(self)@.current_text().insert(old(self)@.offset as int, character),
                        ..old(self)@.lines[old(self)@.line as int]
                    },
                ),
                offset: old(self)@.offset + 1,
                ..old(self)@
            }),
            final(self)@.wf(),
    {
        let ghost v = self@;
        let cur = self.current_line_number;
        let off = self.current_character_offset;
        assert(self.lines@[cur as int]@ == v.lines[cur as int]);
        self.lines[cur].text.insert(off, character);
        assert(self.lines@[cur as int].text@ == v.current_text().insert(off as int, character));
        let new_len = self.lines[cur].text.len();
        assert(off < new_len);
        self.current_character_offset = off + 1;
        let ghost want = v.lines.update(
            cur as int,
            LineView { text: v.current_text().insert(off as int, character), ..v.lines[cur as int] },
        );
        assert(self@.lines =~= want);
        assert(newline_terminated(want[cur as int].text));
    }

    /// The text of the cursor's line.
    pub fn get_current_line(&self) -> (r: String)
        requires
            self@.wf(),
        ensures
            r@ == self@.current_text(),
    {
        assert(self.lines@[self.current_line_number as int]@ == self@.lines[self@.line as int]);
        string_of(self.lines[self.current_line_number].text.as_slice())
    }

    /// The character under the cursor.
    pub fn get_current_character(&self) -> (r: char)
        requires
            self@.wf(),
        ensures
            r == self@.current_text()[self@.offset as int],
    {
        assert(self.lines@[self.current_line_number as int]@ == self@.lines[self@.line as int]);
        self.lines[self.current_line_number].text[self.current_character_offset]
    }

    /// Steps back as long as that succeeds.
    pub fn navigate_to_area_beginning(&mut self)
        requires
            old(self)@.wf(),
        ensures
            final(self)@ == old(self)@.area_beginning(),
            final(self)@.wf(),
    {
        loop
            invariant
                self@.wf(),
                self@.area_beginning() == old(self)@.area_beginning(),
            ensures
                final(self)@ == old(self)@.area_beginning(),
                final(self)@.wf(),
            decreases self@.line,
        {
            let ghost before = self@;
            if !self.navigate_to_previous_line() {
                break;
            }
            proof {
                let j = choose|j: int| before.is_prev_target(j);
                lemma_prev_target_unique(before, j, self@.line as int);
            }
        }
    }

    /// Steps forward as long as that succeeds.
    pub fn navigate_to_area_ending(&mut self)
        requires
            old(self)@.wf(),
        ensures
            final(self)@ == old(self)@.area_ending(),
            final(self)@.wf(),
    {
        loop
            invariant
                self@.wf(),
                self@.area_ending() == old(self)@.area_ending(),
            ensures
                final(self)@ == old(self)@.area_ending(),
                final(self)@.wf(),
            decreases self@.lines.len() - self@.line,
        {
            let ghost before = self@;
            if !self.navigate_to_next_line() {
                break;
            }
            proof {
                let j = choose|j: int| before.is_next_target(j);
                lemma_next_target_unique(before, j, self@.line as int);
            }
        }
    }

    /// Leaves the current block: moves to where the area begins, and where
    /// that line is shallower than the view depth, the view depth drops by
    /// one. At the root nothing changes.
    pub fn decrease_indentation_level(&mut self) -> (r: bool)
        requires
            old(self)@.wf(),
        ensures
            old(self)@.view_depth == 0 ==> !r && final(self)@ == old(self)@,
            old(self)@.view_depth > 0 ==> ({
                let b = old(self)@.area_beginning();
                &&& r == (b.depth(b.line as int) < old(self)@.view_depth)
                &&& r ==> final(self)@ == (DocView {
                    view_depth: (old(self)@.view_depth - 1) as nat,
                    ..b
                })
                &&& !r ==> final(self)@ == b
            }),
            final(self)@.wf(),
    {
        if self.current_indentation_level == 0 {
            return false;
        }
        self.navigate_to_area_beginning();
        proof {
            lemma_area_beginning_keeps(old(self)@);
        }
        assert(self.lines@[self.current_line_number as int]@ == self@.lines[self@.line as int]);
        if self.lines[self.current_line_number].indentation_level < self.current_indentation_level {
            self.current_indentation_level = self.current_indentation_level - 1;
            return true;
        }
        false
    }

    /// Breaks the line. At the line's last content position (its newline) a
    /// blank line at the view depth is added after the cursor's whole block
    /// (or right after the line, where the view depth differs from the
    /// line's depth) and the cursor moves onto it. Elsewhere the text before
    /// the cursor becomes a new line above, and the cursor stays with the
    /// rest, at offset 0.
    pub fn create_new_line(&mut self)
        requires
            old(self)@.wf(),
        ensures
            ({
                let v = old(self)@;
                let t = v.current_text();
                let d = v.depth(v.line as int);
                &&& v.offset == t.len() - 1 ==> final(self)@ == (DocView {
                    lines: v.lines.insert(
                        new_line_index(v),
                        LineView { depth: v.view_depth, text: seq!['\n'] },
                    ),
                    line: new_line_index(v) as nat,
                    offset: 0,
                    ..v
                })
                &&& v.offset < t.len() - 1 ==> final(self)@ == (DocView {
                    lines: v.lines.update(
                        v.line as int,
                        LineView { depth: d, text: t.skip(v.offset as int) },
                    ).insert(
                        v.line as int,
                        LineView { depth: d, text: t.take(v.offset as int).push('\n') },
                    ),
                    line: v.line + 1,
                    offset: 0,
                    ..v
                })
            }),
            final(self)@.wf(),
    {
        let ghost v = self@;
        let cur = self.current_line_number;
        let off = self.current_character_offset;
        let vd = self.current_indentation_level;
        assert(self.lines@[cur as int]@ == v.lines[cur as int]);
        let d = self.lines[cur].indentation_level;
        let n = self.lines.len();
        assert(v.lines.len() == n);
        if off == self.lines[cur].text.len() - 1 {
            let at = if vd == d {
                let e = self.get_subblock_finishing_line_number(cur);
                proof {
                    lemma_subtree_end_unique(v.lines, cur as int, e as int, subtree_end(v.lines, cur as int));
                }
                e + 1
            } else {
                cur + 1
            };
            let mut text: Vec<char> = Vec::new();
            text.push('\n');
            self.lines.insert(at, Line { indentation_level: vd, text });
            self.current_line_number = at;
            self.current_character_offset = 0;
            let ghost want = v.lines.insert(at as int, LineView { depth: vd as nat, text: seq!['\n'] });
            assert(self@.lines =~= want);
            assert(self@.lines[at as int].text =~= seq!['\n']);
            assert forall|i: int| 0 <= i < self@.lines.len() implies newline_terminated(
                #[trigger] self@.lines[i].text,
            ) by {
                if i < at {
                    assert(self@.lines[i] == v.lines[i]);
                } else if i > at {
                    assert(self@.lines[i] == v.lines[i - 1]);
                }
            }
        } else {
            let len = self.lines[cur].text.len();
            let rest = copy_range(&self.lines[cur].text, off, len);
            let mut head = copy_range(&self.lines[cur].text, 0, off);
            head.push('\n');
            self.lines.set(cur, Line { indentation_level: d, text: rest });
            self.lines.insert(cur, Line { indentation_level: d, text: head });
            self.current_line_number = cur + 1;
            self.current_character_offset = 0;
            let ghost t = v.current_text();
            let ghost want = v.lines.update(
                cur as int,
                LineView { depth: d as nat, text: t.skip(off as int) },
            ).insert(cur as int, LineView { depth: d as nat, text: t.take(off as int).push('\n') });
            assert(self@.lines =~= want);
            assert forall|i: int| 0 <= i < self@.lines.len() implies newline_terminated(
                #[trigger] self@.lines[i].text,
            ) by {
                if i < cur {
                    assert(self@.lines[i] == v.lines[i]);
                } else if i > cur + 1 {
                    assert(self@.lines[i] == v.lines[i - 1]);
                } else if i == cur + 1 {
                    assert(self@.lines[i].text.last() == t.last());
                }
            }
        }
    }

    /// Splits the line into a new block: the text from the cursor on becomes
    /// a child line right below, the cursor's line keeps the text before
    /// the cursor and a newline, and the cursor moves onto the child, at
    /// offset 0, viewing it at its depth.
    pub fn create_new_block(&mut self)
        requires
            old(self)@.wf(),
            old(self)@.depth(old(self)@.line as int) < usize::MAX,
        ensures
            final(self)@ == new_block_of(old(self)@),
            final(self)@.wf(),
    {
        let ghost v = self@;
        let ghost t = v.current_text();
        let cur = self.current_line_number;
        let off = self.current_character_offset;
        let n = self.lines.len();
        assert(self.lines@[cur as int]@ == v.lines[cur as int]);
        let d = self.lines[cur].indentation_level;
        let len = self.lines[cur].text.len();
        let rest = copy_range(&self.lines[cur].text, off, len);
        let mut head = copy_range(&self.lines[cur].text, 0, off);
        head.push('\n');
        self.lines.set(cur, Line { indentation_level: d, text: head });
        self.lines.insert(cur + 1, Line { indentation_level: d + 1, text: rest });
        self.current_line_number = cur + 1;
        self.current_character_offset = 0;
        self.current_indentation_level = d + 1;
        let ghost want = v.lines.update(
            cur as int,
            LineView { depth: d as nat, text: t.take(off as int).push('\n') },
        ).insert(cur + 1int, LineView { depth: (d + 1) as nat, text: t.skip(off as int) });
        assert(self@.lines =~= want);
        assert forall|i: int| 0 <= i < self@.lines.len() implies newline_terminated(
            #[trigger] self@.lines[i].text,
        ) by {
            if i < cur {
                assert(self@.lines[i] == v.lines[i]);
            } else if i > cur + 1 {
                assert(self@.lines[i] == v.lines[i - 1]);
            } else if i == cur + 1 {
                assert(self@.lines[i].text.last() == t.last());
            }
        }
    }

    /// Deletes the character before the cursor and returns it. At offset 0
    /// the line is joined to the end of the line that a step back reaches,
    /// and the newline comes back; that fails, changing nothing, where the
    /// line has a child or the step back fails.
    pub fn delete_character(&mut self) -> (r: Option<char>)
        requires
            old(self)@.wf(),
        ensures
            deletes_character(old(self)@, r, final(self)@),
            final(self)@.wf(),
    {
        let ghost v = self@;
        let ghost t = v.current_text();
        let cur = self.current_line_number;
        let off = self.current_character_offset;
        assert(self.lines@[cur as int]@ == v.lines[cur as int]);
        if off > 0 {
            let d = self.lines[cur].indentation_level;
            let c = self.lines[cur].text[off - 1];
            self.lines[cur].text.remove(off - 1);
            assert(self.lines@[cur as int].text@ == t.remove(off - 1));
            self.current_character_offset = off - 1;
            let ghost want = v.lines.update(
                cur as int,
                LineView { text: t.remove(off - 1), ..v.lines[cur as int] },
            );
            assert(self@.lines =~= want);
            assert forall|i: int| 0 <= i < self@.lines.len() implies newline_terminated(
                #[trigger] self@.lines[i].text,
            ) by {
                if i != cur {
                    assert(self@.lines[i] == v.lines[i]);
                } else {
                    assert(self@.lines[i].text.last() == t.last());
                }
            }
            return Some(c);
        }
        if self.line_has_subblock(cur) {
            return None;
        }
        if !self.navigate_to_previous_line() {
            return None;
        }
        let p = self.current_line_number;
        proof {
            let q = choose|j: int| v.is_prev_target(j);
            lemma_prev_target_unique(v, q, p as int);
        }
        assert(self.lines@[p as int]@ == v.lines[p as int]);
        let ghost pt = v.lines[p as int].text;
        let plen = self.lines[p].text.len();
        let removed = self.lines.remove(cur);
        assert(removed@ == v.lines[cur as int]);
        let mut joined = copy_range(&self.lines[p].text, 0, plen - 1);
        let mut tail = removed.text;
        joined.append(&mut tail);
        let pd = self.lines[p].indentation_level;
        self.lines.set(p, Line { indentation_level: pd, text: joined });
        self.current_character_offset = plen - 1;
        self.selection_mark = match self.selection_mark {
            Some(a) => if a < self.lines.len() {
                Some(a)
            } else {
                None
            },
            None => None,
        };
        let ghost want = v.lines.update(p as int, LineView { text: pt.drop_last() + t, ..v.lines[p as int] }).remove(
            cur as int,
        );
        assert(self@.lines =~= want);
        assert forall|i: int| 0 <= i < self@.lines.len() implies newline_terminated(
            #[trigger] self@.lines[i].text,
        ) by {
            if i < cur && i != p {
                assert(self@.lines[i] == v.lines[i]);
            } else if i >= cur {
                assert(self@.lines[i] == v.lines[i + 1]);
            } else {
                assert(self@.lines[i].text.last() == t.last());
            }
        }
        Some('\n')
    }

    /// Removes lines `b` to `e` as `remove_block` says.
    fn remove_lines(&mut self, b: usize, e: usize)
        requires
            old(self)@.wf(),
            b <= e < old(self)@.lines.len(),
        ensures
            final(self)@ == remove_block(old(self)@, b as int, e as int),
            final(self)@.wf(),
    {
        let ghost v = self@;
        let ghost w = DocView { line: b as nat, offset: 0, ..v };
        self.current_line_number = b;
        self.current_character_offset = 0;
        assert(self@ == w);
        let n0 = self.lines.len();
        let moved = self.navigate_to_previous_line();
        assert(self.lines@.len() == n0);
        let mut tail = self.lines.split_off(e + 1);
        self.lines.truncate(b);
        self.lines.append(&mut tail);
        let ghost rest = v.lines.take(b as int) + v.lines.skip(e + 1);
        assert(views(self.lines@) =~= rest);
        if self.lines.len() == 0 {
            self.lines.push(blank_root_line());
            assert(views(self.lines@) =~= seq![blank_root()]);
        }
        let n = self.lines.len();
        if moved {
            proof {
                let q = choose|j: int| w.is_prev_target(j);
                lemma_prev_target_unique(w, q, self@.line as int);
            }
        } else if b > 0 {
            self.current_line_number = b - 1;
        } else {
            self.current_line_number = 0;
        }
        self.current_character_offset = 0;
        self.selection_mark = match self.selection_mark {
            Some(a) => if a < n {
                Some(a)
            } else {
                None
            },
            None => None,
        };
        let ghost want = remove_block(v, b as int, e as int);
        assert forall|i: int| 0 <= i < self@.lines.len() implies newline_terminated(
            #[trigger] self@.lines[i].text,
        ) by {
            if rest.len() > 0 {
                if i < b {
                    assert(self@.lines[i] == v.lines[i]);
                } else {
                    assert(self@.lines[i] == v.lines[i + (e + 1 - b)]);
                }
            }
        }
        assert(self@ == want);
    }

    /// Removes the cursor's line with its whole block. The cursor steps back
    /// as `navigate_to_previous_line` would; a document left empty gets a
    /// blank root line.
    pub fn delete(&mut self)
        requires
            old(self)@.wf(),
        ensures
            final(self)@ == remove_block(
                old(self)@,
                old(self)@.line as int,
                subtree_end(old(self)@.lines, old(self)@.line as int),
            ),
            final(self)@.wf(),
            final(self)@.lines.len() >= 1,
    {
        let ghost v = self@;
        let start = self.current_line_number;
        let finish = self.get_subblock_finishing_line_number(start);
        proof {
            lemma_subtree_end_unique(v.lines, start as int, finish as int, subtree_end(v.lines, start as int));
        }
        self.remove_lines(start, finish);
    }

    /// The flat text of lines `beginning_line` up to `ending_line` (not
    /// included): four spaces per depth unit, then each line's trimmed text.
    pub fn render_text(&self, beginning_line: usize, ending_line: usize) -> (r: String)
        requires
            self@.wf(),
            beginning_line <= ending_line <= self@.lines.len(),
        ensures
            r@ == render_lines(self@.lines.subrange(beginning_line as int, ending_line as int)),
    {
        let v = render_range(&self.lines, beginning_line, ending_line);
        string_of(v.as_slice())
    }

    /// The text of the selection, rendered, without trailing whitespace; with
    /// `cut`, the selected lines are also removed as `remove_block` says. A
    /// cut whose starting line is shallower than the view depth is refused,
    /// changing nothing.
    pub fn get_selected_text(&mut self, cut: bool) -> (r: Result<String, EditError>)
        requires
            old(self)@.wf(),
        ensures
            ({
                let v = old(self)@;
                let (b, e) = selection_bounds(v);
                &&& r is Err <==> cut && v.depth(selection_mark(v)) < v.view_depth
                &&& r is Err ==> r == Err::<String, EditError>(EditError::InvalidSelection)
                    && final(self)@ == v
                &&& r is Ok ==> r->Ok_0@ == trim_end(render_lines(v.lines.subrange(b, e + 1)))
                &&& r is Ok && cut ==> final(self)@ == remove_block(v, b, e)
                &&& r is Ok && !cut ==> final(self)@ == v
            }),
            final(self)@.wf(),
    {
        let ghost v = self@;
        let cur = self.current_line_number;
        let mark = match self.selection_mark {
            Some(line) => line,
            None => cur,
        };
        assert(self.lines@[mark as int]@ == v.lines[mark as int]);
        if cut && self.lines[mark].indentation_level < self.current_indentation_level {
            return Err(EditError::InvalidSelection);
        }
        let (b, e) = if mark <= cur {
            let e = self.get_subblock_finishing_line_number(cur);
            proof {
                lemma_subtree_end_unique(v.lines, cur as int, e as int, subtree_end(v.lines, cur as int));
            }
            (mark, e)
        } else {
            let e = self.get_subblock_finishing_line_number(mark);
            proof {
                lemma_subtree_end_unique(v.lines, mark as int, e as int, subtree_end(v.lines, mark as int));
            }
            (cur, e)
        };
        let n0 = self.lines.len();
        assert(e < n0);
        let rendered = render_range(&self.lines, b, e + 1);
        let k = trim_end_index(&rendered);
        let kept = copy_range(&rendered, 0, k);
        let result = string_of(kept.as_slice());
        if cut {
            self.remove_lines(b, e);
        }
        Ok(result)
    }

    /// Starts a selection at the cursor's line, unless one is started.
    pub fn start_selection(&mut self)
        requires
            old(self)@.wf(),
        ensures
            final(self)@ == (DocView {
                anchor: match old(self)@.anchor {
                    Some(a) => Some(a),
                    None => Some(old(self)@.line),
                },
                ..old(self)@
            }),
            final(self)@.wf(),
    {
        if self.selection_mark.is_none() {
            self.selection_mark = Some(self.current_line_number);
        }
    }

    /// Drops the selection.
    pub fn cancel_selection(&mut self)
        requires
            old(self)@.wf(),
        ensures
            final(self)@ == (DocView { anchor: None, ..old(self)@ }),
            final(self)@.wf(),
    {
        self.selection_mark = None;
    }

    /// Replaces the whole document with `text`, normalized; the cursor goes
    /// to the start, the view depth to 0, the selection and the file path
    /// are dropped. Where the text cannot be normalized, nothing changes.
    pub fn load(&mut self, text: String) -> (r: Result<(), NormalizationError>)
        requires
            old(self)@.wf(),
        ensures
            match normalize(load_texts(text@)) {
                Ok(ls) => r is Ok && final(self)@ == (DocView {
                    lines: ls,
                    line: 0,
                    offset: 0,
                    view_depth: 0,
                    anchor: None,
                    path: None,
                }),
                Err(e) => r == Err::<(), NormalizationError>(e) && final(self)@ == old(self)@,
            },
            final(self)@.wf(),
    {
        let chars = chars_of(text.as_str());
        let pieces = lines_of(&chars);
        let lines = if pieces.len() == 0 {
            let mut one: Vec<Line> = Vec::new();
            one.push(blank_root_line());
            assert(one@[0]@.text =~= seq!['\n']);
            assert(texts(views(one@)) =~= seq![seq!['\n']]);
            one
        } else {
            lines_from_pieces(&pieces)
        };
        let ghost ts = load_texts(text@);
        assert(texts(views(lines@)) == ts);
        assert forall|i: int| 0 <= i < ts.len() implies crate::line::newline_terminated(#[trigger] ts[i]) by {
            if text_lines(text@).len() > 0 {
                assert(ts[i] == text_lines(text@)[i].push('\n'));
            }
        }
        match parse_indentation(&lines) {
            Err(e) => Err(e),
            Ok(v) => {
                proof {
                    lemma_normalize_keeps_newlines(ts);
                }
                self.lines = v;
                self.current_line_number = 0;
                self.current_character_offset = 0;
                self.current_indentation_level = 0;
                self.selection_mark = None;
                self.file_path = None;
                Ok(())
            },
        }
    }

    /// Pastes `text`. A text with no newline goes into the cursor's line at
    /// the cursor, which moves past it. Otherwise the text is normalized on
    /// its own, moved to the view depth, and its lines go in where
    /// `paste_index` says; the cursor stays. Where the text cannot be
    /// normalized, nothing changes.
    pub fn paste(&mut self, text: &str) -> (r: Result<(), NormalizationError>)
        requires
            old(self)@.wf(),
            old(self)@.view_depth + text@.len() < usize::MAX,
        ensures
            ({
                let v = old(self)@;
                let s = paste_text(text@);
                let t = v.current_text();
                &&& !has_newline(s) ==> r is Ok && final(self)@ == (DocView {
                    lines: v.lines.update(
                        v.line as int,
                        LineView {
                            text: t.take(v.offset as int) + s + t.skip(v.offset as int),
                            ..v.lines[v.line as int]
                        },
                    ),
                    offset: v.offset + s.len(),
                    ..v
                })
                &&& has_newline(s) ==> match normalize(paste_texts(s)) {
                    Ok(ls) => r is Ok && final(self)@ == (DocView {
                        lines: v.lines.take(paste_index(v)) + shifted(ls, v.view_depth)
                            + v.lines.skip(paste_index(v)),
                        ..v
                    }),
                    Err(e) => r == Err::<(), NormalizationError>(e) && final(self)@ == v,
                }
            }),
            final(self)@.wf(),
    {
        let ghost v = self@;
        let raw = chars_of(text);
        let k = trim_end_index(&raw);
        assert(raw@.take(k as int) == trim_end(raw@));
        let pasted = if !holds_newline(&raw, k) {
            let i = trim_start_index(&raw);
            copy_range(&raw, i, raw.len())
        } else {
            copy_range(&raw, 0, raw.len())
        };
        assert(pasted@ =~= paste_text(text@));
        let cur = self.current_line_number;
        let off = self.current_character_offset;
        let vd = self.current_indentation_level;
        assert(self.lines@[cur as int]@ == v.lines[cur as int]);
        if !holds_newline(&pasted, pasted.len()) {
            assert(pasted@.take(pasted@.len() as int) =~= pasted@);
            let len = self.lines[cur].text.len();
            let mut joined = copy_range(&self.lines[cur].text, 0, off);
            let mut middle = copy_range(&pasted, 0, pasted.len());
            let mut rest = copy_range(&self.lines[cur].text, off, len);
            joined.append(&mut middle);
            joined.append(&mut rest);
            let jl = joined.len();
            let d = self.lines[cur].indentation_level;
            self.lines.set(cur, Line { indentation_level: d, text: joined });
            self.current_character_offset = off + pasted.len();
            let ghost t = v.current_text();
            let ghost want = v.lines.update(
                cur as int,
                LineView { text: t.take(off as int) + pasted@ + t.skip(off as int), ..v.lines[cur as int] },
            );
            assert(self@.lines =~= want);
            assert forall|i: int| 0 <= i < self@.lines.len() implies newline_terminated(
                #[trigger] self@.lines[i].text,
            ) by {
                if i != cur {
                    assert(self@.lines[i] == v.lines[i]);
                } else {
                    assert(self@.lines[i].text.last() == t.last());
                }
            }
            return Ok(());
        }
        assert(pasted@.take(pasted@.len() as int) =~= pasted@);
        let cleaned = without_carriage_returns(&pasted);
        let pieces = split_on_newlines(&cleaned);
        let lines = lines_from_pieces(&pieces);
        let ghost ts = paste_texts(pasted@);
        assert(texts(views(lines@)) == ts);
        match parse_indentation(&lines) {
            Err(e) => Err(e),
            Ok(parsed) => {
                proof {
                    lemma_normalize_keeps_newlines(ts);
                }
                let ghost ls = views(parsed@);
                let n0 = self.lines.len();
                assert(cur < n0);
                let at = if vd < self.lines[cur].indentation_level {
                    cur + 1
                } else {
                    let e = self.get_subblock_finishing_line_number(cur);
                    proof {
                        lemma_subtree_end_unique(v.lines, cur as int, e as int, subtree_end(v.lines, cur as int));
                    }
                    e + 1
                };
                let mut tail = self.lines.split_off(at);
                let mut i: usize = 0;
                while i < parsed.len()
                    invariant
                        i <= parsed@.len(),
                        ls == views(parsed@),
                        parsed@.len() == lines@.len(),
                        lines@.len() <= text@.len() + 1,
                        vd + text@.len() < usize::MAX,
                        forall|j: int| 0 <= j < parsed@.len() ==> #[trigger] parsed@[j].indentation_level < lines@.len(),
                        views(self.lines@) == v.lines.take(at as int) + shifted(ls.take(i as int), vd as nat),
                        self@.line == v.line,
                        self@.offset == v.offset,
                        self@.view_depth == v.view_depth,
                        self@.anchor == v.anchor,
                        self@.path == v.path,
                    decreases parsed@.len() - i,
                {
                    let ghost before = views(self.lines@);
                    let t = copy_range(&parsed[i].text, 0, parsed[i].text.len());
                    assert(t@ =~= parsed@[i as int].text@);
                    self.lines.push(Line { indentation_level: parsed[i].indentation_level + vd, text: t });
                    assert(shifted(ls.take(i + 1), vd as nat) =~= shifted(ls.take(i as int), vd as nat).push(
                        LineView { depth: ls[i as int].depth + vd as nat, text: ls[i as int].text },
                    ));
                    assert(views(self.lines@) =~= before.push(
                        LineView { depth: ls[i as int].depth + vd as nat, text: ls[i as int].text },
                    ));
                    i = i + 1;
                }
                assert(ls.take(ls.len() as int) =~= ls);
                self.lines.append(&mut tail);
                let ghost want = v.lines.take(at as int) + shifted(ls, vd as nat) + v.lines.skip(at as int);
                assert(views(self.lines@) =~= want);
                assert(self@.lines[cur as int] == v.lines[cur as int]);
                assert(at as int == paste_index(v));
                assert(self@.lines.len() >= v.lines.len());
                assert(self@ == (DocView { lines: want, ..v }));
                assert forall|j: int| 0 <= j < self@.lines.len() implies newline_terminated(
                    #[trigger] self@.lines[j].text,
                ) by {
                    if j < at {
                        assert(self@.lines[j] == v.lines[j]);
                    } else if j < at + ls.len() {
                        assert(self@.lines[j].text == ls[j - at].text);
                    } else {
                        assert(self@.lines[j] == v.lines[j - ls.len()]);
                    }
                }
                Ok(())
            },
        }
    }

    /// Where `search_term` is found in line `line_number` from
    /// `starting_position`, as `search_in_text` says.
    pub fn search_on_line(
        &self,
        line_number: usize,
        starting_position: usize,
        search_term: &Vec<char>,
        search_direction: SearchDirection,
    ) -> (r: Option<usize>)
        requires
            self@.wf(),
            line_number < self@.lines.len(),
        ensures
            r is Some <==> found_in(
                self@.lines[line_number as int].text,
                search_term@,
                starting_position as int,
                search_direction,
            ),
            r is Some ==> is_found_at(
                self@.lines[line_number as int].text,
                search_term@,
                starting_position as int,
                search_direction,
                r->0 as int,
            ),
    {
        assert(self.lines@[line_number as int]@ == self@.lines[line_number as int]);
        search_in_text(&self.lines[line_number].text, starting_position, search_term, search_direction)
    }

    /// Searches for `search_term` from the cursor in `search_direction`,
    /// line by line up to the document's first or last line, without
    /// wrapping; moves the cursor to what it finds. Fails, changing nothing,
    /// where nothing is found or the term is empty.
    pub fn find(&mut self, search_term: &str, search_direction: SearchDirection) -> (r: bool)
        requires
            old(self)@.wf(),
        ensures
            r == exists|l: int| line_found(old(self)@, search_term@, search_direction, l),
            r ==> is_hit_line(old(self)@, search_term@, search_direction, final(self)@.line as int)
                && is_found_at(
                old(self)@.lines[final(self)@.line as int].text,
                search_term@,
                search_start(old(self)@, search_direction, final(self)@.line as int),
                search_direction,
                final(self)@.offset as int,
            ) && final(self)@ == (DocView {
                line: final(self)@.line,
                offset: final(self)@.offset,
                ..old(self)@
            }),
            !r ==> final(self)@ == old(self)@,
            final(self)@.wf(),
    {
        let ghost v = self@;
        let ghost m = search_term@;
        let term = chars_of(search_term);
        let cur = self.current_line_number;
        let off = self.current_character_offset;
        let n = self.lines.len();
        assert(self.lines@[cur as int]@ == v.lines[cur as int]);
        let len = self.lines[cur].text.len();
        let start = match search_direction {
            SearchDirection::Forward => off + 1,
            SearchDirection::Backward => off,
        };
        if let Some(p) = self.search_on_line(cur, start, &term, search_direction) {
            assert(line_found(v, m, search_direction, cur as int));
            self.current_character_offset = p;
            assert(is_hit_line(v, m, search_direction, cur as int));
            return true;
        }
        match search_direction {
            SearchDirection::Forward => {
                let mut l: usize = cur + 1;
                while l < n
                    invariant
                        v == self@,
                        v == old(self)@,
                        v.wf(),
                        m == term@,
                        m == search_term@,
                        n == v.lines.len(),
                        cur == v.line,
                        search_direction == SearchDirection::Forward,
                        cur < l <= n,
                        forall|k: int| k < l ==> !line_found(v, m, search_direction, k),
                    decreases n - l,
                {
                    if let Some(p) = self.search_on_line(l, 0, &term, search_direction) {
                        assert(line_found(v, m, search_direction, l as int));
                        assert(self.lines@[l as int]@ == v.lines[l as int]);
                        self.current_line_number = l;
                        self.current_character_offset = p;
                        assert(is_hit_line(v, m, search_direction, l as int));
                        return true;
                    }
                    l = l + 1;
                }
            },
            SearchDirection::Backward => {
                let mut l: usize = cur;
                while l > 0
                    invariant
                        v == self@,
                        v == old(self)@,
                        v.wf(),
                        m == term@,
                        m == search_term@,
                        n == v.lines.len(),
                        cur == v.line,
                        search_direction == SearchDirection::Backward,
                        l <= cur,
                        forall|k: int| k >= l ==> !line_found(v, m, search_direction, k),
                    decreases l,
                {
                    let k = l - 1;
                    assert(self.lines@[k as int]@ == v.lines[k as int]);
                    assert(newline_terminated(v.lines[k as int].text));
                    let last = self.lines[k].text.len() - 1;
                    if let Some(p) = self.search_on_line(k, last, &term, search_direction) {
                        assert(line_found(v, m, search_direction, k as int));
                        self.current_line_number = k;
                        self.current_character_offset = p;
                        assert(is_hit_line(v, m, search_direction, k as int));
                        return true;
                    }
                    l = k;
                }
            },
        }
        false
    }

    /// Gives every line the depth that the marks `beginning_mark` and
    /// `ending_mark` say (see `reformatted_depths`); texts stay as they are.
    /// An empty mark is refused, changing nothing.
    pub fn reformat(&mut self, beginning_mark: &str, ending_mark: &str) -> (r: Result<(), ReformatError>)
        requires
            old(self)@.wf(),
            total_len(old(self)@.lines) < i64::MAX,
            total_len(old(self)@.lines) < usize::MAX,
        ensures
            r == Err::<(), ReformatError>(ReformatError::EmptyMark) <==> beginning_mark@.len() == 0
                || ending_mark@.len() == 0,
            r is Ok <==> beginning_mark@.len() > 0 && ending_mark@.len() > 0 && pattern_accepted(
                scan_alternatives(beginning_mark@, ending_mark@),
            ),
            r is Err ==> final(self)@ == old(self)@,
            r is Ok ==> final(self)@ == (DocView {
                lines: Seq::new(
                    old(self)@.lines.len(),
                    |i: int|
                        LineView {
                            depth: reformatted_depths(
                                texts(old(self)@.lines),
                                beginning_mark@,
                                ending_mark@,
                            )[i],
                            text: old(self)@.lines[i].text,
                        },
                ),
                ..old(self)@
            }),
            final(self)@.wf(),
    {
        let ghost v = self@;
        let b = chars_of(beginning_mark);
        let e = chars_of(ending_mark);
        if b.len() == 0 || e.len() == 0 {
            return Err(ReformatError::EmptyMark);
        }
        let found = match scan_lines(&self.lines, beginning_mark, ending_mark) {
            None => {
                return Err(ReformatError::UnusableMark);
            },
            Some(found) => found,
        };
        let ghost txt = texts(v.lines);
        assert(txt =~= texts(views(self.lines@)));
        assert(token_views(found@) =~= Seq::new(
            txt.len(),
            |i: int| tokens(scan_alternatives(b@, e@), txt[i]),
        ));
        let depths = reformat_depths(&self.lines, &found, &b, &e);
        let ghost want = reformatted_depths(txt, beginning_mark@, ending_mark@);
        let n = self.lines.len();
        let mut i: usize = 0;
        while i < n
            invariant
                n == self.lines@.len(),
                n == v.lines.len(),
                depths@.len() == n,
                txt == texts(v.lines),
                forall|k: int| 0 <= k < n ==> #[trigger] depths@[k] as nat == want[k],
                forall|k: int| 0 <= k < n ==> #[trigger] self.lines@[k].text@ == v.lines[k].text,
                forall|k: int| 0 <= k < i ==> #[trigger] self.lines@[k].indentation_level as nat == want[k],
                self@.line == v.line,
                self@.offset == v.offset,
                self@.view_depth == v.view_depth,
                self@.anchor == v.anchor,
                self@.path == v.path,
            decreases n - i,
        {
            self.lines[i].indentation_level = depths[i];
            i = i + 1;
        }
        let ghost result = Seq::new(
            v.lines.len(),
            |k: int| LineView { depth: want[k], text: v.lines[k].text },
        );
        assert(self@.lines =~= result);
        assert forall|k: int| 0 <= k < self@.lines.len() implies newline_terminated(
            #[trigger] self@.lines[k].text,
        ) by {
            assert(self@.lines[k].text == v.lines[k].text);
        }
        Ok(())
    }

    /// The file the document came from, if any.
    pub fn file_path(&self) -> (r: &Option<String>)
        ensures
            match *r {
                Some(p) => self@.path == Some(p@),
                None => self@.path is None,
            },
    {
        &self.file_path
    }

    /// Records the file the document came from.
    pub fn set_file_path(&mut self, path: Option<String>)
        requires
            old(self)@.wf(),
        ensures
            final(self)@ == (DocView {
                path: match path {
                    Some(p) => Some(p@),
                    None => None,
                },
                ..old(self)@
            }),
            final(self)@.wf(),
    {
        self.file_path = path;
    }

    /// The cursor's line, counted from 0.
    pub fn current_line_number(&self) -> (r: usize)
        ensures
            r == self@.line,
    {
        self.current_line_number
    }

    /// The cursor's offset in its line.
    pub fn current_character_offset(&self) -> (r: usize)
        ensures
            r == self@.offset,
    {
        self.current_character_offset
    }

    /// The depth at which sibling navigation works.
    pub fn current_indentation_level(&self) -> (r: usize)
        ensures
            r == self@.view_depth,
    {
        self.current_indentation_level
    }

    /// The number of lines.
    pub fn line_count(&self) -> (r: usize)
        ensures
            r == self@.lines.len(),
    {
        self.lines.len()
    }

    /// The depth of line `line_number`.
    pub fn line_depth(&self, line_number: usize) -> (r: usize)
        requires
            line_number < self@.lines.len(),
        ensures
            r == self@.lines[line_number as int].depth,
    {
        assert(self.lines@[line_number as int]@ == self@.lines[line_number as int]);
        self.lines[line_number].indentation_level
    }

    /// The text of line `line_number`, newline included.
    pub fn line_text(&self, line_number: usize) -> (r: String)
        requires
            line_number < self@.lines.len(),
        ensures
            r@ == self@.lines[line_number as int].text,
    {
        assert(self.lines@[line_number as int]@ == self@.lines[line_number as int]);
        string_of(self.lines[line_number].text.as_slice())
    }
}

} // verus!
