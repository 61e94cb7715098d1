//! The document's mathematical model: its state as sequences and numbers,
//! the predicates that the document's operations are specified by, and the
//! laws that relate operations to each other.

use vstd::prelude::*;
use crate::line::{LineView, newline_terminated};
use crate::text::{trim_end, trim_start, text_lines, split_newlines, drop_cr, has_newline};
use crate::search::{SearchDirection, found_in};

verus! {

/// The document's state, mathematically.
pub struct DocView {
    pub lines: Seq<LineView>,
    /// The cursor's line.
    pub line: nat,
    /// The cursor's offset in its line.
    pub offset: nat,
    /// The depth at which sibling navigation works; it may be less than the
    /// depth of the cursor's line.
    pub view_depth: nat,
    /// The line where a selection started.
    pub anchor: Option<nat>,
    /// The file the document came from.
    pub path: Option<Seq<char>>,
}

/// The line that an empty document holds: blank, at the root.
pub open spec fn blank_root() -> LineView {
    LineView { depth: 0, text: seq!['\n'] }
}

impl DocView {
    /// The document's invariant: never empty, every line ends with a
    /// newline, the cursor and the anchor address existing places.
    pub open spec fn wf(&self) -> bool {
        &&& self.lines.len() > 0
        &&& forall|i: int| 0 <= i < self.lines.len() ==> newline_terminated(#[trigger] self.lines[i].text)
        &&& self.line < self.lines.len()
        &&& self.offset < self.lines[self.line as int].text.len()
        &&& self.anchor is Some ==> self.anchor->0 < self.lines.len()
    }

    /// The depth of line `i`.
    pub open spec fn depth(&self, i: int) -> nat {
        self.lines[i].depth
    }

    /// The text of the cursor's line.
    pub open spec fn current_text(&self) -> Seq<char> {
        self.lines[self.line as int].text
    }

    /// Whether `j` is where a step back lands: the nearest line above the
    /// cursor that is no deeper than the view depth.
    pub open spec fn is_prev_target(&self, j: int) -> bool {
        &&& 0 <= j < self.line
        &&& self.depth(j) <= self.view_depth
        &&& forall|k: int| j < k < self.line ==> self.depth(k) > self.view_depth
    }

    /// Whether a step back succeeds: the cursor's line is not shallower
    /// than the view depth, and some line above is no deeper than it.
    pub open spec fn can_go_back(&self) -> bool {
        &&& self.depth(self.line as int) >= self.view_depth
        &&& exists|j: int| self.is_prev_target(j)
    }

    /// Whether `j` is where a step forward lands: the next sibling at the
    /// view depth, with only deeper lines between.
    pub open spec fn is_next_target(&self, j: int) -> bool {
        &&& self.line < j < self.lines.len()
        &&& self.depth(j) == self.view_depth
        &&& forall|k: int| self.line < k < j ==> self.depth(k) > self.view_depth
    }

    /// Whether a step forward succeeds.
    pub open spec fn can_go_forward(&self) -> bool {
        exists|j: int| self.is_next_target(j)
    }

    /// Where stepping back as long as it succeeds ends: the first sibling of
    /// the cursor's block, or the line that opens it.
    pub open spec fn area_beginning(&self) -> DocView
        decreases self.line,
    {
        if self.can_go_back() {
            let j = choose|j: int| self.is_prev_target(j);
            if 0 <= j < self.line {
                self.moved_to(j).area_beginning()
            } else {
                *self
            }
        } else {
            *self
        }
    }

    /// Where stepping forward as long as it succeeds ends: the last sibling
    /// of the cursor's block.
    pub open spec fn area_ending(&self) -> DocView
        decreases self.lines.len() - self.line,
    {
        if self.can_go_forward() {
            let j = choose|j: int| self.is_next_target(j);
            if self.line < j < self.lines.len() {
                self.moved_to(j).area_ending()
            } else {
                *self
            }
        } else {
            *self
        }
    }

    /// The cursor moved to the start of line `j`.
    pub open spec fn moved_to(&self, j: int) -> DocView {
        DocView { line: j as nat, offset: 0, ..*self }
    }
}

/// Stepping back to the area's beginning moves only the cursor.
pub proof fn lemma_area_beginning_keeps(v: DocView)
    ensures
        v.area_beginning() == (DocView {
            line: v.area_beginning().line,
            offset: v.area_beginning().offset,
            ..v
        }),
    decreases v.line,
{
    if v.can_go_back() {
        let j = choose|j: int| v.is_prev_target(j);
        if 0 <= j < v.line {
            lemma_area_beginning_keeps(v.moved_to(j));
        }
    }
}

/// A step back has a single target.
pub proof fn lemma_prev_target_unique(v: DocView, a: int, b: int)
    requires
        v.is_prev_target(a),
        v.is_prev_target(b),
    ensures
        a == b,
{
    if a < b {
        assert(v.depth(b) > v.view_depth);
    } else if b < a {
        assert(v.depth(a) > v.view_depth);
    }
}

/// A step forward has a single target.
pub proof fn lemma_next_target_unique(v: DocView, a: int, b: int)
    requires
        v.is_next_target(a),
        v.is_next_target(b),
    ensures
        a == b,
{
    if a < b {
        assert(v.depth(a) > v.view_depth);
    } else if b < a {
        assert(v.depth(b) > v.view_depth);
    }
}

/// Whether `e` is the last line of the block that line `i` opens: every line
/// after `i` up to `e` is deeper than `i`, and the line after `e`, if any, is
/// not.
pub open spec fn is_subtree_end(lines: Seq<LineView>, i: int, e: int) -> bool {
    &&& 0 <= i <= e < lines.len()
    &&& forall|k: int| i < k <= e ==> #[trigger] lines[k].depth > lines[i].depth
    &&& e + 1 < lines.len() ==> lines[e + 1].depth <= lines[i].depth
}

/// The last line of the block that line `i` opens.
pub open spec fn subtree_end(lines: Seq<LineView>, i: int) -> int {
    choose|e: int| is_subtree_end(lines, i, e)
}

/// A block has a single last line.
pub proof fn lemma_subtree_end_unique(lines: Seq<LineView>, i: int, a: int, b: int)
    requires
        is_subtree_end(lines, i, a),
        is_subtree_end(lines, i, b),
    ensures
        a == b,
{
    if a < b {
        assert(lines[a + 1].depth > lines[i].depth);
    } else if b < a {
        assert(lines[b + 1].depth > lines[i].depth);
    }
}

/// The anchor, kept only where it still addresses one of `n` lines.
pub open spec fn clamp_anchor(a: Option<nat>, n: nat) -> Option<nat> {
    match a {
        Some(x) => if x < n {
            Some(x)
        } else {
            None
        },
        None => None,
    }
}

/// The document after lines `b` to `e` are removed: the cursor steps back
/// from line `b` as `navigate_to_previous_line` would, or else goes to the
/// line just before the removed ones (the first line where there is none);
/// a document left empty gets a blank root line.
pub open spec fn remove_block(v: DocView, b: int, e: int) -> DocView {
    let w = DocView { line: b as nat, offset: 0, ..v };
    let rest = v.lines.take(b) + v.lines.skip(e + 1);
    let lines = if rest.len() == 0 {
        seq![blank_root()]
    } else {
        rest
    };
    let line = if w.can_go_back() {
        choose|j: int| w.is_prev_target(j)
    } else if b > 0 {
        b - 1
    } else {
        0
    };
    DocView {
        lines,
        line: line as nat,
        offset: 0,
        view_depth: v.view_depth,
        anchor: clamp_anchor(v.anchor, lines.len()),
        path: v.path,
    }
}

/// Where `create_new_line` puts a blank line: after the cursor's whole
/// block where the view depth is the line's own, else right after it.
pub open spec fn new_line_index(v: DocView) -> int {
    if v.view_depth == v.depth(v.line as int) {
        subtree_end(v.lines, v.line as int) + 1
    } else {
        v.line + 1int
    }
}

/// The lines of the selection: from the anchor (or the cursor's line) to the
/// cursor's line, the later of the two with its whole block.
pub open spec fn selection_bounds(v: DocView) -> (int, int) {
    let mark = match v.anchor {
        Some(a) => a as int,
        None => v.line as int,
    };
    if mark <= v.line {
        (mark, subtree_end(v.lines, v.line as int))
    } else {
        (v.line as int, subtree_end(v.lines, mark))
    }
}

/// The line where the selection started, or the cursor's line.
pub open spec fn selection_mark(v: DocView) -> int {
    match v.anchor {
        Some(a) => a as int,
        None => v.line as int,
    }
}

/// Whether line `i` has a child: the next line is deeper.
pub open spec fn has_child(lines: Seq<LineView>, i: int) -> bool {
    i + 1 < lines.len() && lines[i + 1].depth > lines[i].depth
}

/// Each piece with a newline appended.
pub open spec fn terminated(pieces: Seq<Seq<char>>) -> Seq<Seq<char>> {
    pieces.map_values(|t: Seq<char>| t.push('\n'))
}

/// The line texts that `load` normalizes: the lines of the text, or one
/// empty line, each with a newline.
pub open spec fn load_texts(s: Seq<char>) -> Seq<Seq<char>> {
    if text_lines(s).len() == 0 {
        seq![seq!['\n']]
    } else {
        terminated(text_lines(s))
    }
}

/// What `paste` inserts: a text with no newline before its trailing
/// whitespace loses its leading whitespace.
pub open spec fn paste_text(s: Seq<char>) -> Seq<char> {
    if !has_newline(trim_end(s)) {
        trim_start(s)
    } else {
        s
    }
}

/// The line texts that `paste` normalizes: the pieces between newlines of
/// the text without carriage returns, each with a newline.
pub open spec fn paste_texts(s: Seq<char>) -> Seq<Seq<char>> {
    terminated(split_newlines(drop_cr(s)))
}

/// Where `paste` puts its lines: right after the cursor's line where that
/// line is deeper than the view depth, else after its whole block.
pub open spec fn paste_index(v: DocView) -> int {
    if v.view_depth < v.depth(v.line as int) {
        v.line + 1int
    } else {
        subtree_end(v.lines, v.line as int) + 1
    }
}

/// Lines moved `k` levels deeper.
pub open spec fn shifted(ls: Seq<LineView>, k: nat) -> Seq<LineView> {
    ls.map_values(|l: LineView| LineView { depth: l.depth + k, text: l.text })
}

/// Where a search of line `l` starts: forward, just past the cursor on its
/// line and at the start elsewhere; backward, at the cursor on its line and
/// at the last character elsewhere.
pub open spec fn search_start(v: DocView, dir: SearchDirection, l: int) -> int {
    match dir {
        SearchDirection::Forward => if l == v.line {
            v.offset + 1int
        } else {
            0
        },
        SearchDirection::Backward => if l == v.line {
            v.offset as int
        } else {
            v.lines[l].text.len() - 1
        },
    }
}

/// Whether a search in direction `dir` visits line `l`: the cursor's line
/// and those after it (forward) or before it (backward).
pub open spec fn in_reach(v: DocView, dir: SearchDirection, l: int) -> bool {
    match dir {
        SearchDirection::Forward => v.line <= l < v.lines.len(),
        SearchDirection::Backward => 0 <= l <= v.line,
    }
}

/// Whether a search in direction `dir` visits line `k` before line `l`.
pub open spec fn visited_before(dir: SearchDirection, k: int, l: int) -> bool {
    match dir {
        SearchDirection::Forward => k < l,
        SearchDirection::Backward => k > l,
    }
}

/// Whether the search finds `term` on line `l`.
pub open spec fn line_found(v: DocView, term: Seq<char>, dir: SearchDirection, l: int) -> bool {
    in_reach(v, dir, l) && found_in(v.lines[l].text, term, search_start(v, dir, l), dir)
}

/// Whether line `l` is the first line, in search order, where `term` is
/// found.
pub open spec fn is_hit_line(v: DocView, term: Seq<char>, dir: SearchDirection, l: int) -> bool {
    &&& line_found(v, term, dir, l)
    &&& forall|k: int| visited_before(dir, k, l) ==> !line_found(v, term, dir, k)
}

/// The document after `create_new_block`: the text from the cursor on
/// becomes a child line right below, and the cursor moves onto it.
pub open spec fn new_block_of(v: DocView) -> DocView {
    let t = v.current_text();
    let d = v.depth(v.line as int);
    DocView {
        lines: v.lines.update(
            v.line as int,
            LineView { depth: d, text: t.take(v.offset as int).push('\n') },
        ).insert(v.line + 1int, LineView { depth: d + 1, text: t.skip(v.offset as int) }),
        line: v.line + 1,
        offset: 0,
        view_depth: d + 1,
        ..v
    }
}

/// Whether `delete_character` on `v` returns `r` and leaves `w`: past the
/// start of a line, the character before the cursor goes; at the start, the
/// line joins the one a step back reaches, unless it has a child or the
/// step back fails.
pub open spec fn deletes_character(v: DocView, r: Option<char>, w: DocView) -> bool {
    let t = v.current_text();
    let p = choose|j: int| v.is_prev_target(j);
    let pt = v.lines[p].text;
    &&& v.offset > 0 ==> r == Some(t[v.offset - 1]) && w == (DocView {
        lines: v.lines.update(
            v.line as int,
            LineView { text: t.remove(v.offset - 1), ..v.lines[v.line as int] },
        ),
        offset: (v.offset - 1) as nat,
        ..v
    })
    &&& v.offset == 0 ==> (r is Some <==> !has_child(v.lines, v.line as int) && v.can_go_back())
    &&& r is None ==> w == v
    &&& v.offset == 0 && r is Some ==> r == Some('\n') && v.is_prev_target(p) && w == (DocView {
        lines: v.lines.update(p, LineView { text: pt.drop_last() + t, ..v.lines[p] }).remove(
            v.line as int,
        ),
        line: p as nat,
        offset: (pt.len() - 1) as nat,
        anchor: clamp_anchor(v.anchor, (v.lines.len() - 1) as nat),
        ..v
    })
}

/// Stepping forward to the next sibling and then back returns to the line
/// where it started, when that line is no deeper than the view depth.
pub proof fn lemma_next_then_previous(v: DocView, j: int)
    requires
        v.wf(),
        v.is_next_target(j),
        v.depth(v.line as int) <= v.view_depth,
    ensures
        v.moved_to(j).can_go_back(),
        v.moved_to(j).is_prev_target(v.line as int),
{
    let w = v.moved_to(j);
    assert(w.lines == v.lines);
    assert forall|k: int| v.line < k < w.line implies w.depth(k) > w.view_depth by {
        assert(v.depth(k) > v.view_depth);
    }
    assert(w.is_prev_target(v.line as int));
}

/// Making a new block and then deleting a character at its start gives back
/// the lines as they were, with the cursor where it was, unless a line right
/// below the cursor's line is more than one level deeper.
pub proof fn lemma_new_block_then_join(v: DocView, r: Option<char>, w: DocView)
    requires
        v.wf(),
        v.depth(v.line as int) < usize::MAX,
        v.line + 1 < v.lines.len() ==> v.depth(v.line + 1int) <= v.depth(v.line as int) + 1,
        deletes_character(new_block_of(v), r, w),
    ensures
        r == Some('\n'),
        w.lines == v.lines,
        w.line == v.line,
        w.offset == v.offset,
{
    let u = new_block_of(v);
    let c = v.line as int;
    let t = v.current_text();
    assert(u.lines[c] == LineView { depth: v.depth(c), text: t.take(v.offset as int).push('\n') });
    assert(u.is_prev_target(c));
    assert(!has_child(u.lines, c + 1)) by {
        if c + 2 < u.lines.len() {
            assert(u.lines[c + 2] == v.lines[c + 1]);
        }
    }
    let p = choose|j: int| u.is_prev_target(j);
    lemma_prev_target_unique(u, p, c);
    let pt = u.lines[p].text;
    assert(pt.drop_last() + u.current_text() =~= t);
    assert(w.lines =~= v.lines);
}

/// Deleting the only line leaves exactly one line, the blank root line.
pub proof fn lemma_delete_only_line(v: DocView)
    requires
        v.wf(),
        v.lines.len() == 1,
    ensures
        remove_block(v, v.line as int, subtree_end(v.lines, v.line as int)).lines == seq![blank_root()],
{
    assert(is_subtree_end(v.lines, 0, 0));
    lemma_subtree_end_unique(v.lines, 0, 0, subtree_end(v.lines, 0));
    assert(v.lines.take(0) + v.lines.skip(1) =~= Seq::<LineView>::empty());
}

} // verus!
