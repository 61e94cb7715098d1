//! A line of the document: its text and its block depth.

use vstd::prelude::*;

verus! {

/// One line: its normalized block depth (0 is the root) and its characters,
/// which in a document always end with a newline.
pub struct Line {
    pub indentation_level: usize,
    pub text: Vec<char>,
}

/// What a line is, mathematically.
pub struct LineView {
    pub depth: nat,
    pub text: Seq<char>,
}

impl View for Line {
    type V = LineView;

    open spec fn view(&self) -> LineView {
        LineView { depth: self.indentation_level as nat, text: self.text@ }
    }
}

impl Line {
    pub fn new(indentation_level: usize, text: Vec<char>) -> (r: Line)
        ensures
            r.indentation_level == indentation_level,
            r.text@ == text@,
    {
        Line { indentation_level, text }
    }
}

/// The views of a sequence of lines.
pub open spec fn views(lines: Seq<Line>) -> Seq<LineView> {
    lines.map_values(|l: Line| l@)
}

/// The texts of a sequence of lines.
pub open spec fn texts(lines: Seq<LineView>) -> Seq<Seq<char>> {
    lines.map_values(|l: LineView| l.text)
}

/// Whether `s` is a line's text as the document keeps it: not empty, with a
/// newline last.
pub open spec fn newline_terminated(s: Seq<char>) -> bool {
    s.len() > 0 && s.last() == '\n'
}

} // verus!
