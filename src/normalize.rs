//! Turns leading whitespace into block depths.
//!
//! A line's raw column is its count of leading spaces and tabs. A stack of
//! the columns of the open blocks gives each line its depth: a deeper column
//! opens a block, a shallower one must close back to a column on the stack.
//! Blank lines and lines that start like a comment or a merge marker take no
//! part; they get the depth of the first ordinary line after them.

use vstd::prelude::*;
use crate::line::{Line, LineView, views, texts, newline_terminated};
use crate::text::{trim, starts_with, trimmed, matches_at, copy_range};

verus! {

/// Why a text's indentation cannot be turned into depths. Each variant holds
/// the index of the offending line, counting from 0.
#[derive(PartialEq, Eq, Structural, Debug, Clone, Copy)]
pub enum NormalizationError {
    /// The line's column matches no column of the blocks still open.
    InconsistentDedent(usize),
    /// The line's column is left of the first ordinary line's column.
    BelowFloor(usize),
}

/// The number of spaces and tabs that `s` begins with.
pub open spec fn indent_width(s: Seq<char>) -> nat
    decreases s.len(),
{
    if s.len() > 0 && (s[0] == ' ' || s[0] == '\t') {
        1 + indent_width(s.drop_first())
    } else {
        0
    }
}

/// Whether a line takes no part in the column bookkeeping: it is blank, or
/// its trimmed text starts with a comment opener or a merge-conflict marker.
pub open spec fn is_deferred(s: Seq<char>) -> bool {
    let c = trim(s);
    ||| c.len() == 0
    ||| starts_with(c, seq!['/', '/'])
    ||| starts_with(c, seq!['#'])
    ||| starts_with(c, seq![';'])
    ||| starts_with(c, seq!['<', '<', '<', '<', '<', '<', '<'])
    ||| starts_with(c, seq!['>', '>', '>', '>', '>', '>', '>'])
    ||| starts_with(c, seq!['=', '=', '=', '=', '=', '=', '='])
    ||| starts_with(c, seq!['/', '*'])
    ||| starts_with(c, seq!['"', '"', '"'])
}

/// The stack `steps` popped down to its entry `col`; `None` when there is
/// no such entry.
pub open spec fn pop_to(steps: Seq<nat>, col: nat) -> Option<Seq<nat>>
    decreases steps.len(),
{
    if steps.len() == 0 {
        None
    } else if steps.last() == col {
        Some(steps)
    } else {
        pop_to(steps.drop_last(), col)
    }
}

/// The stack after an ordinary line of column `col`; its length less one is
/// that line's depth.
pub open spec fn next_steps(steps: Seq<nat>, col: nat) -> Option<Seq<nat>> {
    if steps.len() == 0 {
        Some(seq![col])
    } else if col > steps.last() {
        Some(steps.push(col))
    } else {
        pop_to(steps, col)
    }
}

/// The forward pass over `ts`: the stack after the last line, and for each
/// line its depth, or `None` for a deferred line.
pub open spec fn scan(ts: Seq<Seq<char>>) -> Result<(Seq<nat>, Seq<Option<nat>>), NormalizationError>
    decreases ts.len(),
{
    if ts.len() == 0 {
        Ok((seq![], seq![]))
    } else {
        match scan(ts.drop_last()) {
            Err(e) => Err(e),
            Ok((steps, depths)) => {
                let t = ts.last();
                let n = (ts.len() - 1) as usize;
                if is_deferred(t) {
                    Ok((steps, depths.push(None)))
                } else if steps.len() > 0 && indent_width(t) < steps[0] {
                    Err(NormalizationError::BelowFloor(n))
                } else {
                    match next_steps(steps, indent_width(t)) {
                        None => Err(NormalizationError::InconsistentDedent(n)),
                        Some(s) => Ok((s, depths.push(Some((s.len() - 1) as nat)))),
                    }
                }
            },
        }
    }
}

/// The depth that line `i` settles at: its own, or for a deferred line that
/// of the first ordinary line after it (0 if there is none).
pub open spec fn settled(fwd: Seq<Option<nat>>, i: int) -> nat
    decreases fwd.len() - i,
{
    if i < 0 || i >= fwd.len() {
        0
    } else {
        match fwd[i] {
            Some(d) => d,
            None => settled(fwd, i + 1),
        }
    }
}

/// A line's text once normalized: an ordinary line loses its leading
/// spaces and tabs, a deferred line keeps them.
pub open spec fn stripped(t: Seq<char>) -> Seq<char> {
    if is_deferred(t) {
        t
    } else {
        t.skip(indent_width(t) as int)
    }
}

/// The lines that the texts `ts` normalize to.
pub open spec fn normalize(ts: Seq<Seq<char>>) -> Result<Seq<LineView>, NormalizationError> {
    match scan(ts) {
        Err(e) => Err(e),
        Ok((_, fwd)) => Ok(
            Seq::new(ts.len(), |i: int| LineView { depth: settled(fwd, i), text: stripped(ts[i]) }),
        ),
    }
}


/// The columns of a stack, as numbers.
pub open spec fn column_view(s: Seq<usize>) -> Seq<nat> {
    s.map_values(|x: usize| x as nat)
}

/// The forward depths, as numbers.
pub open spec fn depth_view(s: Seq<Option<usize>>) -> Seq<Option<nat>> {
    s.map_values(
        |o: Option<usize>|
            match o {
                Some(d) => Some(d as nat),
                None => None,
            },
    )
}

/// A line that ends with a newline has fewer leading spaces and tabs than
/// characters.
pub proof fn lemma_indent_below_length(s: Seq<char>)
    requires
        newline_terminated(s),
    ensures
        indent_width(s) < s.len(),
    decreases s.len(),
{
    if s.len() > 0 && (s[0] == ' ' || s[0] == '\t') {
        assert(s.len() > 1);
        assert(s.drop_first().last() == s.last());
        lemma_indent_below_length(s.drop_first());
    }
}

/// Normalizing keeps every line ending with its newline.
pub proof fn lemma_normalize_keeps_newlines(ts: Seq<Seq<char>>)
    requires
        forall|i: int| 0 <= i < ts.len() ==> newline_terminated(#[trigger] ts[i]),
        normalize(ts) is Ok,
    ensures
        normalize(ts)->Ok_0.len() == ts.len(),
        forall|i: int|
            0 <= i < ts.len() ==> newline_terminated(#[trigger] normalize(ts)->Ok_0[i].text),
{
    assert forall|i: int| 0 <= i < ts.len() implies newline_terminated(
        #[trigger] normalize(ts)->Ok_0[i].text,
    ) by {
        assert(normalize(ts)->Ok_0[i].text == stripped(ts[i]));
        if !is_deferred(ts[i]) {
            lemma_indent_below_length(ts[i]);
            assert(ts[i].skip(indent_width(ts[i]) as int).last() == ts[i].last());
        }
    }
}

/// An error in the forward pass over a prefix of the lines is the error of
/// the whole pass.
pub(crate) proof fn lemma_scan_error_persists(ts: Seq<Seq<char>>, k: int)
    requires
        0 <= k <= ts.len(),
        scan(ts.take(k)) is Err,
    ensures
        scan(ts) == scan(ts.take(k)),
    decreases ts.len() - k,
{
    if k < ts.len() {
        assert(ts.take(k + 1).drop_last() =~= ts.take(k));
        lemma_scan_error_persists(ts, k + 1);
    } else {
        assert(ts.take(k) =~= ts);
    }
}

/// The count of spaces and tabs that `line` begins with.
pub fn get_indentation_level(line: &Vec<char>) -> (r: usize)
    ensures
        r == indent_width(line@),
        r <= line@.len(),
{
    let mut i: usize = 0;
    assert(line@.skip(0) =~= line@);
    while i < line.len() && (line[i] == ' ' || line[i] == '\t')
        invariant
            i <= line@.len(),
            indent_width(line@) == i + indent_width(line@.skip(i as int)),
        decreases line@.len() - i,
    {
        assert(line@.skip(i as int).drop_first() =~= line@.skip(i + 1));
        i = i + 1;
    }
    i
}

/// Whether a line with these characters is deferred.
pub fn is_deferred_text(line: &Vec<char>) -> (r: bool)
    ensures
        r == is_deferred(line@),
{
    let c = trimmed(line);
    assert(c@.skip(0) =~= c@);
    if c.len() == 0 {
        return true;
    }
    let marks: Vec<Vec<char>> = vec![
        vec!['/', '/'],
        vec!['#'],
        vec![';'],
        vec!['<', '<', '<', '<', '<', '<', '<'],
        vec!['>', '>', '>', '>', '>', '>', '>'],
        vec!['=', '=', '=', '=', '=', '=', '='],
        vec!['/', '*'],
        vec!['"', '"', '"'],
    ];
    assert(marks@[0]@ == seq!['/', '/']);
    assert(marks@[1]@ == seq!['#']);
    assert(marks@[2]@ == seq![';']);
    assert(marks@[3]@ == seq!['<', '<', '<', '<', '<', '<', '<']);
    assert(marks@[4]@ == seq!['>', '>', '>', '>', '>', '>', '>']);
    assert(marks@[5]@ == seq!['=', '=', '=', '=', '=', '=', '=']);
    assert(marks@[6]@ == seq!['/', '*']);
    assert(marks@[7]@ == seq!['"', '"', '"']);
    let mut k: usize = 0;
    while k < marks.len()
        invariant
            marks@.len() == 8,
            marks@[0]@ == seq!['/', '/'],
            marks@[1]@ == seq!['#'],
            marks@[2]@ == seq![';'],
            marks@[3]@ == seq!['<', '<', '<', '<', '<', '<', '<'],
            marks@[4]@ == seq!['>', '>', '>', '>', '>', '>', '>'],
            marks@[5]@ == seq!['=', '=', '=', '=', '=', '=', '='],
            marks@[6]@ == seq!['/', '*'],
            marks@[7]@ == seq!['"', '"', '"'],
            c@ == trim(line@),
            c@.len() > 0,
            c@.skip(0) == c@,
            forall|m: int| 0 <= m < k ==> !starts_with(c@, #[trigger] marks@[m]@),
        decreases marks@.len() - k,
    {
        if matches_at(&c, 0, &marks[k]) {
            assert(k == 0 || k == 1 || k == 2 || k == 3 || k == 4 || k == 5 || k == 6 || k == 7);
            return true;
        }
        k = k + 1;
    }
    false
}

/// Normalizes `lines`: each gets its depth, and an ordinary line loses its
/// leading spaces and tabs. The depths that `lines` hold are not read.
pub fn parse_indentation(lines: &Vec<Line>) -> (r: Result<Vec<Line>, NormalizationError>)
    ensures
        match r {
            Ok(v) => normalize(texts(views(lines@))) == Ok::<Seq<LineView>, NormalizationError>(
                views(v@),
            ),
            Err(e) => normalize(texts(views(lines@))) == Err::<Seq<LineView>, NormalizationError>(
                e,
            ),
        },
        r is Ok ==> r->Ok_0@.len() == lines@.len() && forall|i: int|
            0 <= i < lines@.len() ==> #[trigger] r->Ok_0@[i].indentation_level < lines@.len(),
{
    let ghost ts = texts(views(lines@));
    let n = lines.len();
    let mut steps: Vec<usize> = Vec::new();
    let mut fwd: Vec<Option<usize>> = Vec::new();
    let mut out: Vec<Line> = Vec::new();
    let mut i: usize = 0;
    assert(ts.take(0) =~= Seq::<Seq<char>>::empty());
    assert(column_view(steps@) =~= Seq::<nat>::empty());
    assert(depth_view(fwd@) =~= Seq::<Option<nat>>::empty());
    while i < n
        invariant
            n == lines@.len(),
            ts == texts(views(lines@)),
            i <= n,
            scan(ts.take(i as int)) == Ok::<(Seq<nat>, Seq<Option<nat>>), NormalizationError>(
                (column_view(steps@), depth_view(fwd@)),
            ),
            steps@.len() <= i,
            fwd@.len() == i,
            out@.len() == i,
            forall|k: int| 0 <= k < i ==> #[trigger] out@[k].text@ == stripped(ts[k]),
            forall|k: int|
                0 <= k < i ==> match #[trigger] fwd@[k] {
                    Some(d) => d < n,
                    None => true,
                },
        decreases n - i,
    {
        let ghost prev = ts.take(i as int);
        let ghost old_fv = depth_view(fwd@);
        assert(ts.take(i + 1).drop_last() =~= prev);
        assert(ts.take(i + 1).last() == ts[i as int]);
        assert(ts[i as int] == lines@[i as int].text@);
        let text = &lines[i].text;
        if is_deferred_text(text) {
            let copy = copy_range(text, 0, text.len());
            assert(copy@ =~= text@);
            out.push(Line { indentation_level: 0, text: copy });
            fwd.push(None);
            assert(depth_view(fwd@) =~= old_fv.push(None));
            assert(scan(ts.take(i + 1)) == Ok::<(Seq<nat>, Seq<Option<nat>>), NormalizationError>(
                (column_view(steps@), depth_view(fwd@)),
            ));
        } else {
            let col = get_indentation_level(text);
            if steps.len() > 0 && col < steps[0] {
                proof {
                    lemma_scan_error_persists(ts, i + 1);
                }
                return Err(NormalizationError::BelowFloor(i));
            }
            let ghost before = column_view(steps@);
            if steps.len() == 0 {
                steps.push(col);
                assert(column_view(steps@) =~= seq![col as nat]);
            } else if col > steps[steps.len() - 1] {
                steps.push(col);
                assert(column_view(steps@) =~= before.push(col as nat));
            } else {
                while steps.len() > 0 && steps[steps.len() - 1] != col
                    invariant
                        pop_to(before, col as nat) == pop_to(column_view(steps@), col as nat),
                        steps@.len() <= i,
                    decreases steps@.len(),
                {
                    let ghost cur = steps@;
                    steps.pop();
                    assert(column_view(steps@) =~= column_view(cur).drop_last());
                }
                if steps.len() == 0 {
                    proof {
                        lemma_scan_error_persists(ts, i + 1);
                    }
                    return Err(NormalizationError::InconsistentDedent(i));
                }
            }
            let depth = steps.len() - 1;
            let stripped_text = copy_range(text, col, text.len());
            out.push(Line { indentation_level: depth, text: stripped_text });
            fwd.push(Some(depth));
            assert(depth_view(fwd@) =~= old_fv.push(Some(depth as nat)));
            assert(next_steps(before, col as nat) == Some(column_view(steps@)));
            assert(scan(ts.take(i + 1)) == Ok::<(Seq<nat>, Seq<Option<nat>>), NormalizationError>(
                (column_view(steps@), depth_view(fwd@)),
            ));
        }
        i = i + 1;
    }
    assert(ts.take(n as int) =~= ts);
    let ghost fv = depth_view(fwd@);
    let mut prev: usize = 0;
    let mut j: usize = n;
    while j > 0
        invariant
            j <= n,
            n == lines@.len(),
            ts == texts(views(lines@)),
            fv == depth_view(fwd@),
            fwd@.len() == n,
            out@.len() == n,
            forall|k: int| 0 <= k < n ==> #[trigger] out@[k].text@ == stripped(ts[k]),
            forall|k: int| j <= k < n ==> #[trigger] out@[k].indentation_level == settled(fv, k),
            forall|k: int| j <= k < n ==> #[trigger] out@[k].indentation_level < n,
            prev == settled(fv, j as int),
            prev < n || prev == 0,
            forall|k: int|
                0 <= k < n ==> match #[trigger] fwd@[k] {
                    Some(d) => d < n,
                    None => true,
                },
        decreases j,
    {
        j = j - 1;
        let d = match fwd[j] {
            Some(d) => d,
            None => prev,
        };
        out[j].indentation_level = d;
        prev = d;
    }
    let ghost want = Seq::new(ts.len(), |k: int| LineView { depth: settled(fv, k), text: stripped(ts[k]) });
    assert(views(out@) =~= want);
    Ok(out)
}

} // verus!
