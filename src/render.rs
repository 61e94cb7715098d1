//! Turns lines back into flat text: four spaces per depth unit, then the
//! line's trimmed text and a newline.

use vstd::prelude::*;
use crate::line::{Line, LineView, views, newline_terminated};
use crate::text::{
    trim, trim_start, trim_end, trimmed, is_white, split_newlines, text_lines, without_cr,
    lemma_split_nonempty,
};
use crate::model::{load_texts, terminated};
use crate::normalize::{
    normalize, scan, settled, stripped, is_deferred, indent_width, next_steps, pop_to,
    lemma_scan_error_persists, lemma_indent_below_length,
};

verus! {

/// `n` spaces.
pub open spec fn spaces(n: nat) -> Seq<char> {
    Seq::new(n, |i: int| ' ')
}

/// A line as flat text. A line whose text is a lone character (the blank
/// placeholder) gets no indentation.
pub open spec fn render_line(l: LineView) -> Seq<char> {
    let prefix = if l.text.len() != 1 {
        spaces(4 * l.depth)
    } else {
        Seq::empty()
    };
    prefix + trim(l.text) + seq!['\n']
}

/// Lines as flat text, one after the other.
pub open spec fn render_lines(ls: Seq<LineView>) -> Seq<char>
    decreases ls.len(),
{
    if ls.len() == 0 {
        Seq::empty()
    } else {
        render_lines(ls.drop_last()) + render_line(ls.last())
    }
}

/// Appends the flat text of `line` to `out`.
fn push_rendered(out: &mut Vec<char>, line: &Line)
    ensures
        final(out)@ == old(out)@ + render_line(line@),
{
    let ghost base = out@;
    if line.text.len() != 1 {
        let mut k: usize = 0;
        while k < line.indentation_level
            invariant
                k <= line.indentation_level,
                out@ == base + spaces(4 * k as nat),
            decreases line.indentation_level - k,
        {
            out.push(' ');
            out.push(' ');
            out.push(' ');
            out.push(' ');
            k = k + 1;
            assert(out@ =~= base + spaces(4 * k as nat));
        }
    } else {
        assert(out@ =~= base + Seq::<char>::empty());
    }
    let ghost prefixed = out@;
    let mut t = trimmed(&line.text);
    out.append(&mut t);
    out.push('\n');
    assert(out@ =~= prefixed + trim(line.text@) + seq!['\n']);
}

/// The flat text of the lines `from` up to `to` (not included).
pub fn render_range(lines: &Vec<Line>, from: usize, to: usize) -> (r: Vec<char>)
    requires
        from <= to <= lines@.len(),
    ensures
        r@ == render_lines(views(lines@).subrange(from as int, to as int)),
{
    let ghost ls = views(lines@);
    let mut out: Vec<char> = Vec::new();
    let mut i: usize = from;
    assert(ls.subrange(from as int, from as int) =~= Seq::<LineView>::empty());
    while i < to
        invariant
            ls == views(lines@),
            from <= i <= to <= lines@.len(),
            out@ == render_lines(ls.subrange(from as int, i as int)),
        decreases to - i,
    {
        push_rendered(&mut out, &lines[i]);
        assert(ls.subrange(from as int, i + 1).drop_last() =~= ls.subrange(from as int, i as int));
        i = i + 1;
    }
    out
}

/// Whether every character of `w` is whitespace.
pub open spec fn all_white(w: Seq<char>) -> bool {
    forall|i: int| 0 <= i < w.len() ==> is_white(#[trigger] w[i])
}

proof fn lemma_trim_start_white_prefix(w: Seq<char>, y: Seq<char>)
    requires
        all_white(w),
    ensures
        trim_start(w + y) == trim_start(y),
    decreases w.len(),
{
    if w.len() > 0 {
        assert((w + y)[0] == w[0]);
        assert((w + y).drop_first() =~= w.drop_first() + y);
        lemma_trim_start_white_prefix(w.drop_first(), y);
    } else {
        assert(w + y =~= y);
    }
}

proof fn lemma_trim_end_white_suffix(y: Seq<char>, w: Seq<char>)
    requires
        all_white(w),
    ensures
        trim_end(y + w) == trim_end(y),
    decreases w.len(),
{
    if w.len() > 0 {
        assert((y + w).last() == w.last());
        assert((y + w).drop_last() =~= y + w.drop_last());
        lemma_trim_end_white_suffix(y, w.drop_last());
    } else {
        assert(y + w =~= y);
    }
}

proof fn lemma_trim_start_first(s: Seq<char>)
    ensures
        trim_start(s).len() > 0 ==> !is_white(trim_start(s)[0]),
    decreases s.len(),
{
    if s.len() > 0 && is_white(s[0]) {
        lemma_trim_start_first(s.drop_first());
    }
}

proof fn lemma_trim_end_prefix(y: Seq<char>)
    ensures
        trim_end(y).len() <= y.len(),
        trim_end(y) == y.take(trim_end(y).len() as int),
        trim_end(y).len() > 0 ==> !is_white(trim_end(y).last()),
    decreases y.len(),
{
    if y.len() > 0 && is_white(y.last()) {
        lemma_trim_end_prefix(y.drop_last());
        assert(y.drop_last().take(trim_end(y).len() as int) =~= y.take(trim_end(y).len() as int));
    } else {
        assert(y.take(y.len() as int) =~= y);
    }
}

/// A trimmed text is empty or starts and ends with a character that is not
/// whitespace.
proof fn lemma_trimmed_ends(s: Seq<char>)
    ensures
        trim(s).len() > 0 ==> !is_white(trim(s)[0]) && !is_white(trim(s).last()),
{
    lemma_trim_start_first(s);
    lemma_trim_end_prefix(trim_start(s));
    if trim(s).len() > 0 {
        assert(trim(s)[0] == trim_start(s)[0]);
    }
}

/// Indentation and a newline around a trimmed text trim away again.
proof fn lemma_trim_rendered(n: nat, x: Seq<char>, s: Seq<char>)
    requires
        x == trim(s),
    ensures
        trim(spaces(n) + x + seq!['\n']) == x,
{
    lemma_trimmed_ends(s);
    let nl = seq!['\n'];
    assert(spaces(n) + x + nl =~= spaces(n) + (x + nl));
    lemma_trim_start_white_prefix(spaces(n), x + nl);
    if x.len() > 0 {
        assert((x + nl)[0] == x[0]);
        assert(trim_start(x + nl) == x + nl);
        lemma_trim_end_white_suffix(x, nl);
        assert(trim_end(x) == x);
    } else {
        assert(x + nl =~= nl);
        assert(nl.drop_first() =~= Seq::<char>::empty());
        assert(trim_start(nl) == trim_start(Seq::<char>::empty()));
    }
}

proof fn lemma_indent_of_spaces(n: nat, y: Seq<char>)
    ensures
        indent_width(spaces(n) + y) == n + indent_width(y),
    decreases n,
{
    if n > 0 {
        assert((spaces(n) + y)[0] == ' ');
        assert((spaces(n) + y).drop_first() =~= spaces((n - 1) as nat) + y);
        lemma_indent_of_spaces((n - 1) as nat, y);
    } else {
        assert(spaces(n) + y =~= y);
    }
}

proof fn lemma_indent_all_white(s: Seq<char>)
    ensures
        indent_width(s) <= s.len(),
        all_white(s.take(indent_width(s) as int)),
        indent_width(s) < s.len() ==> s[indent_width(s) as int] != ' ' && s[indent_width(s) as int] != '\t',
    decreases s.len(),
{
    if s.len() > 0 && (s[0] == ' ' || s[0] == '\t') {
        lemma_indent_all_white(s.drop_first());
        let w = indent_width(s) as int;
        assert forall|i: int| 0 <= i < w implies is_white(#[trigger] s.take(w)[i]) by {
            if i > 0 {
                assert(s.take(w)[i] == s.drop_first().take(w - 1)[i - 1]);
            }
        }
        if w < s.len() {
            assert(s[w] == s.drop_first()[w - 1]);
        }
    }
}

/// Leading spaces and tabs taken away leave the trimmed text as it was.
proof fn lemma_trim_stripped(t: Seq<char>)
    ensures
        trim(stripped(t)) == trim(t),
{
    if !is_deferred(t) {
        let w = indent_width(t) as int;
        lemma_indent_all_white(t);
        assert(t =~= t.take(w) + t.skip(w));
        lemma_trim_start_white_prefix(t.take(w), t.skip(w));
    }
}

/// The multiples of four below `4 * n`, in order.
pub open spec fn fours(n: nat) -> Seq<nat> {
    Seq::new(n, |m: int| (4 * m) as nat)
}

proof fn lemma_pop_to_prefix(s: Seq<nat>, c: nat)
    ensures
        pop_to(s, c) is Some ==> ({
            let r = pop_to(s, c)->0;
            1 <= r.len() <= s.len() && r == s.take(r.len() as int)
        }),
    decreases s.len(),
{
    if s.len() > 0 && s.last() != c {
        lemma_pop_to_prefix(s.drop_last(), c);
        if pop_to(s, c) is Some {
            let r = pop_to(s, c)->0;
            assert(s.drop_last().take(r.len() as int) =~= s.take(r.len() as int));
        }
    } else if s.len() > 0 {
        assert(s.take(s.len() as int) =~= s);
    }
}

proof fn lemma_pop_fours(n: nat, m: nat)
    requires
        m < n,
    ensures
        pop_to(fours(n), 4 * m) == Some(fours(m + 1)),
    decreases n,
{
    if m + 1 == n {
        assert(fours(n).last() == 4 * m);
    } else {
        assert(fours(n).drop_last() =~= fours((n - 1) as nat));
        lemma_pop_fours((n - 1) as nat, m);
    }
}

proof fn lemma_scan_prefix(ts: Seq<Seq<char>>, k: int)
    requires
        0 <= k <= ts.len(),
        scan(ts) is Ok,
    ensures
        scan(ts.take(k)) is Ok,
        scan(ts.take(k))->Ok_0.1 == scan(ts)->Ok_0.1.take(k),
        scan(ts)->Ok_0.1.len() == ts.len(),
    decreases ts.len() - k,
{
    if scan(ts.take(k)) is Err {
        lemma_scan_error_persists(ts, k);
    }
    lemma_scan_length(ts);
    if k < ts.len() {
        lemma_scan_prefix(ts, k + 1);
        assert(ts.take(k + 1).drop_last() =~= ts.take(k));
        assert(scan(ts)->Ok_0.1.take(k + 1).drop_last() =~= scan(ts)->Ok_0.1.take(k));
    } else {
        assert(ts.take(k) =~= ts);
        assert(scan(ts)->Ok_0.1.take(k) =~= scan(ts)->Ok_0.1);
    }
}

proof fn lemma_scan_length(ts: Seq<Seq<char>>)
    ensures
        scan(ts) is Ok ==> scan(ts)->Ok_0.1.len() == ts.len(),
    decreases ts.len(),
{
    if ts.len() > 0 {
        lemma_scan_length(ts.drop_last());
    }
}

/// The forward scans of the texts and of their renderings agree: the same
/// lines are deferred, ordinary lines get the same depths, and the stack of
/// the rendering holds the multiples of four.
proof fn lemma_scan_rendered(ts: Seq<Seq<char>>, rs: Seq<Seq<char>>, k: int)
    requires
        0 <= k <= ts.len(),
        rs.len() == ts.len(),
        scan(ts) is Ok,
        forall|i: int| 0 <= i < ts.len() ==> is_deferred(#[trigger] rs[i]) == is_deferred(ts[i]),
        forall|i: int|
            0 <= i < ts.len() && !is_deferred(#[trigger] ts[i]) ==> indent_width(rs[i]) == 4
                * scan(ts)->Ok_0.1[i]->0,
    ensures
        scan(ts.take(k)) is Ok,
        scan(rs.take(k)) == Ok::<(Seq<nat>, Seq<Option<nat>>), crate::normalize::NormalizationError>(
            (fours(scan(ts.take(k))->Ok_0.0.len()), scan(ts.take(k))->Ok_0.1),
        ),
    decreases k,
{
    lemma_scan_prefix(ts, k);
    if k == 0 {
        assert(rs.take(0) =~= Seq::<Seq<char>>::empty());
        assert(ts.take(0) =~= Seq::<Seq<char>>::empty());
        assert(fours(0) =~= Seq::<nat>::empty());
    } else {
        lemma_scan_rendered(ts, rs, k - 1);
        lemma_scan_prefix(ts, k - 1);
        let i = k - 1;
        assert(ts.take(k).drop_last() =~= ts.take(i));
        assert(rs.take(k).drop_last() =~= rs.take(i));
        assert(ts.take(k).last() == ts[i]);
        assert(rs.take(k).last() == rs[i]);
        let (st1, f1) = scan(ts.take(i))->Ok_0;
        let l = st1.len();
        assert(is_deferred(rs[i]) == is_deferred(ts[i]));
        if !is_deferred(ts[i]) {
            let c = indent_width(ts[i]);
            let full = scan(ts)->Ok_0.1;
            assert(scan(ts.take(k))->Ok_0.1 == full.take(k));
            assert(full.take(k)[i] == full[i]);
            let s1 = next_steps(st1, c)->0;
            assert(full[i] == Some((s1.len() - 1) as nat));
            let d = (s1.len() - 1) as nat;
            assert(indent_width(rs[i]) == 4 * d);
            if l == 0 {
                assert(s1 == seq![c]);
                assert(fours(1) =~= seq![0nat]);
                assert(next_steps(fours(0), 0) == Some(seq![0nat]));
            } else if c > st1.last() {
                assert(s1 == st1.push(c));
                assert(fours(l).last() == 4 * (l - 1));
                assert(fours(l).push(4 * l) =~= fours(l + 1));
            } else {
                lemma_pop_to_prefix(st1, c);
                assert(s1.len() <= l);
                lemma_pop_fours(l, d);
                assert(fours(l).last() == 4 * (l - 1));
            }
        }
    }
}

/// Rendering normalized lines and normalizing the rendering again gives
/// every line the depth it had: the block structure survives a save and a
/// load, while the width of the indentation becomes four spaces per level.
pub proof fn lemma_render_round_trip(ts: Seq<Seq<char>>)
    requires
        forall|i: int| 0 <= i < ts.len() ==> newline_terminated(#[trigger] ts[i]),
        normalize(ts) is Ok,
    ensures
        ({
            let ls = normalize(ts)->Ok_0;
            let again = normalize(ls.map_values(|l: LineView| render_line(l)));
            &&& again is Ok
            &&& again->Ok_0.len() == ls.len()
            &&& forall|i: int| 0 <= i < ls.len() ==> #[trigger] again->Ok_0[i].depth == ls[i].depth
        }),
{
    let ls = normalize(ts)->Ok_0;
    let rs = ls.map_values(|l: LineView| render_line(l));
    let fwd = scan(ts)->Ok_0.1;
    lemma_scan_length(ts);
    assert forall|i: int| 0 <= i < ts.len() implies is_deferred(#[trigger] rs[i]) == is_deferred(ts[i])
        && (!is_deferred(ts[i]) ==> indent_width(rs[i]) == 4 * fwd[i]->0) by {
        let t = ts[i];
        let l = ls[i];
        assert(l.text == stripped(t));
        lemma_trim_stripped(t);
        let x = trim(l.text);
        let n: nat = if l.text.len() != 1 { 4 * l.depth } else { 0 };
        assert(spaces(0) =~= Seq::<char>::empty());
        assert(rs[i] == spaces(n) + x + seq!['\n']);
        lemma_trim_rendered(n, x, l.text);
        assert(trim(rs[i]) == trim(t));
        assert(is_deferred(rs[i]) == is_deferred(t));
        if !is_deferred(t) {
            lemma_trimmed_ends(l.text);
            assert(x.len() > 0);
            lemma_indent_below_length(t);
            if l.text.len() == 1 {
                assert(l.text.last() == t.last());
                assert(l.text =~= seq!['\n']);
                assert(seq!['\n'].drop_first() =~= Seq::<char>::empty());
                assert(trim_start(l.text) == trim_start(Seq::<char>::empty()));
            }
            lemma_scan_prefix(ts, i + 1);
            lemma_scan_prefix(ts, i);
            assert(ts.take(i + 1).drop_last() =~= ts.take(i));
            assert(ts.take(i + 1).last() == ts[i]);
            assert(fwd.take(i + 1)[i] == fwd[i]);
            assert(fwd[i] is Some);
            assert(l.depth == settled(fwd, i));
            assert(l.depth == fwd[i]->0);
            assert(spaces(n) + x + seq!['\n'] =~= spaces(n) + (x + seq!['\n']));
            lemma_indent_of_spaces(n, x + seq!['\n']);
            assert((x + seq!['\n'])[0] == x[0]);
        }
    }
    lemma_scan_rendered(ts, rs, ts.len() as int);
    assert(ts.take(ts.len() as int) =~= ts);
    assert(rs.take(rs.len() as int) =~= rs);
}

/// Whether `t` is one line's text: a newline last and nowhere else.
pub open spec fn single_line(t: Seq<char>) -> bool {
    newline_terminated(t) && forall|k: int| 0 <= k < t.len() - 1 ==> t[k] != '\n'
}

/// Whether `t` holds no newline.
pub open spec fn newline_free(t: Seq<char>) -> bool {
    forall|k: int| 0 <= k < t.len() ==> t[k] != '\n'
}

/// A line as flat text without its final newline.
pub open spec fn render_body(l: LineView) -> Seq<char> {
    let prefix = if l.text.len() != 1 {
        spaces(4 * l.depth)
    } else {
        Seq::empty()
    };
    prefix + trim(l.text)
}

proof fn lemma_split_pieces_free(s: Seq<char>)
    ensures
        forall|i: int| 0 <= i < split_newlines(s).len() ==> newline_free(#[trigger] split_newlines(s)[i]),
    decreases s.len(),
{
    lemma_split_nonempty(s);
    if s.len() > 0 {
        lemma_split_pieces_free(s.drop_last());
        lemma_split_nonempty(s.drop_last());
        let r = split_newlines(s.drop_last());
        if s.last() != '\n' {
            assert forall|i: int| 0 <= i < split_newlines(s).len() implies newline_free(
                #[trigger] split_newlines(s)[i],
            ) by {
                if i == r.len() - 1 {
                    assert(newline_free(r[i]));
                    assert forall|k: int| 0 <= k < r[i].push(s.last()).len() implies r[i].push(s.last())[k] != '\n' by {
                        if k < r[i].len() {
                            assert(r[i].push(s.last())[k] == r[i][k]);
                        }
                    }
                } else {
                    assert(split_newlines(s)[i] == r[i]);
                }
            }
        } else {
            assert forall|i: int| 0 <= i < split_newlines(s).len() implies newline_free(
                #[trigger] split_newlines(s)[i],
            ) by {
                if i < r.len() {
                    assert(split_newlines(s)[i] == r[i]);
                }
            }
        }
    }
}

/// The texts that `load` normalizes are single lines.
proof fn lemma_load_texts_single(s: Seq<char>)
    ensures
        forall|i: int| 0 <= i < load_texts(s).len() ==> single_line(#[trigger] load_texts(s)[i]),
{
    lemma_split_pieces_free(s);
    lemma_split_nonempty(s);
    let p = split_newlines(s);
    let tl = text_lines(s);
    assert forall|i: int| 0 <= i < tl.len() implies newline_free(#[trigger] tl[i]) by {
        if i < p.len() - 1 {
            assert(newline_free(p[i]));
            let w = without_cr(p[i]);
            assert forall|k: int| 0 <= k < w.len() implies w[k] != '\n' by {
                assert(w[k] == p[i][k]);
            }
        } else {
            assert(tl[i] == p.last());
            assert(newline_free(p[p.len() - 1]));
        }
    }
    assert forall|i: int| 0 <= i < load_texts(s).len() implies single_line(#[trigger] load_texts(s)[i]) by {
        if tl.len() == 0 {
            assert(load_texts(s)[i] == seq!['\n']);
        } else {
            let t = load_texts(s)[i];
            assert(t == tl[i].push('\n'));
            assert(newline_free(tl[i]));
            assert forall|k: int| 0 <= k < t.len() - 1 implies t[k] != '\n' by {
                assert(t[k] == tl[i][k]);
            }
        }
    }
}

proof fn lemma_trim_start_skip(s: Seq<char>)
    ensures
        trim_start(s).len() <= s.len(),
        trim_start(s) == s.skip(s.len() - trim_start(s).len()),
    decreases s.len(),
{
    if s.len() > 0 && is_white(s[0]) {
        lemma_trim_start_skip(s.drop_first());
        assert(s.drop_first().skip(s.len() - 1 - trim_start(s).len()) =~= s.skip(
            s.len() - trim_start(s).len(),
        ));
    } else {
        assert(s.skip(0) =~= s);
    }
}

/// A single line's trimmed text holds no newline and does not end with a
/// carriage return.
proof fn lemma_trim_single(t: Seq<char>)
    requires
        single_line(t),
    ensures
        newline_free(trim(t)),
        trim(t).len() > 0 ==> trim(t).last() != '\r',
{
    lemma_trimmed_ends(t);
    lemma_trim_start_skip(t);
    let k = t.len() - trim_start(t).len();
    lemma_trim_end_prefix(trim_start(t));
    let x = trim(t);
    assert(x == t.skip(k).take(x.len() as int));
    if x.len() > 0 {
        assert(x.last() == t[k + x.len() - 1]);
        assert(k + x.len() - 1 < t.len() - 1) by {
            if k + x.len() - 1 == t.len() - 1 {
                assert(t[k + x.len() - 1] == t.last());
            }
        }
    }
    assert forall|m: int| 0 <= m < x.len() implies x[m] != '\n' by {
        assert(x[m] == t[k + m]);
        assert(k + m <= k + x.len() - 1);
    }
}

proof fn lemma_split_append_free(s: Seq<char>, q: Seq<char>)
    requires
        newline_free(q),
    ensures
        split_newlines(s + q) == split_newlines(s).update(
            split_newlines(s).len() - 1,
            split_newlines(s).last() + q,
        ),
    decreases q.len(),
{
    lemma_split_nonempty(s);
    if q.len() == 0 {
        assert(s + q =~= s);
        assert(split_newlines(s).last() + q =~= split_newlines(s).last());
        assert(split_newlines(s).update(split_newlines(s).len() - 1, split_newlines(s).last())
            =~= split_newlines(s));
    } else {
        let q2 = q.drop_last();
        assert(newline_free(q2)) by {
            assert forall|k: int| 0 <= k < q2.len() implies q2[k] != '\n' by {
                assert(q2[k] == q[k]);
            }
        }
        lemma_split_append_free(s, q2);
        assert((s + q).drop_last() =~= s + q2);
        assert((s + q).last() == q.last());
        assert(q.last() != '\n');
        lemma_split_nonempty(s + q2);
        let r = split_newlines(s);
        assert(split_newlines(s + q) =~= r.update(r.len() - 1, r.last() + q)) by {
            assert((r.last() + q2).push(q.last()) =~= r.last() + q);
        }
    }
}

/// The pieces between the newlines of rendered lines are the lines' bodies,
/// then the empty piece after the final newline.
proof fn lemma_split_rendered(ls: Seq<LineView>)
    requires
        forall|i: int| 0 <= i < ls.len() ==> newline_free(#[trigger] render_body(ls[i])),
    ensures
        split_newlines(render_lines(ls)) == ls.map_values(|l: LineView| render_body(l)).push(
            Seq::empty(),
        ),
    decreases ls.len(),
{
    if ls.len() == 0 {
        assert(ls.map_values(|l: LineView| render_body(l)) =~= Seq::<Seq<char>>::empty());
        assert(split_newlines(Seq::<char>::empty()) =~= seq![Seq::<char>::empty()]);
    } else {
        let prev = ls.drop_last();
        assert forall|i: int| 0 <= i < prev.len() implies newline_free(#[trigger] render_body(prev[i])) by {
            assert(prev[i] == ls[i]);
        }
        lemma_split_rendered(prev);
        let body = render_body(ls.last());
        assert(newline_free(body)) by {
            assert(ls.last() == ls[ls.len() - 1]);
        }
        let r = render_lines(prev);
        assert(render_line(ls.last()) =~= body + seq!['\n']);
        assert(render_lines(ls) =~= (r + body) + seq!['\n']);
        lemma_split_append_free(r, body);
        assert(((r + body) + seq!['\n']).drop_last() =~= r + body);
        let bodies = prev.map_values(|l: LineView| render_body(l));
        assert(bodies.push(Seq::empty()).update(bodies.len() as int, Seq::<char>::empty() + body) =~= bodies.push(body));
        assert(ls.map_values(|l: LineView| render_body(l)) =~= bodies.push(body));
    }
}

/// Loading the flat text that lines render to gives back the rendered lines,
/// each with its newline, where every line is a single line.
proof fn lemma_load_texts_rendered(ls: Seq<LineView>)
    requires
        ls.len() > 0,
        forall|i: int| 0 <= i < ls.len() ==> single_line(#[trigger] ls[i].text),
    ensures
        load_texts(render_lines(ls)) == ls.map_values(|l: LineView| render_line(l)),
{
    assert forall|i: int| 0 <= i < ls.len() implies newline_free(#[trigger] render_body(ls[i]))
        && (render_body(ls[i]).len() > 0 ==> render_body(ls[i]).last() != '\r') by {
        let l = ls[i];
        lemma_trim_single(l.text);
        let n: nat = if l.text.len() != 1 { 4 * l.depth } else { 0 };
        assert(spaces(0) =~= Seq::<char>::empty());
        let b = render_body(l);
        assert(b == spaces(n) + trim(l.text));
        assert forall|k: int| 0 <= k < b.len() implies b[k] != '\n' by {
            if k >= n {
                assert(b[k] == trim(l.text)[k - n]);
            }
        }
        if trim(l.text).len() == 0 && b.len() > 0 {
            assert(b.last() == ' ');
        }
    }
    lemma_split_rendered(ls);
    let bodies = ls.map_values(|l: LineView| render_body(l));
    let p = bodies.push(Seq::empty());
    assert(text_lines(render_lines(ls)) =~= bodies) by {
        assert forall|i: int| 0 <= i < bodies.len() implies without_cr(p[i]) == bodies[i] by {
            assert(p[i] == render_body(ls[i]));
        }
    }
    assert(terminated(bodies) =~= ls.map_values(|l: LineView| render_line(l))) by {
        assert forall|i: int| 0 <= i < ls.len() implies #[trigger] terminated(bodies)[i]
            == render_line(ls[i]) by {
            assert(render_line(ls[i]) =~= render_body(ls[i]).push('\n'));
        }
    }
}

/// Normalizing keeps single lines single.
proof fn lemma_normalize_single(ts: Seq<Seq<char>>)
    requires
        forall|i: int| 0 <= i < ts.len() ==> single_line(#[trigger] ts[i]),
        normalize(ts) is Ok,
    ensures
        forall|i: int| 0 <= i < ts.len() ==> single_line(#[trigger] normalize(ts)->Ok_0[i].text),
{
    assert forall|i: int| 0 <= i < ts.len() implies single_line(#[trigger] normalize(ts)->Ok_0[i].text) by {
        let t = ts[i];
        assert(normalize(ts)->Ok_0[i].text == stripped(t));
        if !is_deferred(t) {
            lemma_indent_below_length(t);
            let w = indent_width(t) as int;
            let u = t.skip(w);
            assert(u.last() == t.last());
            assert forall|k: int| 0 <= k < u.len() - 1 implies u[k] != '\n' by {
                assert(u[k] == t[k + w]);
            }
        }
    }
}

/// Saving and loading again keeps the block structure: where a text loads,
/// the flat text of its lines loads too, into as many lines with the same
/// depths; only the width of the indentation becomes four spaces per level.
pub proof fn lemma_save_load_round_trip(s: Seq<char>)
    requires
        normalize(load_texts(s)) is Ok,
    ensures
        ({
            let ls = normalize(load_texts(s))->Ok_0;
            let again = normalize(load_texts(render_lines(ls)));
            &&& again is Ok
            &&& again->Ok_0.len() == ls.len()
            &&& forall|i: int| 0 <= i < ls.len() ==> #[trigger] again->Ok_0[i].depth == ls[i].depth
        }),
{
    let ts = load_texts(s);
    lemma_load_texts_single(s);
    lemma_normalize_single(ts);
    let ls = normalize(ts)->Ok_0;
    assert(ts.len() > 0);
    lemma_load_texts_rendered(ls);
    lemma_render_round_trip(ts);
}

} // verus!
