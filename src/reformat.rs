//! Derives depths from explicit begin and end marks, skipping marks inside
//! strings and comments.
//!
//! Each line is scanned for the marks, the comment delimiters and the quote
//! characters, leftmost first. Marks outside strings and comments change
//! the level by one each. A line whose trimmed text starts with the begin
//! mark and that opens more than it closes sits at the new level; any other
//! line sits at the level from before it. The level may go negative; a
//! depth is never less than 0.

use vstd::prelude::*;
use crate::line::{Line, LineView, views, texts};
use crate::text::{trim, starts_with, trimmed, matches_at, chars_of, same_chars, string_of};

verus! {

/// The kind of comment the scan is in.
#[derive(PartialEq, Eq, Structural, Debug, Clone, Copy)]
pub enum CommentType {
    /// From `//` or `#` to the end of the line.
    LineComment,
    /// From `/*` to `*/`, across lines.
    BlockComment,
}

/// Why a reformat is refused.
#[derive(PartialEq, Eq, Structural, Debug, Clone, Copy)]
pub enum ReformatError {
    /// A mark is empty.
    EmptyMark,
    /// The scan pattern for the marks could not be built.
    UnusableMark,
}

/// What the scan looks for, in order of preference at one position.
pub open spec fn scan_alternatives(b: Seq<char>, e: Seq<char>) -> Seq<Seq<char>> {
    seq![b, e, seq!['/', '/'], seq!['#'], seq!['/', '*'], seq!['*', '/'], seq!['"'], seq!['\'']]
}

/// The first alternative, from index `k` on, that `t` starts with.
pub open spec fn first_alt_from(alts: Seq<Seq<char>>, t: Seq<char>, k: int) -> Option<int>
    decreases alts.len() - k,
{
    if k < 0 || k >= alts.len() {
        None
    } else if alts[k].len() > 0 && starts_with(t, alts[k]) {
        Some(k)
    } else {
        first_alt_from(alts, t, k + 1)
    }
}

/// The successive non-overlapping matches of the alternatives in `t`, from
/// the left; where several match at one position, the first listed wins.
pub open spec fn tokens(alts: Seq<Seq<char>>, t: Seq<char>) -> Seq<Seq<char>>
    decreases t.len(),
{
    if t.len() == 0 {
        Seq::empty()
    } else {
        match first_alt_from(alts, t, 0) {
            Some(k) => if 0 <= k < alts.len() && 0 < alts[k].len() <= t.len() {
                seq![alts[k]] + tokens(alts, t.skip(alts[k].len() as int))
            } else {
                Seq::empty()
            },
            None => tokens(alts, t.drop_first()),
        }
    }
}

/// The views of a sequence of strings.
pub open spec fn string_views(v: Seq<String>) -> Seq<Seq<char>> {
    v.map_values(|s: String| s@)
}

/// Whether `regex::Regex::new` accepts the alternation of the escaped
/// `alternatives`. Escaped literals always form a valid expression, so this
/// fails only where the pattern is over the regex crate's fixed default size
/// limit: it depends on the alternatives alone.
pub uninterp spec fn pattern_accepted(alternatives: Seq<Seq<char>>) -> bool;

/// Relies on `regex::escape`, `regex::Regex::new` and
/// `regex::Regex::find_iter`. The pattern is built once, as the alternation
/// of the escaped literals; `Regex::new` refuses it only for its size. Such
/// an alternation matches exactly those literals, and `find_iter` yields its
/// successive non-overlapping matches from the left, preferring the
/// alternative written first at one position ("x|y: prefer x"). No
/// alternative is empty: an empty one would match everywhere.
#[verifier::external_body]
fn find_marks(texts: &Vec<String>, alternatives: &Vec<String>) -> (r: Option<Vec<Vec<String>>>)
    requires
        forall|i: int| 0 <= i < alternatives@.len() ==> #[trigger] alternatives@[i]@.len() > 0,
    ensures
        r is Some <==> pattern_accepted(string_views(alternatives@)),
        r is Some ==> r->0@.len() == texts@.len() && forall|i: int|
            0 <= i < texts@.len() ==> #[trigger] string_views(r->0@[i]@) == tokens(
                string_views(alternatives@),
                texts@[i]@,
            ),
{
    let pattern: Vec<String> = alternatives.iter().map(|a| regex::escape(a)).collect();
    let re = regex::Regex::new(&pattern.join("|")).ok()?;
    Some(texts.iter().map(|t| re.find_iter(t).map(|m| m.as_str().to_string()).collect()).collect())
}

/// The scan state within a line.
pub struct ScanState {
    pub quote: Option<char>,
    pub comment: Option<CommentType>,
    pub delta: int,
}

/// Whether `t` is a quote character.
pub open spec fn is_quote(t: Seq<char>) -> bool {
    t == seq!['"'] || t == seq!['\'']
}

/// Whether `t` is a comment delimiter.
pub open spec fn is_comment_token(t: Seq<char>) -> bool {
    t == seq!['/', '/'] || t == seq!['#'] || t == seq!['/', '*'] || t == seq!['*', '/']
}

/// The scan state after token `t`: a quote opens a string or closes the
/// one it opened, outside comments; a comment delimiter opens a comment, or
/// `*/` closes a block comment, outside strings; a mark outside both counts.
pub open spec fn token_step(s: ScanState, t: Seq<char>, b: Seq<char>, e: Seq<char>) -> ScanState {
    if is_quote(t) {
        if s.comment is None {
            match s.quote {
                Some(q) => if t == seq![q] {
                    ScanState { quote: None, ..s }
                } else {
                    s
                },
                None => ScanState { quote: Some(t[0]), ..s },
            }
        } else {
            s
        }
    } else if is_comment_token(t) {
        if s.quote is None {
            match s.comment {
                Some(CommentType::BlockComment) => if t == seq!['*', '/'] {
                    ScanState { comment: None, ..s }
                } else {
                    s
                },
                Some(CommentType::LineComment) => s,
                None => ScanState {
                    comment: Some(
                        if t == seq!['/', '*'] || t == seq!['*', '/'] {
                            CommentType::BlockComment
                        } else {
                            CommentType::LineComment
                        },
                    ),
                    ..s
                },
            }
        } else {
            s
        }
    } else if t == b {
        if s.quote is None && s.comment is None {
            ScanState { delta: s.delta + 1, ..s }
        } else {
            s
        }
    } else if t == e {
        if s.quote is None && s.comment is None {
            ScanState { delta: s.delta - 1, ..s }
        } else {
            s
        }
    } else {
        s
    }
}

/// The scan state after the tokens `ts`.
pub open spec fn tokens_step(s: ScanState, ts: Seq<Seq<char>>, b: Seq<char>, e: Seq<char>) -> ScanState
    decreases ts.len(),
{
    if ts.len() == 0 {
        s
    } else {
        token_step(tokens_step(s, ts.drop_last(), b, e), ts.last(), b, e)
    }
}

/// The state carried from line to line.
pub struct Carry {
    pub level: int,
    pub quote: Option<char>,
    pub comment: Option<CommentType>,
}

/// `x`, or 0 where it is negative.
pub open spec fn clamp0(x: int) -> nat {
    if x < 0 {
        0
    } else {
        x as nat
    }
}

/// The state after a line with text `text` and tokens `ts`, and the line's
/// depth. A line comment ends with its line.
pub open spec fn line_step(c: Carry, text: Seq<char>, ts: Seq<Seq<char>>, b: Seq<char>, e: Seq<char>) -> (Carry, nat) {
    let s = tokens_step(ScanState { quote: c.quote, comment: c.comment, delta: 0 }, ts, b, e);
    let level = c.level + s.delta;
    let depth = if s.delta > 0 && starts_with(trim(text), b) {
        clamp0(level)
    } else {
        clamp0(c.level)
    };
    let comment = match s.comment {
        Some(CommentType::LineComment) => None,
        other => other,
    };
    (Carry { level, quote: s.quote, comment }, depth)
}

/// The state after the lines `txt` with tokens `ts`, and their depths.
pub open spec fn reformat_run(txt: Seq<Seq<char>>, ts: Seq<Seq<Seq<char>>>, b: Seq<char>, e: Seq<char>) -> (Carry, Seq<nat>)
    decreases txt.len(),
{
    if txt.len() == 0 || ts.len() != txt.len() {
        (Carry { level: 0, quote: None, comment: None }, Seq::empty())
    } else {
        let (c, ds) = reformat_run(txt.drop_last(), ts.drop_last(), b, e);
        let (c2, d) = line_step(c, txt.last(), ts.last(), b, e);
        (c2, ds.push(d))
    }
}

/// The depths that reformatting lines with texts `txt` gives.
pub open spec fn reformatted_depths(txt: Seq<Seq<char>>, b: Seq<char>, e: Seq<char>) -> Seq<nat> {
    reformat_run(txt, Seq::new(txt.len(), |i: int| tokens(scan_alternatives(b, e), txt[i])), b, e).1
}

/// The number of tokens over all lines.
pub open spec fn token_total(ts: Seq<Seq<Seq<char>>>) -> nat
    decreases ts.len(),
{
    if ts.len() == 0 {
        0
    } else {
        token_total(ts.drop_last()) + ts.last().len()
    }
}

/// The views of per-line token strings.
pub open spec fn token_views(v: Seq<Vec<String>>) -> Seq<Seq<Seq<char>>> {
    v.map_values(|l: Vec<String>| string_views(l@))
}

/// The scan state after token `tok`, computed.
fn step_token(
    tok: &String,
    quote: &mut Option<char>,
    comment: &mut Option<CommentType>,
    delta: &mut i64,
    b: &Vec<char>,
    e: &Vec<char>,
    Ghost(bound): Ghost<int>,
)
    requires
        -bound <= *old(delta) <= bound,
        bound < i64::MAX,
    ensures
        ({
            let s = token_step(
                ScanState { quote: *old(quote), comment: *old(comment), delta: *old(delta) as int },
                tok@,
                b@,
                e@,
            );
            &&& *final(quote) == s.quote
            &&& *final(comment) == s.comment
            &&& *final(delta) as int == s.delta
        }),
        -bound - 1 <= *final(delta) <= bound + 1,
{
    let t = chars_of(tok.as_str());
    let dq = vec!['"'];
    let sq = vec!['\''];
    let ll = vec!['/', '/'];
    let hash = vec!['#'];
    let open_block = vec!['/', '*'];
    let close_block = vec!['*', '/'];
    assert(dq@ == seq!['"'] && sq@ == seq!['\''] && ll@ == seq!['/', '/'] && hash@ == seq!['#']);
    assert(open_block@ == seq!['/', '*'] && close_block@ == seq!['*', '/']);
    if same_chars(&t, &dq) || same_chars(&t, &sq) {
        if comment.is_none() {
            match *quote {
                Some(q) => {
                    if t.len() == 1 && t[0] == q {
                        assert(t@ =~= seq![q]);
                        *quote = None;
                    } else {
                        assert(t@ != seq![q]);
                    }
                },
                None => {
                    *quote = Some(t[0]);
                },
            }
        }
    } else if same_chars(&t, &ll) || same_chars(&t, &hash) || same_chars(&t, &open_block)
        || same_chars(&t, &close_block) {
        if quote.is_none() {
            match *comment {
                Some(CommentType::BlockComment) => {
                    if same_chars(&t, &close_block) {
                        *comment = None;
                    }
                },
                Some(CommentType::LineComment) => {},
                None => {
                    if same_chars(&t, &open_block) || same_chars(&t, &close_block) {
                        *comment = Some(CommentType::BlockComment);
                    } else {
                        *comment = Some(CommentType::LineComment);
                    }
                },
            }
        }
    } else if same_chars(&t, b) {
        if quote.is_none() && comment.is_none() {
            *delta = *delta + 1;
        }
    } else if same_chars(&t, e) {
        if quote.is_none() && comment.is_none() {
            *delta = *delta - 1;
        }
    }
}

proof fn lemma_token_total_push(ts: Seq<Seq<Seq<char>>>, i: int)
    requires
        0 <= i < ts.len(),
    ensures
        token_total(ts.take(i + 1)) == token_total(ts.take(i)) + ts[i].len(),
{
    assert(ts.take(i + 1).drop_last() =~= ts.take(i));
}

proof fn lemma_token_total_prefix(ts: Seq<Seq<Seq<char>>>, i: int)
    requires
        0 <= i <= ts.len(),
    ensures
        token_total(ts.take(i)) <= token_total(ts),
    decreases ts.len() - i,
{
    if i < ts.len() {
        lemma_token_total_push(ts, i);
        lemma_token_total_prefix(ts, i + 1);
    } else {
        assert(ts.take(i) =~= ts);
    }
}

/// The depths of lines with the given tokens per line, from the marks `b`
/// and `e`.
pub fn reformat_depths(
    lines: &Vec<Line>,
    line_tokens: &Vec<Vec<String>>,
    b: &Vec<char>,
    e: &Vec<char>,
) -> (r: Vec<usize>)
    requires
        line_tokens@.len() == lines@.len(),
        token_total(token_views(line_tokens@)) < i64::MAX,
        token_total(token_views(line_tokens@)) < usize::MAX,
    ensures
        r@.len() == lines@.len(),
        forall|i: int| 0 <= i < lines@.len() ==> #[trigger] r@[i] as nat == reformat_run(
            texts(views(lines@)),
            token_views(line_tokens@),
            b@,
            e@,
        ).1[i],
{
    let ghost txt = texts(views(lines@));
    let ghost ts = token_views(line_tokens@);
    let mut out: Vec<usize> = Vec::new();
    let mut level: i64 = 0;
    let mut quote: Option<char> = None;
    let mut comment: Option<CommentType> = None;
    let mut i: usize = 0;
    assert(txt.take(0) =~= Seq::<Seq<char>>::empty());
    assert(ts.take(0) =~= Seq::<Seq<Seq<char>>>::empty());
    while i < lines.len()
        invariant
            txt == texts(views(lines@)),
            ts == token_views(line_tokens@),
            line_tokens@.len() == lines@.len(),
            token_total(ts) < i64::MAX,
            token_total(ts) < usize::MAX,
            i <= lines@.len(),
            out@.len() == i,
            -token_total(ts.take(i as int)) <= level <= token_total(ts.take(i as int)),
            ({
                let (c, ds) = reformat_run(txt.take(i as int), ts.take(i as int), b@, e@);
                &&& c == Carry { level: level as int, quote, comment }
                &&& ds.len() == i
                &&& forall|k: int| 0 <= k < i ==> #[trigger] out@[k] as nat == ds[k]
            }),
        decreases lines@.len() - i,
    {
        proof {
            lemma_token_total_push(ts, i as int);
            lemma_token_total_prefix(ts, i + 1);
        }
        let ghost bound = token_total(ts.take(i as int));
        let ghost c0 = Carry { level: level as int, quote, comment };
        let toks = &line_tokens[i];
        let ghost tl = ts[i as int];
        assert(tl == string_views(toks@));
        let mut delta: i64 = 0;
        let mut j: usize = 0;
        assert(tl.take(0) =~= Seq::<Seq<char>>::empty());
        while j < toks.len()
            invariant
                tl == string_views(toks@),
                j <= toks@.len(),
                -(j as int) <= delta <= j,
                bound + tl.len() < i64::MAX,
                ({
                    let s = tokens_step(ScanState { quote: c0.quote, comment: c0.comment, delta: 0 }, tl.take(j as int), b@, e@);
                    &&& quote == s.quote
                    &&& comment == s.comment
                    &&& delta as int == s.delta
                }),
            decreases toks@.len() - j,
        {
            assert(tl.take(j + 1).drop_last() =~= tl.take(j as int));
            step_token(&toks[j], &mut quote, &mut comment, &mut delta, b, e, Ghost(j as int));
            j = j + 1;
        }
        assert(tl.take(tl.len() as int) =~= tl);
        let tr = trimmed(&lines[i].text);
        assert(tr@.skip(0) =~= tr@);
        assert(lines@[i as int].text@ == txt[i as int]);
        let new_level = level + delta;
        let opens = delta > 0 && matches_at(&tr, 0, b);
        let shown = if opens {
            new_level
        } else {
            level
        };
        let depth: usize = if shown < 0 {
            0
        } else {
            shown as usize
        };
        out.push(depth);
        level = new_level;
        comment = match comment {
            Some(CommentType::LineComment) => None,
            other => other,
        };
        proof {
            assert(txt.take(i + 1).drop_last() =~= txt.take(i as int));
            assert(ts.take(i + 1).drop_last() =~= ts.take(i as int));
        }
        i = i + 1;
    }
    assert(txt.take(lines@.len() as int) =~= txt);
    assert(ts.take(lines@.len() as int) =~= ts);
    out
}

/// The number of characters over all lines.
pub open spec fn total_len(ls: Seq<LineView>) -> nat
    decreases ls.len(),
{
    if ls.len() == 0 {
        0
    } else {
        total_len(ls.drop_last()) + ls.last().text.len()
    }
}

/// A line has no more tokens than characters.
proof fn lemma_tokens_len(alts: Seq<Seq<char>>, t: Seq<char>)
    ensures
        tokens(alts, t).len() <= t.len(),
    decreases t.len(),
{
    if t.len() > 0 {
        match first_alt_from(alts, t, 0) {
            Some(k) => {
                if 0 <= k < alts.len() && 0 < alts[k].len() <= t.len() {
                    lemma_tokens_len(alts, t.skip(alts[k].len() as int));
                }
            },
            None => {
                lemma_tokens_len(alts, t.drop_first());
            },
        }
    }
}

/// The scan alternatives for the marks `b` and `e`, as strings.
fn alternatives_for(b: &str, e: &str) -> (r: Vec<String>)
    ensures
        string_views(r@) == scan_alternatives(b@, e@),
{
    let mut r: Vec<String> = Vec::new();
    r.push(b.to_owned());
    r.push(e.to_owned());
    let v0 = vec!['/', '/'];
    let v1 = vec!['#'];
    let v2 = vec!['/', '*'];
    let v3 = vec!['*', '/'];
    let v4 = vec!['"'];
    let v5 = vec!['\''];
    assert(v0@ == seq!['/', '/'] && v1@ == seq!['#'] && v2@ == seq!['/', '*']);
    assert(v3@ == seq!['*', '/'] && v4@ == seq!['"'] && v5@ == seq!['\'']);
    r.push(string_of(v0.as_slice()));
    r.push(string_of(v1.as_slice()));
    r.push(string_of(v2.as_slice()));
    r.push(string_of(v3.as_slice()));
    r.push(string_of(v4.as_slice()));
    r.push(string_of(v5.as_slice()));
    assert(string_views(r@) =~= scan_alternatives(b@, e@));
    r
}

/// Lines with no more tokens than characters have no more tokens in all
/// than characters in all.
proof fn lemma_token_total_bound(ts: Seq<Seq<Seq<char>>>, ls: Seq<LineView>)
    requires
        ts.len() == ls.len(),
        forall|i: int| 0 <= i < ts.len() ==> #[trigger] ts[i].len() <= ls[i].text.len(),
    ensures
        token_total(ts) <= total_len(ls),
    decreases ts.len(),
{
    if ts.len() > 0 {
        lemma_token_total_bound(ts.drop_last(), ls.drop_last());
    }
}

/// The tokens of each line, from the marks `b` and `e`; `None` exactly where
/// the scan pattern cannot be built.
pub fn scan_lines(lines: &Vec<Line>, b: &str, e: &str) -> (r: Option<Vec<Vec<String>>>)
    requires
        b@.len() > 0,
        e@.len() > 0,
    ensures
        r is Some <==> pattern_accepted(scan_alternatives(b@, e@)),
        r is Some ==> r->0@.len() == lines@.len() && token_views(r->0@) == Seq::new(
            lines@.len(),
            |i: int| tokens(scan_alternatives(b@, e@), lines@[i].text@),
        ) && token_total(token_views(r->0@)) <= total_len(views(lines@)),
{
    let alts = alternatives_for(b, e);
    assert forall|k: int| 0 <= k < alts@.len() implies #[trigger] alts@[k]@.len() > 0 by {
        assert(alts@[k]@ == string_views(alts@)[k]);
        let a = scan_alternatives(b@, e@);
        assert(a.len() == 8);
        assert(k == 0 || k == 1 || k == 2 || k == 3 || k == 4 || k == 5 || k == 6 || k == 7);
        assert(a[2].len() == 2 && a[3].len() == 1 && a[4].len() == 2 && a[5].len() == 2);
        assert(a[6].len() == 1 && a[7].len() == 1);
    }
    let mut texts: Vec<String> = Vec::new();
    let mut i: usize = 0;
    while i < lines.len()
        invariant
            i <= lines@.len(),
            texts@.len() == i,
            forall|k: int| 0 <= k < i ==> #[trigger] texts@[k]@ == lines@[k].text@,
        decreases lines@.len() - i,
    {
        texts.push(string_of(lines[i].text.as_slice()));
        i = i + 1;
    }
    let found = find_marks(&texts, &alts);
    match found {
        None => None,
        Some(all) => {
            let ghost want = Seq::new(
                lines@.len(),
                |i: int| tokens(scan_alternatives(b@, e@), lines@[i].text@),
            );
            assert(token_views(all@) =~= want);
            proof {
                assert forall|k: int| 0 <= k < want.len() implies #[trigger] want[k].len()
                    <= views(lines@)[k].text.len() by {
                    lemma_tokens_len(scan_alternatives(b@, e@), lines@[k].text@);
                }
                lemma_token_total_bound(want, views(lines@));
            }
            Some(all)
        },
    }
}

} // verus!
