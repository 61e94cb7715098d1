//! Characters, strings and the whitespace rules shared by the other modules.

use vstd::prelude::*;

verus! {

broadcast use vstd::string::group_string_axioms;

/// Copies the characters of a string into a vector, in order.
pub fn chars_of(s: &str) -> (r: Vec<char>)
    ensures
        r@ == s@,
{
    let mut v: Vec<char> = Vec::new();
    for c in iter: s.chars()
        invariant
            v@ == iter.seq().take(iter.index() as int),
            iter.seq() == s@,
    {
        v.push(c);
    }
    v
}


/// Whether `c` has the Unicode White_Space property, the set that
/// `str::trim` strips.
pub open spec fn is_white(c: char) -> bool {
    let n = c as u32;
    n == 0x20 || (0x9 <= n <= 0xd) || n == 0x85 || n == 0xa0 || n == 0x1680 || (0x2000 <= n
        <= 0x200a) || n == 0x2028 || n == 0x2029 || n == 0x202f || n == 0x205f || n == 0x3000
}

/// `s` without its leading whitespace.
pub open spec fn trim_start(s: Seq<char>) -> Seq<char>
    decreases s.len(),
{
    if s.len() > 0 && is_white(s[0]) {
        trim_start(s.drop_first())
    } else {
        s
    }
}

/// `s` without its trailing whitespace.
pub open spec fn trim_end(s: Seq<char>) -> Seq<char>
    decreases s.len(),
{
    if s.len() > 0 && is_white(s.last()) {
        trim_end(s.drop_last())
    } else {
        s
    }
}

/// `s` without whitespace at either end.
pub open spec fn trim(s: Seq<char>) -> Seq<char> {
    trim_end(trim_start(s))
}

/// Whether `s` begins with `p`.
pub open spec fn starts_with(s: Seq<char>, p: Seq<char>) -> bool {
    p.len() <= s.len() && s.take(p.len() as int) == p
}

pub fn is_white_char(c: char) -> (r: bool)
    ensures
        r == is_white(c),
{
    let n = c as u32;
    n == 0x20 || (0x9 <= n && n <= 0xd) || n == 0x85 || n == 0xa0 || n == 0x1680 || (0x2000 <= n
        && n <= 0x200a) || n == 0x2028 || n == 0x2029 || n == 0x202f || n == 0x205f || n == 0x3000
}

/// The index of the first character of `s` that is not whitespace, or its
/// length.
pub fn trim_start_index(s: &Vec<char>) -> (r: usize)
    ensures
        r <= s@.len(),
        trim_start(s@) == s@.skip(r as int),
{
    let mut i: usize = 0;
    assert(s@.skip(0) =~= s@);
    while i < s.len() && is_white_char(s[i])
        invariant
            i <= s@.len(),
            trim_start(s@) == trim_start(s@.skip(i as int)),
        decreases s@.len() - i,
    {
        assert(s@.skip(i as int).drop_first() =~= s@.skip(i + 1));
        i = i + 1;
    }
    i
}

/// The length of `s` without its trailing whitespace.
pub fn trim_end_index(s: &Vec<char>) -> (r: usize)
    ensures
        r <= s@.len(),
        trim_end(s@) == s@.take(r as int),
{
    let mut k: usize = s.len();
    assert(s@.take(k as int) =~= s@);
    while k > 0 && is_white_char(s[k - 1])
        invariant
            k <= s@.len(),
            trim_end(s@) == trim_end(s@.take(k as int)),
        decreases k,
    {
        assert(s@.take(k as int).drop_last() =~= s@.take(k - 1));
        k = k - 1;
    }
    k
}

/// Whether `s`, from index `at` on, begins with `p`.
pub fn matches_at(s: &Vec<char>, at: usize, p: &Vec<char>) -> (r: bool)
    requires
        at <= s@.len(),
    ensures
        r == starts_with(s@.skip(at as int), p@),
{
    if p.len() > s.len() - at {
        return false;
    }
    let mut j: usize = 0;
    while j < p.len()
        invariant
            j <= p@.len(),
            at + p@.len() <= s@.len(),
            s@.len() <= usize::MAX,
            forall|k: int| 0 <= k < j ==> s@[at + k] == p@[k],
        decreases p@.len() - j,
    {
        if s[at + j] != p[j] {
            return false;
        }
        j = j + 1;
    }
    assert(s@.skip(at as int).take(p@.len() as int) =~= p@);
    true
}

/// The characters of `s` from index `from` up to `to`, copied.
pub fn copy_range(s: &Vec<char>, from: usize, to: usize) -> (r: Vec<char>)
    requires
        from <= to <= s@.len(),
    ensures
        r@ == s@.subrange(from as int, to as int),
{
    let mut r: Vec<char> = Vec::new();
    let mut i: usize = from;
    while i < to
        invariant
            from <= i <= to <= s@.len(),
            r@ == s@.subrange(from as int, i as int),
        decreases to - i,
    {
        r.push(s[i]);
        i = i + 1;
    }
    r
}

/// The characters of `s` without whitespace at either end.
pub fn trimmed(s: &Vec<char>) -> (r: Vec<char>)
    ensures
        r@ == trim(s@),
{
    let i = trim_start_index(s);
    let rest = copy_range(s, i, s.len());
    let k = trim_end_index(&rest);
    copy_range(&rest, 0, k)
}

/// The pieces of `s` between newlines; there is one more piece than there
/// are newlines.
pub open spec fn split_newlines(s: Seq<char>) -> Seq<Seq<char>>
    decreases s.len(),
{
    if s.len() == 0 {
        seq![Seq::empty()]
    } else {
        let r = split_newlines(s.drop_last());
        if s.last() == '\n' {
            r.push(Seq::empty())
        } else {
            r.update(r.len() - 1, r.last().push(s.last()))
        }
    }
}

/// A piece that a newline ended, without the carriage return before it.
pub open spec fn without_cr(p: Seq<char>) -> Seq<char> {
    if p.len() > 0 && p.last() == '\r' {
        p.drop_last()
    } else {
        p
    }
}

/// The lines of `s` in the sense of `str::lines`: split at each newline,
/// a carriage return right before a newline dropped, and no empty last line
/// after a final newline.
pub open spec fn text_lines(s: Seq<char>) -> Seq<Seq<char>> {
    let p = split_newlines(s);
    let ended = Seq::new((p.len() - 1) as nat, |i: int| without_cr(p[i]));
    if p.last().len() == 0 {
        ended
    } else {
        ended.push(p.last())
    }
}

/// `s` without any carriage return.
pub open spec fn drop_cr(s: Seq<char>) -> Seq<char>
    decreases s.len(),
{
    if s.len() == 0 {
        s
    } else if s.last() == '\r' {
        drop_cr(s.drop_last())
    } else {
        drop_cr(s.drop_last()).push(s.last())
    }
}

/// Whether `s` holds a newline.
pub open spec fn has_newline(s: Seq<char>) -> bool {
    exists|i: int| 0 <= i < s.len() && s[i] == '\n'
}

/// The views of a sequence of character vectors.
pub open spec fn char_views(v: Seq<Vec<char>>) -> Seq<Seq<char>> {
    v.map_values(|x: Vec<char>| x@)
}

pub(crate) proof fn lemma_split_nonempty(s: Seq<char>)
    ensures
        split_newlines(s).len() >= 1,
        split_newlines(s).len() <= s.len() + 1,
    decreases s.len(),
{
    if s.len() > 0 {
        lemma_split_nonempty(s.drop_last());
    }
}

/// The pieces of `s` between newlines.
pub fn split_on_newlines(s: &Vec<char>) -> (r: Vec<Vec<char>>)
    ensures
        char_views(r@) == split_newlines(s@),
        r@.len() <= s@.len() + 1,
{
    let mut pieces: Vec<Vec<char>> = Vec::new();
    let mut cur: Vec<char> = Vec::new();
    let mut i: usize = 0;
    assert(s@.take(0) =~= Seq::<char>::empty());
    assert(char_views(pieces@).push(cur@) =~= seq![Seq::<char>::empty()]);
    while i < s.len()
        invariant
            i <= s@.len(),
            char_views(pieces@).push(cur@) == split_newlines(s@.take(i as int)),
            pieces@.len() <= i,
        decreases s@.len() - i,
    {
        let ghost before = char_views(pieces@).push(cur@);
        assert(s@.take(i + 1).drop_last() =~= s@.take(i as int));
        proof {
            lemma_split_nonempty(s@.take(i as int));
        }
        if s[i] == '\n' {
            let done = cur;
            pieces.push(done);
            cur = Vec::new();
            assert(char_views(pieces@).push(cur@) =~= before.push(Seq::empty()));
        } else {
            cur.push(s[i]);
            assert(char_views(pieces@).push(cur@) =~= before.update(
                before.len() - 1,
                before.last().push(s@[i as int]),
            ));
        }
        i = i + 1;
    }
    assert(s@.take(s@.len() as int) =~= s@);
    pieces.push(cur);
    pieces
}

/// The lines of `s` in the sense of `str::lines`.
pub fn lines_of(s: &Vec<char>) -> (r: Vec<Vec<char>>)
    ensures
        char_views(r@) == text_lines(s@),
        r@.len() <= s@.len() + 1,
{
    let pieces = split_on_newlines(s);
    proof {
        lemma_split_nonempty(s@);
    }
    let ghost p = split_newlines(s@);
    let n = pieces.len();
    let mut out: Vec<Vec<char>> = Vec::new();
    let mut i: usize = 0;
    while i + 1 < n
        invariant
            n == pieces@.len(),
            n >= 1,
            char_views(pieces@) == p,
            i + 1 <= n,
            char_views(out@) == Seq::new(i as nat, |k: int| without_cr(p[k])),
            out@.len() == i,
        decreases n - i,
    {
        let piece = &pieces[i];
        assert(piece@ == p[i as int]);
        let len = piece.len();
        let kept = if len > 0 && piece[len - 1] == '\r' {
            copy_range(piece, 0, len - 1)
        } else {
            copy_range(piece, 0, len)
        };
        assert(kept@ =~= without_cr(p[i as int]));
        let ghost old_out = char_views(out@);
        out.push(kept);
        assert(char_views(out@) =~= old_out.push(without_cr(p[i as int])));
        i = i + 1;
        assert(char_views(out@) =~= Seq::new(i as nat, |k: int| without_cr(p[k])));
    }
    let last = &pieces[n - 1];
    assert(last@ == p.last());
    if last.len() > 0 {
        let copy = copy_range(last, 0, last.len());
        assert(copy@ =~= last@);
        let ghost old_out = char_views(out@);
        out.push(copy);
        assert(char_views(out@) =~= old_out.push(p.last()));
        assert(char_views(out@) =~= Seq::new((n - 1) as nat, |k: int| without_cr(p[k])).push(p.last()));
    }
    out
}

/// `s` without any carriage return.
pub fn without_carriage_returns(s: &Vec<char>) -> (r: Vec<char>)
    ensures
        r@ == drop_cr(s@),
        r@.len() <= s@.len(),
{
    let mut r: Vec<char> = Vec::new();
    let mut i: usize = 0;
    assert(s@.take(0) =~= Seq::<char>::empty());
    while i < s.len()
        invariant
            i <= s@.len(),
            r@ == drop_cr(s@.take(i as int)),
            r@.len() <= i,
        decreases s@.len() - i,
    {
        assert(s@.take(i + 1).drop_last() =~= s@.take(i as int));
        if s[i] != '\r' {
            r.push(s[i]);
        }
        i = i + 1;
    }
    assert(s@.take(s@.len() as int) =~= s@);
    r
}

/// Whether `s`, up to index `to`, holds a newline.
pub fn holds_newline(s: &Vec<char>, to: usize) -> (r: bool)
    requires
        to <= s@.len(),
    ensures
        r == has_newline(s@.take(to as int)),
{
    let mut i: usize = 0;
    while i < to
        invariant
            i <= to <= s@.len(),
            forall|k: int| 0 <= k < i ==> s@[k] != '\n',
        decreases to - i,
    {
        if s[i] == '\n' {
            assert(s@.take(to as int)[i as int] == '\n');
            return true;
        }
        i = i + 1;
    }
    false
}

/// Whether two character vectors are equal.
pub fn same_chars(a: &Vec<char>, b: &Vec<char>) -> (r: bool)
    ensures
        r == (a@ == b@),
{
    if a.len() != b.len() {
        return false;
    }
    let mut i: usize = 0;
    while i < a.len()
        invariant
            a@.len() == b@.len(),
            i <= a@.len(),
            forall|k: int| 0 <= k < i ==> a@[k] == b@[k],
        decreases a@.len() - i,
    {
        if a[i] != b[i] {
            return false;
        }
        i = i + 1;
    }
    assert(a@ =~= b@);
    true
}

/// Relies on `FromIterator<char>` for `String`: the characters are collected
/// in order.
#[verifier::external_body]
pub(crate) fn string_of(v: &[char]) -> (r: String)
    ensures
        r@ == v@,
{
    v.iter().collect()
}

} // verus!
