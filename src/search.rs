//! Searching for a sequence of characters within a line, forward or
//! backward, the way a naive substring scan finds it.

use vstd::prelude::*;
use crate::text::{matches_at, starts_with};

verus! {

/// Which way a search goes.
#[derive(PartialEq, Eq, Structural, Debug, Clone, Copy)]
pub enum SearchDirection {
    Backward,
    Forward,
}

/// Whether `term` occurs in `t` at index `q`.
pub open spec fn occurs_at(t: Seq<char>, term: Seq<char>, q: int) -> bool {
    0 <= q && q + term.len() <= t.len() && t.subrange(q, q + term.len()) == term
}

/// Whether `q` is the first occurrence of `term` in `t` at or after `start`.
pub open spec fn is_first_forward(t: Seq<char>, term: Seq<char>, start: int, q: int) -> bool {
    &&& start <= q
    &&& occurs_at(t, term, q)
    &&& forall|k: int| start <= k < q ==> !occurs_at(t, term, k)
}

/// Whether `term` occurs in `t` at or after `start`.
pub open spec fn found_forward(t: Seq<char>, term: Seq<char>, start: int) -> bool {
    exists|q: int| start <= q && occurs_at(t, term, q)
}

/// Whether `q` is the last occurrence of `term` in `t` that ends at or
/// before index `start`.
pub open spec fn is_last_backward(t: Seq<char>, term: Seq<char>, start: int, q: int) -> bool {
    &&& q + term.len() <= start + 1
    &&& occurs_at(t, term, q)
    &&& forall|k: int| q < k && k + term.len() <= start + 1 ==> !occurs_at(t, term, k)
}

/// Whether `term` occurs in `t` ending at or before index `start`.
pub open spec fn found_backward(t: Seq<char>, term: Seq<char>, start: int) -> bool {
    exists|q: int| q + term.len() <= start + 1 && occurs_at(t, term, q)
}

/// Whether a search of `t` from `start` in direction `dir` finds `term`.
pub open spec fn found_in(t: Seq<char>, term: Seq<char>, start: int, dir: SearchDirection) -> bool {
    term.len() > 0 && match dir {
        SearchDirection::Forward => found_forward(t, term, start),
        SearchDirection::Backward => found_backward(t, term, start),
    }
}

/// Whether `q` is what a search of `t` from `start` in direction `dir`
/// finds.
pub open spec fn is_found_at(t: Seq<char>, term: Seq<char>, start: int, dir: SearchDirection, q: int) -> bool {
    match dir {
        SearchDirection::Forward => is_first_forward(t, term, start, q),
        SearchDirection::Backward => is_last_backward(t, term, start, q),
    }
}

proof fn lemma_occurs_here(t: Seq<char>, term: Seq<char>, q: int)
    requires
        0 <= q <= t.len(),
    ensures
        occurs_at(t, term, q) == starts_with(t.skip(q), term),
{
    if q + term.len() <= t.len() {
        assert(t.skip(q).take(term.len() as int) =~= t.subrange(q, q + term.len()));
    }
}

/// Where `search_term` is found in `text` from `starting_position` on, in
/// direction `search_direction`: forward, the first occurrence starting at
/// or after it; backward, the last one ending at or before it. An empty
/// term is never found.
pub fn search_in_text(
    text: &Vec<char>,
    starting_position: usize,
    search_term: &Vec<char>,
    search_direction: SearchDirection,
) -> (r: Option<usize>)
    ensures
        r is Some <==> found_in(text@, search_term@, starting_position as int, search_direction),
        r is Some ==> is_found_at(
            text@,
            search_term@,
            starting_position as int,
            search_direction,
            r->0 as int,
        ),
{
    let m = search_term.len();
    let n = text.len();
    if m == 0 {
        return None;
    }
    if m > n {
        assert(forall|q: int| !occurs_at(text@, search_term@, q));
        return None;
    }
    match search_direction {
        SearchDirection::Forward => {
            let mut q: usize = starting_position;
            while q <= n - m
                invariant
                    m == search_term@.len(),
                    n == text@.len(),
                    0 < m <= n,
                    starting_position <= q,
                    search_direction == SearchDirection::Forward,
                    forall|k: int| starting_position <= k < q ==> !occurs_at(text@, search_term@, k),
                decreases n - q,
            {
                proof {
                    lemma_occurs_here(text@, search_term@, q as int);
                }
                if matches_at(text, q, search_term) {
                    assert(is_first_forward(text@, search_term@, starting_position as int, q as int));
                    assert(found_forward(text@, search_term@, starting_position as int));
                    return Some(q);
                }
                q = q + 1;
            }
            assert forall|k: int| starting_position <= k implies !occurs_at(text@, search_term@, k) by {
                if k >= q {
                    assert(k + m > n);
                }
            }
            None
        },
        SearchDirection::Backward => {
            if starting_position < m - 1 {
                return None;
            }
            let top = starting_position - (m - 1);
            let hi: usize = if top > n - m {
                n - m
            } else {
                top
            };
            let mut q1: usize = hi + 1;
            while q1 > 0
                invariant
                    m == search_term@.len(),
                    n == text@.len(),
                    0 < m <= n,
                    hi <= n - m,
                    hi + m <= starting_position + 1,
                    q1 <= hi + 1,
                    search_direction == SearchDirection::Backward,
                    forall|k: int|
                        q1 <= k && k + m <= starting_position + 1 ==> !occurs_at(text@, search_term@, k),
                decreases q1,
            {
                let q = q1 - 1;
                proof {
                    lemma_occurs_here(text@, search_term@, q as int);
                }
                if matches_at(text, q, search_term) {
                    assert(is_last_backward(text@, search_term@, starting_position as int, q as int));
                    assert(found_backward(text@, search_term@, starting_position as int));
                    return Some(q);
                }
                q1 = q;
            }
            None
        },
    }
}

} // verus!
