//! The match predicates: substring, whole-word and whole-line matching on a
//! single line, together with the span to be marked.
//!
//! Whole-word matching looks for the query at word boundaries (a position
//! where exactly one neighbour is a word character), keeps only occurrences
//! whose text is entirely alphabetic, and of those takes the **last** one:
//! when several whole-word occurrences stand on one line, the final
//! occurrence is the one that is marked. That tie-break is deliberate and
//! callers rely on it.

use crate::chars::{alpha_char, is_alpha_char, is_word_char, word_char};
use vstd::prelude::*;

verus! {

/// The query stands at position `i` of the line.
pub open spec fn occurs_at(l: Seq<char>, q: Seq<char>, i: int) -> bool {
    &&& 0 <= i
    &&& i + q.len() <= l.len()
    &&& l.subrange(i, i + q.len() as int) == q
}

/// The first position at or after `i` where the query occurs, if any.
pub open spec fn find_from(l: Seq<char>, q: Seq<char>, i: int) -> Option<int>
    decreases l.len() - i + 1,
{
    if i < 0 || i + q.len() > l.len() {
        None
    } else if l.subrange(i, i + q.len() as int) == q {
        Some(i)
    } else {
        find_from(l, q, i + 1)
    }
}

/// What `find_from` returns: the least occurrence at or after `i`.
pub proof fn lemma_find_from(l: Seq<char>, q: Seq<char>, i: int)
    requires
        0 <= i,
    ensures
        match find_from(l, q, i) {
            Some(p) => occurs_at(l, q, p) && i <= p && forall|j: int|
                i <= j < p ==> !occurs_at(l, q, j),
            None => forall|j: int| i <= j ==> !occurs_at(l, q, j),
        },
    decreases l.len() - i + 1,
{
    if i + q.len() <= l.len() && l.subrange(i, i + q.len() as int) != q {
        lemma_find_from(l, q, i + 1);
    }
}

/// A word boundary at position `p`: exactly one side is a word character.
pub open spec fn word_boundary(l: Seq<char>, p: int) -> bool {
    let before = p > 0 && p <= l.len() && is_word_char(l[p - 1]);
    let after = 0 <= p < l.len() && is_word_char(l[p]);
    before != after
}

/// Every character of `l` in `[i, j)` is alphabetic.
pub open spec fn all_alpha(l: Seq<char>, i: int, j: int) -> bool {
    forall|k: int| i <= k < j ==> is_alpha_char(#[trigger] l[k])
}

/// A whole-word occurrence of the query at position `i`: the query stands
/// there, between word boundaries, and the matched text is all letters.
pub open spec fn word_hit(l: Seq<char>, q: Seq<char>, i: int) -> bool {
    &&& occurs_at(l, q, i)
    &&& word_boundary(l, i)
    &&& word_boundary(l, i + q.len() as int)
    &&& all_alpha(l, i, i + q.len() as int)
}

/// The last whole-word occurrence below position `n`, if any.
pub open spec fn last_hit_below(l: Seq<char>, q: Seq<char>, n: int) -> Option<int>
    decreases n,
{
    if n <= 0 {
        None
    } else if word_hit(l, q, n - 1) {
        Some(n - 1)
    } else {
        last_hit_below(l, q, n - 1)
    }
}

/// The last whole-word occurrence of the query on the line, if any.
pub open spec fn last_word_hit(l: Seq<char>, q: Seq<char>) -> Option<int> {
    last_hit_below(l, q, l.len() - q.len() + 1)
}

/// What `last_hit_below` returns: the greatest hit below `n`.
pub proof fn lemma_last_hit_below(l: Seq<char>, q: Seq<char>, n: int)
    ensures
        match last_hit_below(l, q, n) {
            Some(p) => 0 <= p < n && word_hit(l, q, p) && forall|j: int|
                p < j < n ==> !word_hit(l, q, j),
            None => forall|j: int| 0 <= j < n ==> !word_hit(l, q, j),
        },
    decreases n,
{
    if n > 0 && !word_hit(l, q, n - 1) {
        lemma_last_hit_below(l, q, n - 1);
    }
}

/// An occurrence of the query inside a longer word is never a whole-word
/// hit: where a word character stands right before a query that begins with
/// one, or right after a query that ends with one, there is no boundary.
pub proof fn lemma_no_hit_inside_longer_word(l: Seq<char>, q: Seq<char>, i: int)
    requires
        occurs_at(l, q, i),
        q.len() > 0,
        (i > 0 && is_word_char(l[i - 1]) && is_word_char(q[0])) || (i + q.len() < l.len()
            && is_word_char(l[i + q.len()]) && is_word_char(q[q.len() - 1])),
    ensures
        !word_hit(l, q, i),
{
    if i > 0 && is_word_char(l[i - 1]) && is_word_char(q[0]) {
        assert(l[i] == l.subrange(i, i + q.len() as int)[0]);
        assert(!word_boundary(l, i));
    } else {
        assert(l[i + q.len() - 1] == l.subrange(i, i + q.len() as int)[q.len() - 1]);
        assert(!word_boundary(l, i + q.len() as int));
    }
}

/// The two character vectors hold the same text.
pub fn vec_eq(a: &Vec<char>, b: &Vec<char>) -> (r: bool)
    ensures
        r == (a@ == b@),
{
    if a.len() != b.len() {
        proof {
            assert(a@ != b@);
        }
        return false;
    }
    let mut i: usize = 0;
    while i < a.len()
        invariant
            i <= a.len(),
            a.len() == b.len(),
            forall|j: int| 0 <= j < i ==> a@[j] == b@[j],
        decreases a.len() - i,
    {
        if a[i] != b[i] {
            return false;
        }
        i = i + 1;
    }
    proof {
        assert(a@ =~= b@);
    }
    true
}

/// The query stands at position `i` of the line.
fn matches_at(l: &Vec<char>, q: &Vec<char>, i: usize) -> (r: bool)
    requires
        i + q.len() <= l.len(),
    ensures
        r == occurs_at(l@, q@, i as int),
{
    let mut k: usize = 0;
    while k < q.len()
        invariant
            k <= q.len(),
            i + q.len() <= l.len(),
            forall|j: int| 0 <= j < k ==> l@[i + j] == q@[j],
        decreases q.len() - k,
    {
        if l[i + k] != q[k] {
            proof {
                assert(l@.subrange(i as int, i + q@.len() as int)[k as int] == l@[i + k]);
            }
            return false;
        }
        k = k + 1;
    }
    proof {
        assert(l@.subrange(i as int, i + q@.len() as int) =~= q@);
    }
    true
}

/// The first occurrence of the query on the line, if any.
pub fn find_first(l: &Vec<char>, q: &Vec<char>) -> (r: Option<usize>)
    ensures
        match r {
            Some(p) => find_from(l@, q@, 0) == Some(p as int),
            None => find_from(l@, q@, 0) is None,
        },
{
    if q.len() > l.len() {
        return None;
    }
    let top = l.len() - q.len();
    let mut i: usize = 0;
    loop
        invariant
            i <= top,
            top == l@.len() - q@.len(),
            q.len() <= l.len(),
            find_from(l@, q@, 0) == find_from(l@, q@, i as int),
        decreases top - i,
    {
        if matches_at(l, q, i) {
            proof {
                assert(l@.subrange(i as int, i + q@.len() as int) == q@);
            }
            return Some(i);
        }
        if i == top {
            return None;
        }
        i = i + 1;
    }
}

/// A word boundary at position `p` of the line.
fn boundary_at(l: &Vec<char>, p: usize) -> (r: bool)
    requires
        p <= l.len(),
    ensures
        r == word_boundary(l@, p as int),
{
    let before = p > 0 && word_char(l[p - 1]);
    let after = p < l.len() && word_char(l[p]);
    before != after
}

/// A whole-word occurrence of the query at position `i` of the line.
fn hit_at(l: &Vec<char>, q: &Vec<char>, i: usize) -> (r: bool)
    requires
        i + q.len() <= l.len(),
    ensures
        r == word_hit(l@, q@, i as int),
{
    if !matches_at(l, q, i) {
        return false;
    }
    if !boundary_at(l, i) {
        return false;
    }
    if !boundary_at(l, i + q.len()) {
        return false;
    }
    let mut k: usize = i;
    while k < i + q.len()
        invariant
            i <= k <= i + q.len() <= l.len(),
            forall|j: int| i <= j < k ==> is_alpha_char(#[trigger] l@[j]),
        decreases i + q.len() - k,
    {
        if !alpha_char(l[k]) {
            return false;
        }
        k = k + 1;
    }
    true
}

/// The last whole-word occurrence of the query on the line, if any.
pub fn find_last_word_hit(l: &Vec<char>, q: &Vec<char>) -> (r: Option<usize>)
    ensures
        match r {
            Some(p) => last_word_hit(l@, q@) == Some(p as int),
            None => last_word_hit(l@, q@) is None,
        },
{
    if q.len() > l.len() {
        proof {
            assert(l@.len() - q@.len() + 1 <= 0);
        }
        return None;
    }
    let top = l.len() - q.len();
    let mut best: Option<usize> = None;
    let mut i: usize = 0;
    loop
        invariant
            i <= top,
            top == l@.len() - q@.len(),
            q.len() <= l.len(),
            match best {
                Some(p) => last_hit_below(l@, q@, i as int) == Some(p as int),
                None => last_hit_below(l@, q@, i as int) is None,
            },
        decreases top - i,
    {
        if hit_at(l, q, i) {
            best = Some(i);
        }
        proof {
            match best {
                Some(p) => {
                    if p == i {
                        assert(last_hit_below(l@, q@, i + 1) == Some(p as int));
                    } else {
                        assert(!word_hit(l@, q@, i as int));
                        assert(last_hit_below(l@, q@, i + 1) == last_hit_below(l@, q@, i as int));
                    }
                },
                None => {
                    assert(!word_hit(l@, q@, i as int));
                },
            }
        }
        if i == top {
            proof {
                assert(i + 1 == l@.len() - q@.len() + 1);
            }
            return best;
        }
        i = i + 1;
    }
}

} // verus!
