//! Laws of the search engine that relate whole calls to one another:
//! determinism of a search, and the complement law for inverted matches.

use crate::chars::fold_seq;
use crate::engine::{
    capped, included_indices, included_upto, lemma_included_upto, lemma_included_upto_contains,
    line_included, match_span, rendered_line, search_post, SearchMode,
};
use crate::lines::spec_lines;
use vstd::prelude::*;

verus! {

/// Some returned entry carries the 1-based line number `n`.
pub open spec fn has_line_number(out: Seq<(u32, Seq<char>)>, n: int) -> bool {
    exists|j: int| 0 <= j < out.len() && (#[trigger] out[j]).0 == n
}

/// A search is a pure function of its inputs: two results of one and the
/// same call agree in length and in every line number, and under inversion
/// — where no colour marking is applied — they are identical outright.
/// (Without inversion the rendered text additionally depends on whether the
/// process has colour output switched on.)
pub proof fn lemma_search_deterministic(
    mode: SearchMode,
    q: Seq<char>,
    content: Seq<char>,
    max: Option<u32>,
    invert: bool,
    r1: Seq<(u32, Seq<char>)>,
    r2: Seq<(u32, Seq<char>)>,
)
    requires
        search_post(mode, q, content, max, invert, r1),
        search_post(mode, q, content, max, invert, r2),
    ensures
        r1.len() == r2.len(),
        forall|j: int| 0 <= j < r1.len() ==> (#[trigger] r1[j]).0 == r2[j].0,
        invert ==> r1 == r2,
{
    let lines = spec_lines(content);
    let plan = capped(included_indices(mode, q, lines, invert), max);
    if invert {
        assert forall|j: int| 0 <= j < r1.len() implies #[trigger] r1[j] == r2[j] by {
            assert(rendered_line(mode, q, lines[plan[j]], invert, r1[j].1));
            assert(rendered_line(mode, q, lines[plan[j]], invert, r2[j].1));
            assert(r1[j].1 == lines[plan[j]]);
            assert(r2[j].1 == lines[plan[j]]);
            assert(r1[j].0 == r2[j].0);
        }
        assert(r1 =~= r2);
    }
}

/// The complement law of inversion: with no output bound set, the line
/// numbers returned with inversion are exactly those of `1..=total_lines`
/// that the plain search does not return.
pub proof fn lemma_invert_complement(
    mode: SearchMode,
    q: Seq<char>,
    content: Seq<char>,
    r_plain: Seq<(u32, Seq<char>)>,
    r_inverted: Seq<(u32, Seq<char>)>,
)
    requires
        search_post(mode, q, content, None, false, r_plain),
        search_post(mode, q, content, None, true, r_inverted),
    ensures
        forall|n: int|
            1 <= n <= spec_lines(content).len() ==> (has_line_number(r_plain, n)
                <==> !has_line_number(r_inverted, n)),
        forall|j: int|
            0 <= j < r_plain.len() ==> 1 <= (#[trigger] r_plain[j]).0 <= spec_lines(content).len(),
        forall|j: int|
            0 <= j < r_inverted.len() ==> 1 <= (#[trigger] r_inverted[j]).0 <= spec_lines(
                content,
            ).len(),
{
    let lines = spec_lines(content);
    let total = lines.len() as int;
    let plan_plain = included_indices(mode, q, lines, false);
    let plan_inv = included_indices(mode, q, lines, true);
    lemma_included_upto(mode, q, lines, false, total);
    lemma_included_upto(mode, q, lines, true, total);
    assert(capped(plan_plain, None) == plan_plain);
    assert(capped(plan_inv, None) == plan_inv);
    assert forall|n: int| 1 <= n <= total implies (has_line_number(r_plain, n)
        <==> !has_line_number(r_inverted, n)) by {
        lemma_included_upto_contains(mode, q, lines, false, total, n - 1);
        lemma_included_upto_contains(mode, q, lines, true, total, n - 1);
        assert(line_included(mode, q, lines[n - 1], false) == !line_included(
            mode,
            q,
            lines[n - 1],
            true,
        ));
        assert(has_line_number(r_plain, n) <==> plan_plain.contains(n - 1)) by {
            if has_line_number(r_plain, n) {
                let j = choose|j: int| 0 <= j < r_plain.len() && (#[trigger] r_plain[j]).0 == n;
                assert(plan_plain[j] == n - 1);
            }
            if plan_plain.contains(n - 1) {
                let k = choose|k: int|
                    0 <= k < plan_plain.len() && #[trigger] plan_plain[k] == n - 1;
                assert(r_plain[k].0 == n);
            }
        }
        assert(has_line_number(r_inverted, n) <==> plan_inv.contains(n - 1)) by {
            if has_line_number(r_inverted, n) {
                let j = choose|j: int|
                    0 <= j < r_inverted.len() && (#[trigger] r_inverted[j]).0 == n;
                assert(plan_inv[j] == n - 1);
            }
            if plan_inv.contains(n - 1) {
                let k = choose|k: int| 0 <= k < plan_inv.len() && #[trigger] plan_inv[k] == n - 1;
                assert(r_inverted[k].0 == n);
            }
        }
    }
    assert forall|j: int| 0 <= j < r_plain.len() implies 1 <= (#[trigger] r_plain[j]).0
        <= total by {
        assert(r_plain[j].0 == plan_plain[j] + 1);
    }
    assert forall|j: int| 0 <= j < r_inverted.len() implies 1 <= (#[trigger] r_inverted[j]).0
        <= total by {
        assert(r_inverted[j].0 == plan_inv[j] + 1);
    }
}


/// The case-insensitive modes see the query only through its folded form:
/// on every line, two queries with one and the same folding name the same
/// span, or both none.
pub proof fn lemma_insensitive_match_case_blind(
    mode: SearchMode,
    q1: Seq<char>,
    q2: Seq<char>,
    l: Seq<char>,
)
    requires
        fold_seq(q1) == fold_seq(q2),
        mode == SearchMode::SubstringCaseInsensitive || mode == SearchMode::WholeWordCaseInsensitive
            || mode == SearchMode::WholeLineCaseInsensitive,
    ensures
        match_span(mode, q1, l) == match_span(mode, q2, l),
{
    crate::chars::lemma_fold_seq(q1);
    crate::chars::lemma_fold_seq(q2);
}

/// Under one of the case-insensitive modes, every plan entry is the same
/// for two queries with one folding.
proof fn lemma_included_upto_case_blind(
    mode: SearchMode,
    q1: Seq<char>,
    q2: Seq<char>,
    lines: Seq<Seq<char>>,
    invert: bool,
    n: int,
)
    requires
        fold_seq(q1) == fold_seq(q2),
        mode == SearchMode::SubstringCaseInsensitive || mode == SearchMode::WholeWordCaseInsensitive
            || mode == SearchMode::WholeLineCaseInsensitive,
    ensures
        included_upto(mode, q1, lines, invert, n) == included_upto(mode, q2, lines, invert, n),
    decreases n,
{
    if n > 0 {
        lemma_included_upto_case_blind(mode, q1, q2, lines, invert, n - 1);
        lemma_insensitive_match_case_blind(mode, q1, q2, lines[n - 1]);
    }
}

/// Changing only the letter case of the query leaves a case-insensitive
/// search unchanged: whatever satisfies the search contract for the one
/// query satisfies it for the other.
pub proof fn lemma_search_query_case_blind(
    mode: SearchMode,
    q1: Seq<char>,
    q2: Seq<char>,
    content: Seq<char>,
    max: Option<u32>,
    invert: bool,
    out: Seq<(u32, Seq<char>)>,
)
    requires
        fold_seq(q1) == fold_seq(q2),
        mode == SearchMode::SubstringCaseInsensitive || mode == SearchMode::WholeWordCaseInsensitive
            || mode == SearchMode::WholeLineCaseInsensitive,
        search_post(mode, q1, content, max, invert, out),
    ensures
        search_post(mode, q2, content, max, invert, out),
{
    let lines = spec_lines(content);
    lemma_included_upto_case_blind(mode, q1, q2, lines, invert, lines.len() as int);
    let plan = capped(included_indices(mode, q2, lines, invert), max);
    assert forall|j: int| 0 <= j < plan.len() implies rendered_line(
        mode,
        q2,
        lines[plan[j]],
        invert,
        (#[trigger] out[j]).1,
    ) by {
        lemma_insensitive_match_case_blind(mode, q1, q2, lines[plan[j]]);
        assert(rendered_line(mode, q1, lines[plan[j]], invert, out[j].1));
    }
}

} // verus!
