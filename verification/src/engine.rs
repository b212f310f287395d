//! The search engine: lines are scanned in order, each is held against the
//! match predicate of the selected mode, and a line is included exactly when
//! `matched != invert_match`. Included lines keep their 1-based line number;
//! matched lines are rendered with the matched span marked, inverted output
//! is left unmodified. Emission stops once `max_output` lines are out.

use crate::chars::{chars_of, fold_seq, fold_vec, string_of};
use crate::highlight::{render_span, rendered_span};
use crate::lines::{lemma_lines_count, spec_lines, split_lines};
use crate::matching::{
    find_first, find_from, find_last_word_hit, last_word_hit, lemma_find_from,
    lemma_last_hit_below, vec_eq,
};
use vstd::prelude::*;

verus! {

/// The four matching strategies, each in a case-sensitive and a
/// case-insensitive form.
#[derive(Clone, Copy, Debug, PartialEq, Eq, Structural)]
pub enum SearchMode {
    SubstringCaseSensitive,
    SubstringCaseInsensitive,
    WholeWordCaseSensitive,
    WholeWordCaseInsensitive,
    WholeLineCaseSensitive,
    WholeLineCaseInsensitive,
}

/// The options that apply to every mode alike: an upper bound on the number
/// of emitted lines, and inversion of the match.
#[derive(Clone, Copy, Debug)]
pub struct SearchOptions {
    pub max_output: Option<u32>,
    pub invert_match: bool,
}

/// The mode selected by the three boolean flags. Whole-line takes precedence
/// over whole-word when both are set.
pub open spec fn spec_mode_of_flags(
    case_insensitive: bool,
    whole_word: bool,
    whole_line: bool,
) -> SearchMode {
    if whole_line {
        if case_insensitive {
            SearchMode::WholeLineCaseInsensitive
        } else {
            SearchMode::WholeLineCaseSensitive
        }
    } else if whole_word {
        if case_insensitive {
            SearchMode::WholeWordCaseInsensitive
        } else {
            SearchMode::WholeWordCaseSensitive
        }
    } else {
        if case_insensitive {
            SearchMode::SubstringCaseInsensitive
        } else {
            SearchMode::SubstringCaseSensitive
        }
    }
}

/// Total mapping from the three flags to a mode; whole-line wins over
/// whole-word.
pub fn mode_of_flags(case_insensitive: bool, whole_word: bool, whole_line: bool) -> (m: SearchMode)
    ensures
        m == spec_mode_of_flags(case_insensitive, whole_word, whole_line),
{
    if whole_line {
        if case_insensitive {
            SearchMode::WholeLineCaseInsensitive
        } else {
            SearchMode::WholeLineCaseSensitive
        }
    } else if whole_word {
        if case_insensitive {
            SearchMode::WholeWordCaseInsensitive
        } else {
            SearchMode::WholeWordCaseSensitive
        }
    } else {
        if case_insensitive {
            SearchMode::SubstringCaseInsensitive
        } else {
            SearchMode::SubstringCaseSensitive
        }
    }
}

/// A found position turned into the span `[i, i + qlen)`.
pub open spec fn span_of(p: Option<int>, qlen: int) -> Option<(int, int)> {
    match p {
        Some(i) => Some((i, i + qlen)),
        None => None,
    }
}

/// The span the given mode marks on the line, or `None` when the line does
/// not match. For the whole-word modes this is the **last** whole-word
/// occurrence; for the whole-line modes the whole line.
pub open spec fn match_span(mode: SearchMode, q: Seq<char>, l: Seq<char>) -> Option<(int, int)> {
    match mode {
        SearchMode::SubstringCaseSensitive => span_of(find_from(l, q, 0), q.len() as int),
        SearchMode::SubstringCaseInsensitive => span_of(
            find_from(fold_seq(l), fold_seq(q), 0),
            q.len() as int,
        ),
        SearchMode::WholeWordCaseSensitive => span_of(last_word_hit(l, q), q.len() as int),
        SearchMode::WholeWordCaseInsensitive => span_of(
            last_word_hit(fold_seq(l), fold_seq(q)),
            q.len() as int,
        ),
        SearchMode::WholeLineCaseSensitive => if l == q {
            Some((0int, l.len() as int))
        } else {
            None
        },
        SearchMode::WholeLineCaseInsensitive => if fold_seq(l) == fold_seq(q) {
            Some((0int, l.len() as int))
        } else {
            None
        },
    }
}

/// The line matches the query under the mode.
pub open spec fn line_matches(mode: SearchMode, q: Seq<char>, l: Seq<char>) -> bool {
    match_span(mode, q, l) is Some
}

/// The whole-line modes match nothing short of the whole line: a line
/// matches exactly when it equals the query — folded for the insensitive
/// form — however many substring occurrences it may hold.
pub proof fn lemma_whole_line_matches_whole_line(q: Seq<char>, l: Seq<char>)
    ensures
        line_matches(SearchMode::WholeLineCaseSensitive, q, l) <==> l == q,
        line_matches(SearchMode::WholeLineCaseInsensitive, q, l) <==> fold_seq(l) == fold_seq(q),
{
}

/// The line is included in the output: matched, or unmatched under
/// inversion.
pub open spec fn line_included(mode: SearchMode, q: Seq<char>, l: Seq<char>, invert: bool) -> bool {
    line_matches(mode, q, l) != invert
}

/// The indices of the included lines among the first `n`, in order.
pub open spec fn included_upto(
    mode: SearchMode,
    q: Seq<char>,
    lines: Seq<Seq<char>>,
    invert: bool,
    n: int,
) -> Seq<int>
    decreases n,
{
    if n <= 0 {
        Seq::empty()
    } else {
        let p = included_upto(mode, q, lines, invert, n - 1);
        if line_included(mode, q, lines[n - 1], invert) {
            p.push(n - 1)
        } else {
            p
        }
    }
}

/// The indices of all included lines, in order.
pub open spec fn included_indices(
    mode: SearchMode,
    q: Seq<char>,
    lines: Seq<Seq<char>>,
    invert: bool,
) -> Seq<int> {
    included_upto(mode, q, lines, invert, lines.len() as int)
}

/// The plan cut down to the output bound, when one is set.
pub open spec fn capped(s: Seq<int>, max: Option<u32>) -> Seq<int> {
    match max {
        Some(m) => if s.len() > m { s.take(m as int) } else { s },
        None => s,
    }
}

/// The rendered text of one included line: the line itself under inversion
/// (nothing matched, so nothing is marked), else the line with the matched
/// span marked.
pub open spec fn rendered_line(
    mode: SearchMode,
    q: Seq<char>,
    l: Seq<char>,
    invert: bool,
    out: Seq<char>,
) -> bool {
    if invert {
        out == l
    } else {
        match match_span(mode, q, l) {
            Some(span) => rendered_span(l, span.0, span.1, out),
            None => true,
        }
    }
}

/// The views of the returned pairs.
pub open spec fn results_view(r: Seq<(u32, String)>) -> Seq<(u32, Seq<char>)> {
    r.map_values(|p: (u32, String)| (p.0, p.1@))
}

/// Everything `search` promises of its result: one entry per included line
/// up to the output bound, carrying the 1-based line number and the rendered
/// text of that line.
pub open spec fn search_post(
    mode: SearchMode,
    q: Seq<char>,
    content: Seq<char>,
    max: Option<u32>,
    invert: bool,
    out: Seq<(u32, Seq<char>)>,
) -> bool {
    let lines = spec_lines(content);
    let plan = capped(included_indices(mode, q, lines, invert), max);
    &&& out.len() == plan.len()
    &&& forall|j: int| 0 <= j < plan.len() ==> (#[trigger] out[j]).0 == plan[j] + 1
    &&& forall|j: int|
        0 <= j < plan.len() ==> rendered_line(mode, q, lines[plan[j]], invert, (#[trigger] out[j]).1)
}

/// The included indices are strictly increasing and lie in `[0, n)`.
pub proof fn lemma_included_upto(
    mode: SearchMode,
    q: Seq<char>,
    lines: Seq<Seq<char>>,
    invert: bool,
    n: int,
)
    ensures
        forall|j1: int, j2: int|
            0 <= j1 < j2 < included_upto(mode, q, lines, invert, n).len() ==> included_upto(
                mode,
                q,
                lines,
                invert,
                n,
            )[j1] < included_upto(mode, q, lines, invert, n)[j2],
        forall|j: int|
            0 <= j < included_upto(mode, q, lines, invert, n).len() ==> 0 <= #[trigger] included_upto(
                mode,
                q,
                lines,
                invert,
                n,
            )[j] < n,
    decreases n,
{
    if n > 0 {
        lemma_included_upto(mode, q, lines, invert, n - 1);
        let p = included_upto(mode, q, lines, invert, n - 1);
        let cur = included_upto(mode, q, lines, invert, n);
        if line_included(mode, q, lines[n - 1], invert) {
            assert(cur == p.push(n - 1));
            assert forall|j1: int, j2: int| 0 <= j1 < j2 < cur.len() implies cur[j1] < cur[j2] by {
                if j2 < p.len() {
                    assert(cur[j1] == p[j1] && cur[j2] == p[j2]);
                } else {
                    assert(cur[j2] == n - 1);
                    assert(cur[j1] == p[j1] && p[j1] < n - 1);
                }
            }
            assert forall|j: int| 0 <= j < cur.len() implies 0 <= #[trigger] cur[j] < n by {
                if j < p.len() {
                    assert(cur[j] == p[j]);
                } else {
                    assert(cur[j] == n - 1);
                }
            }
        }
    }
}

/// An index stands in the plan exactly when its line is included.
pub proof fn lemma_included_upto_contains(
    mode: SearchMode,
    q: Seq<char>,
    lines: Seq<Seq<char>>,
    invert: bool,
    n: int,
    i: int,
)
    requires
        0 <= i < n,
    ensures
        included_upto(mode, q, lines, invert, n).contains(i) == line_included(
            mode,
            q,
            lines[i],
            invert,
        ),
    decreases n,
{
    let p = included_upto(mode, q, lines, invert, n);
    let shorter = included_upto(mode, q, lines, invert, n - 1);
    if i + 1 < n {
        lemma_included_upto_contains(mode, q, lines, invert, n - 1, i);
        if shorter.contains(i) {
            let k = choose|k: int| 0 <= k < shorter.len() && shorter[k] == i;
            assert(p[k] == i);
        }
        if p.contains(i) {
            let k = choose|k: int| 0 <= k < p.len() && p[k] == i;
            lemma_included_upto(mode, q, lines, invert, n - 1);
            if line_included(mode, q, lines[n - 1], invert) {
                if k < shorter.len() {
                    assert(shorter[k] == i);
                }
            } else {
                assert(shorter[k] == i);
            }
        }
    } else {
        lemma_included_upto(mode, q, lines, invert, n - 1);
        if line_included(mode, q, lines[i], invert) {
            assert(p[p.len() - 1] == i);
        } else {
            if p.contains(i) {
                let k = choose|k: int| 0 <= k < p.len() && p[k] == i;
                assert(shorter[k] == i);
            }
        }
    }
}

/// The capped plan is a prefix of the plan.
proof fn lemma_capped_prefix(s: Seq<int>, max: Option<u32>)
    ensures
        capped(s, max).len() <= s.len(),
        forall|j: int| 0 <= j < capped(s, max).len() ==> capped(s, max)[j] == s[j],
        max is Some ==> capped(s, max).len() <= max->0,
        max is None ==> capped(s, max) == s,
{
}

/// Appending one more entry beyond the bound leaves the capped plan as it
/// was.
proof fn lemma_capped_full(s: Seq<int>, m: u32, x: int)
    requires
        s.len() >= m,
    ensures
        capped(s.push(x), Some(m)) == capped(s, Some(m)),
{
    if s.len() > m {
        assert(s.push(x).take(m as int) =~= s.take(m as int));
    } else {
        assert(s.push(x).take(m as int) =~= s);
    }
}

/// Appending one more entry below the bound extends the capped plan by it.
proof fn lemma_capped_grow(s: Seq<int>, max: Option<u32>, x: int)
    requires
        capped(s, max).len() == s.len(),
        max is Some ==> s.len() < max->0,
    ensures
        capped(s.push(x), max) == capped(s, max).push(x),
{
    match max {
        Some(m) => {
            assert(capped(s, Some(m)) == s);
            assert(s.push(x).len() <= m);
            assert(capped(s.push(x), Some(m)) == s.push(x));
        },
        None => {},
    }
}

/// One line held against the mode's predicate: the span to mark, or `None`.
/// `fq` must be the folded query.
fn line_match(mode: SearchMode, q: &Vec<char>, fq: &Vec<char>, line: &Vec<char>) -> (r: Option<
    (usize, usize),
>)
    requires
        fq@ == fold_seq(q@),
    ensures
        match r {
            Some(p) => match_span(mode, q@, line@) == Some((p.0 as int, p.1 as int)) && p.0 <= p.1
                <= line@.len(),
            None => match_span(mode, q@, line@) is None,
        },
{
    let line_len = line.len();
    proof {
        crate::chars::lemma_fold_seq(q@);
        crate::chars::lemma_fold_seq(line@);
    }
    match mode {
        SearchMode::SubstringCaseSensitive => {
            proof {
                lemma_find_from(line@, q@, 0);
            }
            match find_first(line, q) {
                Some(i) => {
                    proof {
                        assert(crate::matching::occurs_at(line@, q@, i as int));
                    }
                    Some((i, i + q.len()))
                },
                None => None,
            }
        },
        SearchMode::SubstringCaseInsensitive => {
            let fl = fold_vec(line);
            proof {
                lemma_find_from(fl@, fq@, 0);
            }
            match find_first(&fl, fq) {
                Some(i) => {
                    proof {
                        assert(crate::matching::occurs_at(fl@, fq@, i as int));
                    }
                    Some((i, i + q.len()))
                },
                None => None,
            }
        },
        SearchMode::WholeWordCaseSensitive => {
            proof {
                lemma_last_hit_below(line@, q@, line@.len() - q@.len() + 1);
            }
            match find_last_word_hit(line, q) {
                Some(i) => {
                    proof {
                        assert(crate::matching::occurs_at(line@, q@, i as int));
                    }
                    Some((i, i + q.len()))
                },
                None => None,
            }
        },
        SearchMode::WholeWordCaseInsensitive => {
            let fl = fold_vec(line);
            proof {
                lemma_last_hit_below(fl@, fq@, fl@.len() - fq@.len() + 1);
            }
            match find_last_word_hit(&fl, fq) {
                Some(i) => {
                    proof {
                        assert(crate::matching::occurs_at(fl@, fq@, i as int));
                    }
                    Some((i, i + q.len()))
                },
                None => None,
            }
        },
        SearchMode::WholeLineCaseSensitive => {
            if vec_eq(line, q) {
                Some((0, line_len))
            } else {
                None
            }
        },
        SearchMode::WholeLineCaseInsensitive => {
            let fl = fold_vec(line);
            if vec_eq(&fl, fq) {
                Some((0, line_len))
            } else {
                None
            }
        },
    }
}

/// Another line may still be emitted under the bound.
fn below_cap(emitted: usize, max: &Option<u32>) -> (b: bool)
    ensures
        b == match *max {
            Some(m) => emitted < m,
            None => true,
        },
{
    match max {
        Some(m) => emitted < (*m as usize),
        None => true,
    }
}

/// The search engine. Lines are scanned in order; a line is included exactly
/// when it matches the query under the mode — inverted by `invert_match` —
/// and at most `max_output` lines are emitted. Each entry carries the
/// 1-based line number and the rendered text: the matched span marked for a
/// match, the line unchanged under inversion.
pub fn search(mode: SearchMode, query: &str, content: &str, options: &SearchOptions) -> (r: Vec<
    (u32, String),
>)
    requires
        content@.len() <= u32::MAX,
    ensures
        search_post(
            mode,
            query@,
            content@,
            options.max_output,
            options.invert_match,
            results_view(r@),
        ),
        options.max_output is Some ==> r@.len() <= options.max_output->0,
        forall|j1: int, j2: int| 0 <= j1 < j2 < r@.len() ==> r@[j1].0 < r@[j2].0,
        forall|j: int| 0 <= j < r@.len() ==> 1 <= (#[trigger] r@[j]).0 <= spec_lines(content@).len(),
        content@.len() == 0 ==> r@.len() == 0,
{
    let qchars = chars_of(query);
    let fq = fold_vec(&qchars);
    let cchars = chars_of(content);
    let lines = split_lines(&cchars);
    proof {
        lemma_lines_count(content@);
    }
    let ghost lseq = spec_lines(content@);
    let invert = options.invert_match;
    let mut out: Vec<(u32, String)> = Vec::new();
    let mut i: usize = 0;
    while i < lines.len()
        invariant
            i <= lines.len(),
            lines.deep_view() == lseq,
            lseq == spec_lines(content@),
            lseq.len() <= u32::MAX,
            lines@.len() == lseq.len(),
            qchars@ == query@,
            fq@ == fold_seq(query@),
            invert == options.invert_match,
            out@.len() == capped(
                included_upto(mode, query@, lseq, invert, i as int),
                options.max_output,
            ).len(),
            options.max_output is Some ==> out@.len() <= options.max_output->0,
            forall|j: int|
                0 <= j < out@.len() ==> (#[trigger] out@[j]).0 == capped(
                    included_upto(mode, query@, lseq, invert, i as int),
                    options.max_output,
                )[j] + 1,
            forall|j: int|
                0 <= j < out@.len() ==> rendered_line(
                    mode,
                    query@,
                    lseq[capped(
                        included_upto(mode, query@, lseq, invert, i as int),
                        options.max_output,
                    )[j]],
                    invert,
                    (#[trigger] out@[j]).1@,
                ),
        decreases lines.len() - i,
    {
        let line = &lines[i];
        proof {
            assert(line@ == line.deep_view());
            assert(lines.deep_view()[i as int] == lines@[i as int].deep_view());
            assert(line@ == lseq[i as int]);
            lemma_included_upto(mode, query@, lseq, invert, i as int);
            lemma_capped_prefix(included_upto(mode, query@, lseq, invert, i as int),
                options.max_output);
        }
        let span = line_match(mode, &qchars, &fq, line);
        let included = if invert {
            span.is_none()
        } else {
            span.is_some()
        };
        proof {
            assert(included == line_included(mode, query@, lseq[i as int], invert));
        }
        if included {
            if below_cap(out.len(), &options.max_output) {
                let text = match (invert, span) {
                    (false, Some(p)) => render_span(line, p.0, p.1),
                    _ => string_of(line),
                };
                out.push(((i as u32) + 1, text));
                proof {
                    let prev = included_upto(mode, query@, lseq, invert, i as int);
                    assert(capped(prev, options.max_output).len() == prev.len()) by {
                        lemma_capped_prefix(prev, options.max_output);
                        match options.max_output {
                            Some(m) => {
                                if prev.len() > m {
                                    assert(capped(prev, options.max_output).len() == m as int);
                                }
                            },
                            None => {},
                        }
                    }
                    lemma_capped_grow(prev, options.max_output, i as int);
                    assert(included_upto(mode, query@, lseq, invert, i + 1) == prev.push(i as int));
                }
            } else {
                proof {
                    let prev = included_upto(mode, query@, lseq, invert, i as int);
                    let m = options.max_output->0;
                    assert(prev.len() >= m) by {
                        if prev.len() < m {
                            assert(capped(prev, options.max_output) == prev);
                        }
                    }
                    lemma_capped_full(prev, m, i as int);
                    assert(included_upto(mode, query@, lseq, invert, i + 1) == prev.push(i as int));
                }
            }
        } else {
            proof {
                assert(included_upto(mode, query@, lseq, invert, i + 1) == included_upto(
                    mode,
                    query@,
                    lseq,
                    invert,
                    i as int,
                ));
            }
        }
        i = i + 1;
    }
    proof {
        let plan = capped(included_indices(mode, query@, lseq, invert), options.max_output);
        lemma_included_upto(mode, query@, lseq, invert, lseq.len() as int);
        lemma_capped_prefix(included_indices(mode, query@, lseq, invert), options.max_output);
        assert forall|j: int| 0 <= j < results_view(out@).len() implies (#[trigger] results_view(
            out@,
        )[j]).0 == plan[j] + 1 by {
            assert(results_view(out@)[j].0 == out@[j].0);
        }
        assert forall|j: int| 0 <= j < results_view(out@).len() implies rendered_line(
            mode,
            query@,
            spec_lines(content@)[plan[j]],
            invert,
            (#[trigger] results_view(out@)[j]).1,
        ) by {
            assert(results_view(out@)[j].1 == out@[j].1@);
        }
        if content@.len() == 0 {
            assert(lseq.len() == 0);
        }
    }
    out
}

/// One search run as the resolved configuration asks: the mode selected
/// from the three flags (whole-line over whole-word over plain substring),
/// the query taken from the configuration, and its bound and inversion
/// applied.
pub fn search_with_config(config: &crate::config::Config, content: &str) -> (r: Vec<
    (u32, String),
>)
    requires
        content@.len() <= u32::MAX,
    ensures
        search_post(
            spec_mode_of_flags(
                config.is_case_insensitive,
                config.find_only_full_words,
                config.find_only_full_lines,
            ),
            config.query@,
            content@,
            config.max_output,
            config.invert_match,
            results_view(r@),
        ),
        config.max_output is Some ==> r@.len() <= config.max_output->0,
{
    let mode = mode_of_flags(
        config.is_case_insensitive,
        config.find_only_full_words,
        config.find_only_full_lines,
    );
    let options = SearchOptions { max_output: config.max_output, invert_match: config.invert_match };
    search(mode, config.query.as_str(), content, &options)
}

/// Substring search, case-sensitive: a line is included when the query
/// occurs in it literally, and its first occurrence is marked.
pub fn search_case_sensitive(query: &str, content: &str, params: &SearchOptions) -> (r: Vec<
    (u32, String),
>)
    requires
        content@.len() <= u32::MAX,
    ensures
        search_post(
            SearchMode::SubstringCaseSensitive,
            query@,
            content@,
            params.max_output,
            params.invert_match,
            results_view(r@),
        ),
        params.max_output is Some ==> r@.len() <= params.max_output->0,
{
    search(SearchMode::SubstringCaseSensitive, query, content, params)
}

/// Substring search with both sides folded to lower case; the first
/// occurrence is marked, in the line's original spelling.
pub fn search_case_insensitive(query: &str, content: &str, params: &SearchOptions) -> (r: Vec<
    (u32, String),
>)
    requires
        content@.len() <= u32::MAX,
    ensures
        search_post(
            SearchMode::SubstringCaseInsensitive,
            query@,
            content@,
            params.max_output,
            params.invert_match,
            results_view(r@),
        ),
        params.max_output is Some ==> r@.len() <= params.max_output->0,
{
    search(SearchMode::SubstringCaseInsensitive, query, content, params)
}

/// Whole-word search, case-sensitive: the query must stand at word
/// boundaries as an all-alphabetic word; the last such occurrence is marked.
pub fn search_words_case_sensitive(query: &str, content: &str, params: &SearchOptions) -> (r: Vec<
    (u32, String),
>)
    requires
        content@.len() <= u32::MAX,
    ensures
        search_post(
            SearchMode::WholeWordCaseSensitive,
            query@,
            content@,
            params.max_output,
            params.invert_match,
            results_view(r@),
        ),
        params.max_output is Some ==> r@.len() <= params.max_output->0,
{
    search(SearchMode::WholeWordCaseSensitive, query, content, params)
}

/// Whole-word search with both sides folded to lower case; the last
/// qualifying occurrence is marked, in the line's original spelling.
pub fn search_words_case_insensitive(query: &str, content: &str, params: &SearchOptions) -> (r: Vec<
    (u32, String),
>)
    requires
        content@.len() <= u32::MAX,
    ensures
        search_post(
            SearchMode::WholeWordCaseInsensitive,
            query@,
            content@,
            params.max_output,
            params.invert_match,
            results_view(r@),
        ),
        params.max_output is Some ==> r@.len() <= params.max_output->0,
{
    search(SearchMode::WholeWordCaseInsensitive, query, content, params)
}

/// Whole-line search, case-sensitive: a line is included only when it
/// equals the query exactly, and is then marked as a whole.
pub fn search_lines_case_sensitive(query: &str, content: &str, params: &SearchOptions) -> (r: Vec<
    (u32, String),
>)
    requires
        content@.len() <= u32::MAX,
    ensures
        search_post(
            SearchMode::WholeLineCaseSensitive,
            query@,
            content@,
            params.max_output,
            params.invert_match,
            results_view(r@),
        ),
        params.max_output is Some ==> r@.len() <= params.max_output->0,
{
    search(SearchMode::WholeLineCaseSensitive, query, content, params)
}

/// Whole-line search with both sides folded to lower case.
pub fn search_lines_case_insensitive(query: &str, content: &str, params: &SearchOptions) -> (r: Vec<
    (u32, String),
>)
    requires
        content@.len() <= u32::MAX,
    ensures
        search_post(
            SearchMode::WholeLineCaseInsensitive,
            query@,
            content@,
            params.max_output,
            params.invert_match,
            results_view(r@),
        ),
        params.max_output is Some ==> r@.len() <= params.max_output->0,
{
    search(SearchMode::WholeLineCaseInsensitive, query, content, params)
}

} // verus!
