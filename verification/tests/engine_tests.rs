use colored::Colorize;
use rusty_grep::{
    mode_of_flags, search, search_case_insensitive, search_case_sensitive,
    search_lines_case_insensitive, search_lines_case_sensitive, search_words_case_insensitive,
    search_words_case_sensitive, SearchMode, SearchOptions,
};

fn no_options() -> SearchOptions {
    SearchOptions { max_output: None, invert_match: false }
}

#[test]
fn empty_content_gives_empty_result() {
    let modes = [
        SearchMode::SubstringCaseSensitive,
        SearchMode::SubstringCaseInsensitive,
        SearchMode::WholeWordCaseSensitive,
        SearchMode::WholeWordCaseInsensitive,
        SearchMode::WholeLineCaseSensitive,
        SearchMode::WholeLineCaseInsensitive,
    ];
    for mode in modes {
        for invert in [false, true] {
            for max_output in [None, Some(0), Some(3)] {
                let params = SearchOptions { max_output, invert_match: invert };
                assert_eq!(search(mode, "rust", "", &params).len(), 0);
                assert_eq!(search(mode, "", "", &params).len(), 0);
            }
        }
    }
}

#[test]
fn result_length_never_exceeds_max_output() {
    let content = "a\na\na\na\na";
    for cap in 0..7u32 {
        let params = SearchOptions { max_output: Some(cap), invert_match: false };
        let r = search_case_sensitive("a", content, &params);
        assert!(r.len() as u32 <= cap);
        assert_eq!(r.len() as u32, cap.min(5));
    }
}

#[test]
fn line_numbers_strictly_increasing() {
    let content = "ab\nxx\nab\nyy\nab";
    let r = search_case_sensitive("ab", content, &no_options());
    let numbers: Vec<u32> = r.iter().map(|p| p.0).collect();
    assert_eq!(numbers, vec![1, 3, 5]);
    for w in numbers.windows(2) {
        assert!(w[0] < w[1]);
    }
    for n in numbers {
        assert!(1 <= n && n <= 5);
    }
}

#[test]
fn repeated_search_gives_identical_output() {
    let content = "Rust:\nsafe, fast, productive.\nPick three.\nTrust me.";
    let params = SearchOptions { max_output: Some(3), invert_match: false };
    let first = search_case_insensitive("rUsT", content, &params);
    let second = search_case_insensitive("rUsT", content, &params);
    assert_eq!(first, second);
}

#[test]
fn invert_returns_exact_complement() {
    let content = "Rust:\nsafe, fast, productive.\nPick three.\nTrust me.";
    let total_lines = 4u32;
    let plain = SearchOptions { max_output: None, invert_match: false };
    let inverted = SearchOptions { max_output: None, invert_match: true };
    let hits = search_case_insensitive("rUsT", content, &plain);
    let misses = search_case_insensitive("rUsT", content, &inverted);
    let hit_numbers: Vec<u32> = hits.iter().map(|p| p.0).collect();
    let miss_numbers: Vec<u32> = misses.iter().map(|p| p.0).collect();
    assert_eq!(hit_numbers, vec![1, 4]);
    assert_eq!(miss_numbers, vec![2, 3]);
    for n in 1..=total_lines {
        assert!(hit_numbers.contains(&n) != miss_numbers.contains(&n));
    }
}

#[test]
fn inverted_lines_are_not_highlighted() {
    let content = "Rust:\nsafe, fast, productive.\nPick three.";
    let params = SearchOptions { max_output: None, invert_match: true };
    let r = search_case_sensitive("saf", content, &params);
    assert_eq!(r, vec![(1, "Rust:".to_string()), (3, "Pick three.".to_string())]);
}

#[test]
fn empty_query_matches_every_line() {
    let content = "ab\ncd";
    let r = search_case_sensitive("", content, &no_options());
    let marked_empty = "".red().to_string();
    assert_eq!(
        r,
        vec![
            (1, format!("{}{}", marked_empty, "ab")),
            (2, format!("{}{}", marked_empty, "cd"))
        ]
    );
}

#[test]
fn whole_word_marks_last_occurrence() {
    let content = "rust is rust.";
    let r = search_words_case_sensitive("rust", content, &no_options());
    assert_eq!(r, vec![(1, format!("{}{}{}", "rust is ", "rust".red(), "."))]);
}

#[test]
fn whole_word_rejects_embedded_query() {
    let content = "rust:\nsafe, fast, productive.\nPick three.\nTrust me.";
    let r = search_words_case_sensitive("rust", content, &no_options());
    assert_eq!(r, vec![(1, format!("{}{}", "rust".red(), ":"))]);
}

#[test]
fn whole_word_underscore_is_a_word_character() {
    let content = "rust_x rust.";
    let r = search_words_case_sensitive("rust", content, &no_options());
    assert_eq!(r, vec![(1, format!("{}{}{}", "rust_x ", "rust".red(), "."))]);
}

#[test]
fn whole_word_case_insensitive_folds_both_sides() {
    let content = "But i love RUST!";
    let r = search_words_case_insensitive("rUsT", content, &no_options());
    assert_eq!(r, vec![(1, format!("{}{}{}", "But i love ", "RUST".red(), "!"))]);
}

#[test]
fn whole_line_needs_the_entire_line() {
    let content = "safe, fast\nsafe";
    let r = search_lines_case_sensitive("safe", content, &no_options());
    assert_eq!(r, vec![(2, "safe".red().to_string())]);
    let none = search_lines_case_insensitive("safe,", content, &no_options());
    assert_eq!(none.len(), 0);
}

#[test]
fn carriage_return_newline_ends_a_line() {
    let content = "ab\r\ncd";
    let r = search_case_sensitive("ab", content, &no_options());
    assert_eq!(r, vec![(1, format!("{}", "ab".red()))]);
}

#[test]
fn lone_carriage_return_stays_in_the_line() {
    let content = "a\rb";
    let r = search_case_sensitive("b", content, &no_options());
    assert_eq!(r, vec![(1, format!("{}{}", "a\r", "b".red()))]);
}

#[test]
fn trailing_newline_adds_no_line() {
    let content = "ab\n";
    let r = search_case_sensitive("", content, &no_options());
    assert_eq!(r.len(), 1);
    assert_eq!(r[0].0, 1);
}

#[test]
fn mode_selector_covers_all_flag_combinations() {
    assert_eq!(mode_of_flags(false, false, false), SearchMode::SubstringCaseSensitive);
    assert_eq!(mode_of_flags(true, false, false), SearchMode::SubstringCaseInsensitive);
    assert_eq!(mode_of_flags(false, true, false), SearchMode::WholeWordCaseSensitive);
    assert_eq!(mode_of_flags(true, true, false), SearchMode::WholeWordCaseInsensitive);
    assert_eq!(mode_of_flags(false, false, true), SearchMode::WholeLineCaseSensitive);
    assert_eq!(mode_of_flags(true, false, true), SearchMode::WholeLineCaseInsensitive);
    assert_eq!(mode_of_flags(false, true, true), SearchMode::WholeLineCaseSensitive);
    assert_eq!(mode_of_flags(true, true, true), SearchMode::WholeLineCaseInsensitive);
}

#[test]
fn named_functions_agree_with_the_engine() {
    let content = "Rust:\nsafe, fast, productive.\nPick three.";
    let params = SearchOptions { max_output: Some(2), invert_match: false };
    assert_eq!(
        search(SearchMode::SubstringCaseSensitive, "s", content, &params),
        search_case_sensitive("s", content, &params)
    );
    assert_eq!(
        search(SearchMode::WholeLineCaseInsensitive, "pick three.", content, &params),
        search_lines_case_insensitive("pick three.", content, &params)
    );
}

#[test]
fn capping_counts_emitted_lines_under_inversion() {
    let content = "x\na\nx\na\nx";
    let params = SearchOptions { max_output: Some(2), invert_match: true };
    let r = search_case_sensitive("a", content, &params);
    let numbers: Vec<u32> = r.iter().map(|p| p.0).collect();
    assert_eq!(numbers, vec![1, 3]);
}

#[test]
fn case_insensitive_folds_accented_letters() {
    let r = search_case_insensitive("É", "é", &no_options());
    assert_eq!(r, vec![(1, "é".red().to_string())]);
    let embedded = search_case_insensitive("ÉT", "une étude", &no_options());
    assert_eq!(embedded, vec![(1, format!("{}{}", "une ", "étude".red()))]);
}

#[test]
fn query_case_change_leaves_output_unchanged() {
    let content = "étude\nnothing here\nÉTUDE";
    let upper = search_case_insensitive("ÉTUDE", content, &no_options());
    let lower = search_case_insensitive("étude", content, &no_options());
    assert_eq!(upper, lower);
    assert_eq!(upper.len(), 2);
}

#[test]
fn whole_word_accepts_accented_words() {
    let r = search_words_case_insensitive("é", "é", &no_options());
    assert_eq!(r, vec![(1, "é".red().to_string())]);
    let spaced = search_words_case_sensitive("étude", "une étude finie", &no_options());
    assert_eq!(spaced, vec![(1, format!("{}{}{}", "une ", "étude".red(), " finie"))]);
}

#[test]
fn whole_line_folds_accented_letters() {
    let r = search_lines_case_insensitive("É", "é", &no_options());
    assert_eq!(r, vec![(1, "é".red().to_string())]);
}
