use colored::control::set_override;
use rusty_grep::{search_case_sensitive, SearchOptions};

// This file holds a single test: forcing colour on is process-wide state,
// so no other test may run beside it.
#[test]
fn forced_colour_wraps_the_span_in_escape_codes() {
    set_override(true);
    let params = SearchOptions { max_output: None, invert_match: false };
    let r = search_case_sensitive("fast", "safe, fast, productive.", &params);
    assert_eq!(r, vec![(1, "safe, \u{1b}[31mfast\u{1b}[0m, productive.".to_string())]);
}
