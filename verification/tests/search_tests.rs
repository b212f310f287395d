use colored::Colorize;
use rusty_grep::{
    search_case_insensitive, search_case_sensitive, search_lines_case_insensitive,
    search_lines_case_sensitive, search_words_case_sensitive, SearchOptions,
};

#[test]
fn case_sensitive() {
    let query = "saf";
    let content = "\
Rust:
safe, fast, productive.
Pick three.";

    let params = SearchOptions { max_output: Some(1_u32), invert_match: false };

    let red_word = "saf".red().to_string();
    let rest_of_line = "e, fast, productive.".to_string();

    assert_eq!(
        vec![(2, format!("{red_word}{rest_of_line}"))],
        search_case_sensitive(&query, &content, &params)
    );
}

#[test]
fn case_insensitive() {
    let query = "rUsT";
    let content = "\
Rust:
safe, fast, productive.
Pick three.
Trust me.";

    let params = SearchOptions { max_output: Some(2_u32), invert_match: false };

    let first_occasion = format!("{}{}", "Rust".red().to_string(), ":".to_string());
    let second_occasion = "Trust me.".to_string().replace("rust", &"rust".red().to_string());

    assert_eq!(
        vec![(1, first_occasion), (4, second_occasion)],
        search_case_insensitive(&query, &content, &params)
    );
}

#[test]
fn case_sensitive_full_words() {
    let query = "rust";
    let content = "\
rust:
safe, fast, productive.
Pick three.
Trust me.";

    let params = SearchOptions { max_output: Some(1_u32), invert_match: false };

    assert_eq!(
        vec![(1, format!("{}{}", "rust".red().to_string(), ":".to_string()))],
        search_words_case_sensitive(&query, &content, &params)
    );
}

#[test]
fn case_insensitive_full_words() {
    let query = "rUsT";
    let content = "\
Rust:
safe, fast, productive.
Pick three.
It's up to you.
But i love RUST!";

    let params = SearchOptions { max_output: Some(3_u32), invert_match: false };

    assert_eq!(
        vec![
            (1, format!("{}{}", "Rust".red(), ":")),
            (5, format!("{}{}{}", "But i love ", "RUST".red(), "!"))
        ],
        search_case_insensitive(&query, &content, &params)
    );
}

#[test]
fn case_insensitive_full_lines() {
    let query = "saFe, fAst, prodUctive.";
    let content = "\
Rust:
safe, fast, productive.
Pick three.
It's up to you.
But I love rust!";

    let params = SearchOptions { max_output: Some(10u32), invert_match: false };

    assert_eq!(
        vec![(2, "safe, fast, productive.".red().to_string())],
        search_lines_case_insensitive(&query, &content, &params)
    );
}

#[test]
fn case_sensitive_full_lines() {
    let query = "safe, fast, productive.";
    let content = "\
Rust:
safe, fast, productive.
Pick three.
It's up to you.
But I love rust!";

    let params = SearchOptions { max_output: Some(10u32), invert_match: false };

    assert_eq!(
        vec![(2, query.red().to_string())],
        search_lines_case_sensitive(&query, &content, &params)
    );
}

#[test]
fn lib_case_sensitive() {
    let query = "saf";
    let max_count = Some(1_u32);
    let content = "\
Rust:
safe, fast, productive.
Pick three.";

    let params = SearchOptions { max_output: max_count, invert_match: false };

    let red_word = "saf".red().to_string();
    let rest_of_line = "e, fast, productive.".to_string();

    assert_eq!(
        vec![(2, format!("{red_word}{rest_of_line}"))],
        search_case_sensitive(&query, &content, &params)
    );
}

#[test]
fn lib_case_insensitive() {
    let query = "rUsT";
    let max_count = Some(2_u32);
    let content = "\
Rust:
safe, fast, productive.
Pick three.
Trust me.";

    let params = SearchOptions { max_output: max_count, invert_match: false };

    let first_occasion = format!("{}{}", "Rust".red().to_string(), ":".to_string());
    let second_occasion = "Trust me.".to_string().replace("rust", &"rust".red().to_string());

    assert_eq!(
        vec![(1, first_occasion), (4, second_occasion)],
        search_case_insensitive(&query, &content, &params)
    );
}

#[test]
fn lib_case_sensitive_full_words() {
    let query = "rust";
    let max_count = Some(1_u32);
    let content = "\
rust:
safe, fast, productive.
Pick three.
Trust me.";

    let params = SearchOptions { max_output: max_count, invert_match: false };

    assert_eq!(
        vec![(1, format!("{}{}", "rust".red().to_string(), ":".to_string()))],
        search_words_case_sensitive(&query, &content, &params)
    );
}

#[test]
fn lib_case_insensitive_full_words() {
    let query = "rUsT";
    let max_count = Some(2_u32);
    let content = "\
Rust:
safe, fast, productive.
Pick three.
It's up to you.
But i love RUST!";

    let params = SearchOptions { max_output: max_count, invert_match: false };

    assert_eq!(
        vec![
            (1, format!("{}{}", "Rust".red(), ":")),
            (5, format!("{}{}{}", "But i love ", "RUST".red(), "!"))
        ],
        search_case_insensitive(&query, &content, &params)
    );
}
