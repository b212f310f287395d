use colored::Colorize;
use rusty_grep::{parse_u32, Config, EnvSettings};

fn plain_env() -> EnvSettings {
    EnvSettings {
        ignore_case: false,
        full_words: false,
        full_lines: false,
        invert_match: false,
        max_output_raw: None,
    }
}

fn args_of(words: &[&str]) -> Vec<String> {
    words.iter().map(|w| w.to_string()).collect()
}

#[test]
fn parse_u32_accepts_plain_numbers() {
    assert_eq!(parse_u32("0"), Some(0));
    assert_eq!(parse_u32("42"), Some(42));
    assert_eq!(parse_u32("007"), Some(7));
    assert_eq!(parse_u32("4294967295"), Some(u32::MAX));
}

#[test]
fn parse_u32_accepts_a_leading_plus() {
    assert_eq!(parse_u32("+8"), Some(8));
    assert_eq!(parse_u32("+0"), Some(0));
}

#[test]
fn parse_u32_rejects_bad_text() {
    assert_eq!(parse_u32(""), None);
    assert_eq!(parse_u32("+"), None);
    assert_eq!(parse_u32("-1"), None);
    assert_eq!(parse_u32("12x"), None);
    assert_eq!(parse_u32("x12"), None);
    assert_eq!(parse_u32(" 12"), None);
    assert_eq!(parse_u32("1 2"), None);
}

#[test]
fn parse_u32_rejects_overflow() {
    assert_eq!(parse_u32("4294967296"), None);
    assert_eq!(parse_u32("99999999999999999999"), None);
}

#[test]
fn build_needs_a_query() {
    let args = args_of(&["grep"]);
    let r = Config::build(&args, &plain_env());
    assert_eq!(r.err(), Some("Not enough required arguments: absent query parameter"));
}

#[test]
fn build_needs_a_file_path() {
    let args = args_of(&["grep", "rust"]);
    let r = Config::build(&args, &plain_env());
    assert_eq!(r.err(), Some("Not enough required arguments: absent file_path parameter"));
}

#[test]
fn build_fills_every_field() {
    let args = args_of(&["grep", "rust", "poem.txt"]);
    let env = EnvSettings {
        ignore_case: true,
        full_words: true,
        full_lines: false,
        invert_match: true,
        max_output_raw: Some("10".to_string()),
    };
    let cfg = Config::build(&args, &env).unwrap();
    assert_eq!(cfg.query, "rust");
    assert_eq!(cfg.file_path, "poem.txt");
    assert!(cfg.is_case_insensitive);
    assert!(cfg.find_only_full_words);
    assert!(!cfg.find_only_full_lines);
    assert!(cfg.invert_match);
    assert_eq!(cfg.max_output, Some(10));
}

#[test]
fn build_treats_bad_max_output_as_unset() {
    let args = args_of(&["grep", "rust", "poem.txt"]);
    let env = EnvSettings { max_output_raw: Some("ten".to_string()), ..plain_env() };
    let cfg = Config::build(&args, &env).unwrap();
    assert_eq!(cfg.max_output, None);
}

#[test]
fn search_with_config_follows_the_flags() {
    let cfg = rusty_grep::Config {
        query: "pick three.".to_string(),
        file_path: "poem.txt".to_string(),
        is_case_insensitive: true,
        find_only_full_words: true,
        find_only_full_lines: true,
        max_output: None,
        invert_match: false,
    };
    let content = "Rust:\nsafe, fast, productive.\nPick three.";
    // whole-line wins over whole-word, and case is folded
    let r = rusty_grep::search_with_config(&cfg, content);
    assert_eq!(r, vec![(3, "Pick three.".red().to_string())]);
}
