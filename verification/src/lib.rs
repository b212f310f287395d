//! Line-oriented text search: a buffer is split into lines, each line is
//! held against a query under one of six matching modes, and every line the
//! mode selects — directly or by inversion — is returned with its 1-based
//! line number and a rendering in which the matched span is marked in red.

pub mod chars;
pub mod config;
pub mod engine;
pub mod highlight;
pub mod laws;
pub mod lines;
pub mod matching;

pub use crate::config::{parse_u32, Config, EnvSettings};
pub use crate::engine::{
    mode_of_flags, search, search_case_insensitive, search_case_sensitive,
    search_lines_case_insensitive, search_lines_case_sensitive, search_words_case_insensitive,
    search_words_case_sensitive, search_with_config, SearchMode, SearchOptions,
};
