//! The resolved configuration of one search run, built from plain values:
//! the command-line words and the already-read environment switches. The
//! caller reads the process arguments and environment and hands them in;
//! nothing here touches either.

use crate::chars::chars_of;
use vstd::prelude::*;

verus! {

/// A decimal digit.
pub open spec fn is_digit(c: char) -> bool {
    '0' <= c && c <= '9'
}

/// Every character is a decimal digit.
pub open spec fn all_digits(s: Seq<char>) -> bool {
    forall|i: int| 0 <= i < s.len() ==> is_digit(#[trigger] s[i])
}

/// The number the digit string stands for, most significant digit first.
pub open spec fn digits_val(s: Seq<char>) -> int
    decreases s.len(),
{
    if s.len() == 0 {
        0
    } else {
        digits_val(s.drop_last()) * 10 + (s[s.len() - 1] as int - '0' as int)
    }
}

/// What parsing an unsigned number accepts: an optional leading `'+'`, then
/// at least one digit, with a value that fits in 32 bits.
pub open spec fn spec_parse_u32(s: Seq<char>) -> Option<u32> {
    let body = if s.len() > 0 && s[0] == '+' {
        s.drop_first()
    } else {
        s
    };
    if body.len() > 0 && all_digits(body) && digits_val(body) <= u32::MAX {
        Some(digits_val(body) as u32)
    } else {
        None
    }
}

/// A digit string's value is never negative.
proof fn lemma_digits_val_nonneg(s: Seq<char>)
    requires
        all_digits(s),
    ensures
        digits_val(s) >= 0,
    decreases s.len(),
{
    if s.len() > 0 {
        assert(all_digits(s.drop_last())) by {
            assert(forall|i: int| 0 <= i < s.len() - 1 ==> s.drop_last()[i] == s[i]);
        }
        lemma_digits_val_nonneg(s.drop_last());
    }
}

/// A digit string is worth at least any of its prefixes.
proof fn lemma_digits_val_prefix(s: Seq<char>, n: int)
    requires
        all_digits(s),
        0 <= n <= s.len(),
    ensures
        digits_val(s.take(n)) <= digits_val(s),
    decreases s.len() - n,
{
    if n < s.len() {
        let t = s.take(n + 1);
        assert(t.drop_last() =~= s.take(n));
        assert(all_digits(s.take(n))) by {
            assert(forall|i: int| 0 <= i < n ==> s.take(n)[i] == s[i]);
        }
        lemma_digits_val_nonneg(s.take(n));
        assert(digits_val(t) == digits_val(s.take(n)) * 10 + (s[n] as int - '0' as int));
        assert(digits_val(s.take(n)) <= digits_val(t));
        lemma_digits_val_prefix(s, n + 1);
        assert(s.take(s.len() as int) =~= s);
    } else {
        assert(s.take(n) =~= s);
    }
}

/// A decimal number read from a string: an optional `'+'`, then digits.
/// `None` when the text is not such a number or does not fit in 32 bits.
pub fn parse_u32(s: &str) -> (r: Option<u32>)
    ensures
        r == spec_parse_u32(s@),
{
    let v = chars_of(s);
    let mut start: usize = 0;
    if v.len() > 0 && v[0] == '+' {
        start = 1;
    }
    let ghost body = if s@.len() > 0 && s@[0] == '+' {
        s@.drop_first()
    } else {
        s@
    };
    proof {
        assert(body =~= v@.subrange(start as int, v@.len() as int));
    }
    if start == v.len() {
        return None;
    }
    let mut acc: u32 = 0;
    let mut k: usize = start;
    while k < v.len()
        invariant
            start <= k <= v@.len(),
            v@ == s@,
            start <= 1,
            body == (if s@.len() > 0 && s@[0] == '+' {
                s@.drop_first()
            } else {
                s@
            }),
            body == v@.subrange(start as int, v@.len() as int),
            forall|j: int| start <= j < k ==> is_digit(#[trigger] v@[j]),
            acc == digits_val(body.take(k - start)),
        decreases v@.len() - k,
    {
        let c = v[k];
        if c < '0' || c > '9' {
            proof {
                assert(body[k - start] == v@[k as int]);
                assert(!all_digits(body));
            }
            return None;
        }
        let d = (c as u32) - ('0' as u32);
        let ghost prefix = body.take(k - start);
        let ghost longer = body.take(k - start + 1);
        proof {
            assert(longer.drop_last() =~= prefix);
            assert(longer[longer.len() - 1] == v@[k as int]);
            assert(digits_val(longer) == digits_val(prefix) * 10 + d);
        }
        let widened = match acc.checked_mul(10) {
            Some(t) => t.checked_add(d),
            None => None,
        };
        match widened {
            Some(t) => {
                acc = t;
            },
            None => {
                proof {
                    assert(digits_val(longer) > u32::MAX);
                    if all_digits(body) {
                        lemma_digits_val_prefix(body, k - start + 1);
                        assert(digits_val(body) > u32::MAX);
                    }
                }
                return None;
            },
        }
        k = k + 1;
    }
    proof {
        assert(body.take(v@.len() - start) =~= body);
        assert(all_digits(body)) by {
            assert(forall|i: int|
                0 <= i < body.len() ==> body[i] == v@[i + start] && is_digit(#[trigger] body[i]));
        }
        assert(body.len() > 0);
    }
    Some(acc)
}

/// The resolved configuration: the query, the file to search, the three
/// mode flags, the output bound, and match inversion.
pub struct Config {
    pub query: String,
    pub file_path: String,
    pub is_case_insensitive: bool,
    pub find_only_full_words: bool,
    pub find_only_full_lines: bool,
    pub max_output: Option<u32>,
    pub invert_match: bool,
}

/// The environment switches as plain values: whether each flag variable was
/// set, and the raw text of the output bound, if any.
pub struct EnvSettings {
    pub ignore_case: bool,
    pub full_words: bool,
    pub full_lines: bool,
    pub invert_match: bool,
    pub max_output_raw: Option<String>,
}

/// The output bound the raw environment text stands for: absent, or parsed;
/// unparsable text falls back to no bound.
pub open spec fn spec_max_output(raw: Option<String>) -> Option<u32> {
    match raw {
        Some(s) => spec_parse_u32(s@),
        None => None,
    }
}

impl Config {
    /// The configuration built from the command-line words (the first is
    /// the program name and is skipped) and the environment switches. The
    /// query and the file path are required, in that order.
    pub fn build(args: &Vec<String>, env: &EnvSettings) -> (r: Result<Config, &'static str>)
        ensures
            r is Ok <==> args@.len() >= 3,
            match r {
                Ok(cfg) => {
                    &&& cfg.query@ == args@[1]@
                    &&& cfg.file_path@ == args@[2]@
                    &&& cfg.is_case_insensitive == env.ignore_case
                    &&& cfg.find_only_full_words == env.full_words
                    &&& cfg.find_only_full_lines == env.full_lines
                    &&& cfg.invert_match == env.invert_match
                    &&& cfg.max_output == spec_max_output(env.max_output_raw)
                },
                Err(e) => {
                    if args@.len() < 2 {
                        e@ == "Not enough required arguments: absent query parameter"@
                    } else {
                        e@ == "Not enough required arguments: absent file_path parameter"@
                    }
                },
            },
    {
        if args.len() < 2 {
            return Err("Not enough required arguments: absent query parameter");
        }
        if args.len() < 3 {
            return Err("Not enough required arguments: absent file_path parameter");
        }
        let max_output = match &env.max_output_raw {
            Some(raw) => parse_u32(raw.as_str()),
            None => None,
        };
        Ok(
            Config {
                query: args[1].clone(),
                file_path: args[2].clone(),
                is_case_insensitive: env.ignore_case,
                find_only_full_words: env.full_words,
                find_only_full_lines: env.full_lines,
                max_output,
                invert_match: env.invert_match,
            },
        )
    }
}

} // verus!
