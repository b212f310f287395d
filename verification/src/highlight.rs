//! The highlighter: a line with one span marked in red.
//!
//! The marking itself comes from the `colored` crate, which wraps the span
//! in the ANSI escape codes for red — or leaves it untouched when colour
//! output is switched off for the process. Every claim about rendered text
//! therefore allows both outcomes; everything around the marked span is
//! pinned exactly.

use crate::chars::string_of_range;
use crate::matching::occurs_at;
use vstd::prelude::*;

verus! {

/// The escape code that starts red text.
pub open spec fn red_prefix() -> Seq<char> {
    "\u{1b}[31m"@
}

/// The escape code that ends coloured text.
pub open spec fn reset_code() -> Seq<char> {
    "\u{1b}[0m"@
}

/// The text holds the reset escape code somewhere.
pub open spec fn contains_reset(s: Seq<char>) -> bool {
    exists|i: int| occurs_at(s, reset_code(), i)
}

/// The marked form of a piece of text: unchanged when colour is off, or
/// wrapped in the escape codes for red when it is on.
pub open spec fn red_wrapped(orig: Seq<char>, m: Seq<char>) -> bool {
    m == orig || m == red_prefix() + orig + reset_code()
}

/// Relies on `colored::Colorize::red` and the `Display` rendering of its
/// `ColoredString`: when colour output is enabled the result is the input
/// wrapped in `ESC[31m` … `ESC[0m`, and otherwise the input unchanged. A
/// reset code already inside the input would be escaped again there, so for
/// such inputs nothing exact is claimed.
#[verifier::external_body]
fn paint_red(s: &str) -> (r: String)
    ensures
        !contains_reset(s@) ==> red_wrapped(s@, r@),
{
    colored::Colorize::red(s).to_string()
}

/// The text `out` is the line with the piece `m` standing in place of the
/// span `[s, e)`: everything around the span is unchanged.
pub open spec fn spliced(l: Seq<char>, s: int, e: int, out: Seq<char>, m: Seq<char>) -> bool {
    out == l.subrange(0, s) + m + l.subrange(e, l.len() as int)
}

/// The rendering of a line whose span `[s, e)` is marked: all text outside
/// the span unchanged, the span itself in its marked form — except that for
/// a span already holding the reset code the marked piece is not pinned.
pub open spec fn rendered_span(l: Seq<char>, s: int, e: int, out: Seq<char>) -> bool {
    exists|m: Seq<char>|
        #[trigger] spliced(l, s, e, out, m) && (red_wrapped(l.subrange(s, e), m) || contains_reset(
            l.subrange(s, e),
        ))
}

/// The line with the characters in `[start, end)` marked in red.
pub fn render_span(line: &Vec<char>, start: usize, end: usize) -> (out: String)
    requires
        start <= end <= line.len(),
    ensures
        rendered_span(line@, start as int, end as int, out@),
{
    let mid = string_of_range(line, start, end);
    let marked = paint_red(mid.as_str());
    let mut out = string_of_range(line, 0, start);
    out.append(marked.as_str());
    let tail = string_of_range(line, end, line.len());
    out.append(tail.as_str());
    proof {
        let ghost span = line@.subrange(start as int, end as int);
        assert(spliced(line@, start as int, end as int, out@, marked@));
        if !contains_reset(span) {
            assert(red_wrapped(span, marked@));
        }
    }
    out
}

} // verus!
