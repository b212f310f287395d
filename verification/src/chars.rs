//! Character classes, case folding, and conversions between `str`/`String`
//! and vectors of characters, on which the matching engine works.
//!
//! Case folding is per character: each character is replaced by its Unicode
//! lowercase mapping, so a folded text always has the same length as the
//! original and every span of the folded text names the same span of the
//! original. The handful of characters whose full lowercasing expands to
//! several characters are folded to the first of them; a whole-string
//! lowercasing would shift offsets there, and marked spans must stay on
//! character boundaries of the original line.
//!
//! What a character *is* — its lowercase form, whether it is alphabetic or
//! alphanumeric — comes from the standard library's Unicode tables. Those
//! classifications are named, not written out: the contracts pin the ASCII
//! range, which their documentation states plainly, and leave the rest to
//! the named functions.

use vstd::prelude::*;
use vstd::string::StrSliceExecFns;

verus! {

/// The per-character lowercase mapping: the first character that
/// `char::to_lowercase` yields.
pub uninterp spec fn fold_of(c: char) -> char;

/// Whether `char::is_alphabetic` holds of the character.
pub uninterp spec fn alpha_of(c: char) -> bool;

/// Whether `char::is_alphanumeric` holds of the character.
pub uninterp spec fn alnum_of(c: char) -> bool;

/// A whole text folded to lower case, character by character.
pub open spec fn fold_seq(s: Seq<char>) -> Seq<char> {
    s.map_values(|c: char| fold_of(c))
}

/// A word character for word-boundary detection: a letter or digit in any
/// script, or `'_'`.
pub open spec fn is_word_char(c: char) -> bool {
    alnum_of(c) || c == '_'
}

/// An alphabetic character; a whole-word match must consist of these only.
pub open spec fn is_alpha_char(c: char) -> bool {
    alpha_of(c)
}

/// Relies on `char::to_lowercase`: the mapping depends on the character
/// alone; it always yields at least one character; `'A'..='Z'` map to
/// `'a'..='z'`; every other character below `'\u{80}'` has no lowercase
/// mapping and stays itself.
#[verifier::external_body]
fn lower_char(c: char) -> (r: char)
    ensures
        r == fold_of(c),
        ('A' <= c && c <= 'Z') ==> r == ((c as u32 + 32) as char),
        ((c as u32) < 128 && !('A' <= c && c <= 'Z')) ==> r == c,
{
    c.to_lowercase().next().unwrap()
}

/// Relies on `char::is_alphabetic`: the class depends on the character
/// alone; in the range below `'\u{80}'` exactly the letters `'a'..='z'`
/// and `'A'..='Z'` are alphabetic.
#[verifier::external_body]
fn alphabetic_char(c: char) -> (r: bool)
    ensures
        r == alpha_of(c),
        (('a' <= c && c <= 'z') || ('A' <= c && c <= 'Z')) ==> r,
        ((c as u32) < 128 && !(('a' <= c && c <= 'z') || ('A' <= c && c <= 'Z'))) ==> !r,
{
    c.is_alphabetic()
}

/// Relies on `char::is_alphanumeric`: the class depends on the character
/// alone; in the range below `'\u{80}'` exactly the letters and the digits
/// `'0'..='9'` are alphanumeric.
#[verifier::external_body]
fn alnum_char(c: char) -> (r: bool)
    ensures
        r == alnum_of(c),
        (('a' <= c && c <= 'z') || ('A' <= c && c <= 'Z') || ('0' <= c && c <= '9')) ==> r,
        ((c as u32) < 128 && !(('a' <= c && c <= 'z') || ('A' <= c && c <= 'Z') || ('0' <= c && c
            <= '9'))) ==> !r,
{
    c.is_alphanumeric()
}

/// Executable word-character test, equal to `is_word_char`.
pub fn word_char(c: char) -> (r: bool)
    ensures
        r == is_word_char(c),
{
    alnum_char(c) || c == '_'
}

/// Executable alphabetic test, equal to `is_alpha_char`.
pub fn alpha_char(c: char) -> (r: bool)
    ensures
        r == is_alpha_char(c),
{
    alphabetic_char(c)
}

/// Folding keeps the length and folds each character.
pub proof fn lemma_fold_seq(s: Seq<char>)
    ensures
        fold_seq(s).len() == s.len(),
        forall|i: int| 0 <= i < s.len() ==> fold_seq(s)[i] == fold_of(s[i]),
{
}

/// The characters of a string slice, as a vector.
pub fn chars_of(s: &str) -> (v: Vec<char>)
    ensures
        v@ == s@,
{
    let n = s.unicode_len();
    let mut v: Vec<char> = Vec::new();
    let mut i: usize = 0;
    while i < n
        invariant
            n == s@.len(),
            i <= n,
            v@ == s@.subrange(0, i as int),
        decreases n - i,
    {
        v.push(s.get_char(i));
        i = i + 1;
        proof {
            assert(v@ =~= s@.subrange(0, i as int));
        }
    }
    proof {
        assert(v@ =~= s@);
    }
    v
}

/// Relies on `String::push`: appends the character to the end of the string.
#[verifier::external_body]
fn push_char(s: &mut String, c: char)
    ensures
        final(s)@ == old(s)@.push(c),
{
    s.push(c);
}

/// A `String` holding exactly the given characters.
pub fn string_of_range(v: &Vec<char>, from: usize, to: usize) -> (s: String)
    requires
        from <= to <= v.len(),
    ensures
        s@ == v@.subrange(from as int, to as int),
{
    let mut s = String::new();
    let mut i: usize = from;
    while i < to
        invariant
            from <= i <= to <= v.len(),
            s@ == v@.subrange(from as int, i as int),
        decreases to - i,
    {
        push_char(&mut s, v[i]);
        i = i + 1;
        proof {
            assert(s@ =~= v@.subrange(from as int, i as int));
        }
    }
    s
}

/// A `String` holding exactly the characters of the vector.
pub fn string_of(v: &Vec<char>) -> (s: String)
    ensures
        s@ == v@,
{
    let s = string_of_range(v, 0, v.len());
    proof {
        assert(v@.subrange(0, v.len() as int) =~= v@);
    }
    s
}

/// The folded copy of a character vector.
pub fn fold_vec(v: &Vec<char>) -> (r: Vec<char>)
    ensures
        r@ == fold_seq(v@),
{
    let mut r: Vec<char> = Vec::new();
    let mut i: usize = 0;
    while i < v.len()
        invariant
            i <= v.len(),
            r@.len() == i,
            forall|j: int| 0 <= j < i ==> r@[j] == fold_of(v@[j]),
        decreases v.len() - i,
    {
        r.push(lower_char(v[i]));
        i = i + 1;
    }
    proof {
        assert(r@ =~= fold_seq(v@));
    }
    r
}

} // verus!
