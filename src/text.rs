//! Character classes and string helpers used by the tokenizer.
//!
//! ASCII characters are classified here directly; beyond ASCII the Unicode
//! tables of `char` decide, through the named predicate below.
use vstd::prelude::*;

verus! {

/// Whether `c` (beyond ASCII) has the Unicode `Alphabetic` property.
pub uninterp spec fn unicode_alphabetic(c: char) -> bool;

/// The lowercase form of a string, as `str::to_lowercase` computes it.
pub uninterp spec fn lowercase_of(s: Seq<char>) -> Seq<char>;

/// A letter: `a`..`z` or `A`..`Z` in ASCII, any `Alphabetic` character beyond.
pub open spec fn is_letter(c: char) -> bool {
    if (c as int) < 128 {
        (97 <= (c as int) && (c as int) <= 122) || (65 <= (c as int) && (c as int) <= 90)
    } else {
        unicode_alphabetic(c)
    }
}

/// Relies on `char::is_alphabetic` for characters beyond ASCII.
#[verifier::external_body]
fn alphabetic_beyond_ascii(c: char) -> (r: bool)
    requires
        (c as u32) >= 128,
    ensures
        r == unicode_alphabetic(c),
{
    c.is_alphabetic()
}

/// Relies on `str::to_lowercase`: the lowercase form depends on the characters alone.
#[verifier::external_body]
pub(crate) fn to_lowercase(s: &String) -> (r: String)
    ensures
        r@ == lowercase_of(s@),
{
    s.to_lowercase()
}

/// Relies on `str::chars`: the characters of `s`, in order.
#[verifier::external_body]
pub(crate) fn chars_of(s: &str) -> (r: Vec<char>)
    ensures
        r@ == s@,
{
    s.chars().collect()
}

/// Relies on `String::push`: appends one character.
#[verifier::external_body]
pub(crate) fn push_char(s: &mut String, c: char)
    ensures
        final(s)@ == old(s)@.push(c),
{
    s.push(c)
}

/// Whether `c` is a letter.
pub fn letter(c: char) -> (r: bool)
    ensures
        r == is_letter(c),
{
    let n = c as u32;
    if n < 128 {
        (97 <= n && n <= 122) || (65 <= n && n <= 90)
    } else {
        alphabetic_beyond_ascii(c)
    }
}

} // verus!
