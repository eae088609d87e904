//! What this crate takes from the standard library on trust.
//!
//! Each item here states what a function of the standard library does; none
//! of it is proved. Two answers of the standard library are tables of the
//! Unicode standard; they are given names and nothing is said of their
//! values.

use vstd::prelude::*;

verus! {

/// Whether a character has the Unicode `Alphabetic` property, as the standard
/// library reports it. The property is a table of the Unicode standard, so it
/// is named here and not written out.
pub uninterp spec fn unicode_alphabetic(c: char) -> bool;

/// Whether a character has the Unicode `White_Space` property, as the standard
/// library reports it. Named for the same reason as `unicode_alphabetic`.
pub uninterp spec fn unicode_white_space(c: char) -> bool;

/// The ASCII lower-case form of a character: `'A'..='Z'` move to
/// `'a'..='z'`, every other character stays as it is.
pub open spec fn ascii_lowercase(c: char) -> char {
    if 'A' <= c && c <= 'Z' {
        ((c as u32) + 32) as char
    } else {
        c
    }
}

/// Trusted: `char::is_alphabetic` answers by the character alone; its answer
/// is `unicode_alphabetic`. Nothing further is assumed about which characters
/// are alphabetic.
pub assume_specification[ char::is_alphabetic ](c: char) -> (b: bool)
    ensures
        b == unicode_alphabetic(c),
;

/// Trusted: `char::is_whitespace` answers by the character alone; its answer
/// is `unicode_white_space`. Nothing further is assumed about which
/// characters are white space.
pub assume_specification[ char::is_whitespace ](c: char) -> (b: bool)
    ensures
        b == unicode_white_space(c),
;

/// Trusted: `char::to_ascii_lowercase` maps the ASCII letters `'A'` to `'Z'`
/// to `'a'` to `'z'` and returns every other character unchanged.
pub assume_specification[ char::to_ascii_lowercase ](c: &char) -> (r: char)
    ensures
        r == ascii_lowercase(*c),
;

/// Trusted: `String::push` appends the character at the end of the string.
pub assume_specification[ String::push ](s: &mut String, c: char)
    ensures
        final(s)@ == old(s)@.push(c),
;

} // verus!
