//! Character classification over raw bytes.
//!
//! Classification is ASCII-only and operates on the lexer's character values:
//! a byte widened to `i32`, or the end-of-input sentinel `EOZ` (-1), which
//! belongs to no class.  The classes are those of the scanner: alphabetic
//! (letters and `_`), digit, hexadecimal digit, space (space, tab, newline,
//! carriage return, form feed, vertical tab) and printable.

use vstd::prelude::*;

verus! {

/// Letters and `_` may start an identifier.
pub open spec fn spec_is_alpha(c: i32) -> bool {
    (65 <= c <= 90) || (97 <= c <= 122) || c == 95
}

/// Decimal digits `0`-`9`.
pub open spec fn spec_is_digit(c: i32) -> bool {
    48 <= c <= 57
}

/// Identifier continuation characters: letters, `_` and digits.
pub open spec fn spec_is_alnum(c: i32) -> bool {
    spec_is_alpha(c) || spec_is_digit(c)
}

/// The whitespace class: space, tab, newline, vertical tab, form feed,
/// carriage return.
pub open spec fn spec_is_space(c: i32) -> bool {
    c == 32 || c == 9 || c == 10 || c == 11 || c == 12 || c == 13
}

/// Hexadecimal digits `0`-`9`, `a`-`f`, `A`-`F`.
pub open spec fn spec_is_xdigit(c: i32) -> bool {
    spec_is_digit(c) || (65 <= c <= 70) || (97 <= c <= 102)
}

/// Printable ASCII characters (space through `~`).
pub open spec fn spec_is_print(c: i32) -> bool {
    32 <= c <= 126
}

pub fn lislalpha(c: i32) -> (r: bool)
    ensures
        r == spec_is_alpha(c),
{
    (65 <= c && c <= 90) || (97 <= c && c <= 122) || c == 95
}

pub fn lislalnum(c: i32) -> (r: bool)
    ensures
        r == spec_is_alnum(c),
{
    lislalpha(c) || lisdigit(c)
}

pub fn lisdigit(c: i32) -> (r: bool)
    ensures
        r == spec_is_digit(c),
{
    48 <= c && c <= 57
}

pub fn lisspace(c: i32) -> (r: bool)
    ensures
        r == spec_is_space(c),
{
    c == 32 || c == 9 || c == 10 || c == 11 || c == 12 || c == 13
}

pub fn lisxdigit(c: i32) -> (r: bool)
    ensures
        r == spec_is_xdigit(c),
{
    lisdigit(c) || (65 <= c && c <= 70) || (97 <= c && c <= 102)
}

pub fn lisprint(c: i32) -> (r: bool)
    ensures
        r == spec_is_print(c),
{
    32 <= c && c <= 126
}

} // verus!
