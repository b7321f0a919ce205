//! Character classification used by the scanner.
//!
//! The scanner dispatches on the Unicode classes of the next character:
//! whitespace is skipped, an alphabetic character or `_` opens a name, and
//! a numeric character (or a sign or a decimal point) opens a number.

use vstd::prelude::*;

verus! {

/// The Unicode `White_Space` code points, written out as scalar values.
pub open spec fn is_space_char(c: char) -> bool {
    let u = c as u32;
    (9 <= u && u <= 13) || u == 32 || u == 0x85 || u == 0xA0 || u == 0x1680 || (0x2000 <= u && u
        <= 0x200A) || u == 0x2028 || u == 0x2029 || u == 0x202F || u == 0x205F || u == 0x3000
}

/// An ASCII decimal digit, `'0'` through `'9'`.
pub open spec fn is_ascii_digit_char(c: char) -> bool {
    48 <= c as u32 && c as u32 <= 57
}

/// An ASCII letter, `'A'` through `'Z'` or `'a'` through `'z'`.
pub open spec fn is_ascii_letter_char(c: char) -> bool {
    (65 <= c as u32 && c as u32 <= 90) || (97 <= c as u32 && c as u32 <= 122)
}

/// What `char::is_alphabetic` returns beyond ASCII and off the
/// whitespace set; a function of the character alone.
pub uninterp spec fn alpha_beyond_ascii(c: char) -> bool;

/// What `char::is_numeric` returns beyond ASCII and off the whitespace
/// set; a function of the character alone.
pub uninterp spec fn numeric_beyond_ascii(c: char) -> bool;

/// Whether the character has the Unicode `Alphabetic` property. Among
/// ASCII characters these are exactly the letters, and no `White_Space`
/// character is alphabetic; the rest of the table is a function of the
/// character alone.
pub open spec fn is_alpha_char(c: char) -> bool {
    if (c as u32) < 128 {
        is_ascii_letter_char(c)
    } else if is_space_char(c) {
        false
    } else {
        alpha_beyond_ascii(c)
    }
}

/// Whether the character lies in one of the Unicode general categories
/// `Nd`, `Nl` or `No`. Among ASCII characters these are exactly the
/// digits, and no `White_Space` character is numeric; the rest of the
/// table is a function of the character alone.
pub open spec fn is_numeric_char(c: char) -> bool {
    if (c as u32) < 128 {
        is_ascii_digit_char(c)
    } else if is_space_char(c) {
        false
    } else {
        numeric_beyond_ascii(c)
    }
}

/// An executable check for `is_space_char`: the `White_Space` set is
/// small enough to compare against outright.
pub(crate) fn is_whitespace(c: char) -> (r: bool)
    ensures
        r == is_space_char(c),
{
    let u = c as u32;
    (9 <= u && u <= 13) || u == 32 || u == 0x85 || u == 0xA0 || u == 0x1680 || (0x2000 <= u && u
        <= 0x200A) || u == 0x2028 || u == 0x2029 || u == 0x202F || u == 0x205F || u == 0x3000
}

/// Relies on `char::is_alphabetic`: the result depends on the character
/// alone; among ASCII characters exactly the letters are alphabetic, and
/// no `White_Space` character is alphabetic.
#[verifier::external_body]
pub(crate) fn is_alphabetic(c: char) -> (r: bool)
    ensures
        r == is_alpha_char(c),
        c as u32 >= 128 && !is_space_char(c) ==> r == alpha_beyond_ascii(c),
{
    c.is_alphabetic()
}

/// Relies on `char::is_numeric`: the result depends on the character
/// alone; among ASCII characters exactly the digits are numeric, and no
/// `White_Space` character is numeric.
#[verifier::external_body]
pub(crate) fn is_numeric(c: char) -> (r: bool)
    ensures
        r == is_numeric_char(c),
        c as u32 >= 128 && !is_space_char(c) ==> r == numeric_beyond_ascii(c),
{
    c.is_numeric()
}

/// An executable check for `is_ascii_digit_char`.
pub(crate) fn is_ascii_digit(c: char) -> (r: bool)
    ensures
        r == is_ascii_digit_char(c),
{
    let u = c as u32;
    48 <= u && u <= 57
}

} // verus!
