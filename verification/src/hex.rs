//! The characters an address is written with: hexadecimal digits and the
//! three separators.

use vstd::prelude::*;

verus! {

/// `c` is one of `0-9`, `a-f`, `A-F`.
pub open spec fn is_hex_digit(c: char) -> bool {
    ||| '0' <= c <= '9'
    ||| 'a' <= c <= 'f'
    ||| 'A' <= c <= 'F'
}

/// `c` is one of the separators `-`, `:` and `.`.
pub open spec fn is_separator(c: char) -> bool {
    c == '-' || c == ':' || c == '.'
}

/// The value, 0 to 15, that the hexadecimal digit `c` stands for. Upper and
/// lower case letters stand for the same value.
pub open spec fn hex_value(c: char) -> int
    recommends
        is_hex_digit(c),
{
    if '0' <= c <= '9' {
        c as int - '0' as int
    } else if 'a' <= c <= 'f' {
        c as int - 'a' as int + 10
    } else {
        c as int - 'A' as int + 10
    }
}

/// A letter digit stands for the same value in upper and in lower case.
pub proof fn lemma_case_insensitive(lower: char, upper: char)
    requires
        'a' <= lower <= 'f',
        upper as int == lower as int - 32,
    ensures
        is_hex_digit(upper),
        'A' <= upper <= 'F',
        hex_value(upper) == hex_value(lower),
{
}

/// What a single character of an address is.
#[derive(Copy, Clone, Debug, PartialEq, Eq, Structural)]
pub enum CharClass {
    /// A hexadecimal digit, with its value.
    Digit(u8),
    /// One of the separators.
    Separator,
    /// Anything else.
    Other,
}

/// The class of `c`, as a specification.
pub open spec fn class_of(c: char) -> CharClass {
    if is_hex_digit(c) {
        CharClass::Digit(hex_value(c) as u8)
    } else if is_separator(c) {
        CharClass::Separator
    } else {
        CharClass::Other
    }
}

/// Classifies one character.
pub fn classify(c: char) -> (class: CharClass)
    ensures
        class == class_of(c),
        class matches CharClass::Digit(v) ==> v < 16,
{
    if '0' <= c && c <= '9' {
        CharClass::Digit(c as u8 - '0' as u8)
    } else if 'a' <= c && c <= 'f' {
        CharClass::Digit(c as u8 - 'a' as u8 + 10)
    } else if 'A' <= c && c <= 'F' {
        CharClass::Digit(c as u8 - 'A' as u8 + 10)
    } else if c == '-' || c == ':' || c == '.' {
        CharClass::Separator
    } else {
        CharClass::Other
    }
}

} // verus!
