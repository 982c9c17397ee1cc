//! Why a textual hardware address was refused.

use vstd::prelude::*;
use vstd::string::*;

verus! {

/// The reason a textual address could not be parsed.
#[derive(Copy, Clone, Debug, PartialEq, Eq, Structural, PartialOrd, Ord, Hash)]
pub enum ParseError {
    /// The text has an accepted length, but its digits do not make up
    /// exactly six octets that end with the text.
    BadFormat,
    /// The text has this many characters, which is none of 12, 14 and 17.
    BadLength(usize),
    /// This character, found at this index, is neither a hexadecimal digit
    /// nor one of `-`, `:` and `.`.
    BadCharacter(char, usize),
}

/// The character that writes the decimal digit `d`.
pub open spec fn digit_char(d: nat) -> char
    recommends
        d < 10,
{
    ('0' as nat + d) as char
}

/// `n` written in decimal, without leading zeros.
pub open spec fn decimal(n: nat) -> Seq<char>
    decreases n,
{
    if n < 10 {
        seq![digit_char(n)]
    } else {
        decimal(n / 10).push(digit_char(n % 10))
    }
}

/// `String::push` of the standard library appends the character to the end
/// of the string and leaves the rest as it was.
pub assume_specification[ String::push ](text: &mut String, ch: char)
    ensures
        final(text)@ == old(text)@.push(ch),
;

/// Appends `n`, written in decimal, to `text`.
fn push_decimal(text: &mut String, n: usize)
    ensures
        final(text)@ == old(text)@ + decimal(n as nat),
    decreases n,
{
    if n >= 10 {
        push_decimal(text, n / 10);
    }
    let d: u8 = (n % 10) as u8;
    text.push(('0' as u8 + d) as char);
    proof {
        let before = old(text)@;
        if n >= 10 {
            assert(before + decimal(n as nat) =~= (before + decimal((n / 10) as nat)).push(
                digit_char((n % 10) as nat),
            ));
        } else {
            assert(before + decimal(n as nat) =~= before.push(digit_char(n as nat)));
        }
    }
}

impl ParseError {
    /// The message that describes the error to a person.
    pub open spec fn message_text(self) -> Seq<char> {
        match self {
            ParseError::BadFormat => "bad format"@,
            ParseError::BadLength(n) => "bad length of "@ + decimal(n as nat),
            ParseError::BadCharacter(c, i) => "bad character '"@.push(c) + "' at index "@ + decimal(
                i as nat,
            ),
        }
    }

    /// A message for a person: what was wrong, with the length, or the
    /// character and its index, where the error carries them.
    pub fn message(&self) -> (text: String)
        ensures
            text@ == self.message_text(),
    {
        match *self {
            ParseError::BadFormat => String::from_str("bad format"),
            ParseError::BadLength(n) => {
                let mut text = String::from_str("bad length of ");
                push_decimal(&mut text, n);
                text
            },
            ParseError::BadCharacter(c, i) => {
                let mut text = String::from_str("bad character '");
                text.push(c);
                text.append("' at index ");
                push_decimal(&mut text, i);
                text
            },
        }
    }

    /// What kind of error this is, the same for every variant.
    pub fn description(&self) -> (text: &'static str)
        ensures
            text@ == "bad mac address"@,
    {
        "bad mac address"
    }
}

} // verus!
