//! Parsing a textual hardware address into its six octets.
//!
//! The text is twelve hexadecimal digits, upper or lower case, with the
//! separators `-`, `:` and `.` allowed anywhere between them, as long as the
//! whole has 12, 14 or 17 characters and the last digit ends it.

use vstd::prelude::*;
use vstd::string::*;
use crate::error::ParseError;
use crate::hex::{classify, hex_value, is_hex_digit, is_separator, CharClass};

verus! {

/// The number of octets in an address.
pub const EUI48_LEN: usize = 6;

/// The number of hexadecimal digits that an address is written with.
pub open spec fn digits_needed() -> nat {
    12
}

/// The character counts that a textual address may have.
pub open spec fn accepted_length(n: nat) -> bool {
    n == 12 || n == 14 || n == 17
}

/// The hexadecimal digits of `s`, in order, with everything else left out.
pub open spec fn hex_digits(s: Seq<char>) -> Seq<char> {
    s.filter(|c: char| is_hex_digit(c))
}

/// The octet that the digits `2k` and `2k + 1` of `d` spell, high nibble
/// first.
pub open spec fn octet(d: Seq<char>, k: int) -> u8 {
    (hex_value(d[2 * k]) * 16 + hex_value(d[2 * k + 1])) as u8
}

/// The six octets that twelve digits spell.
pub open spec fn octets(d: Seq<char>) -> Seq<u8> {
    Seq::new(6, |k: int| octet(d, k))
}

/// The scan cannot take the character at index `i`: either all twelve
/// digits have been read before it, or it is neither a digit nor a
/// separator.
pub open spec fn stops_at(s: Seq<char>, i: int) -> bool {
    hex_digits(s.take(i)).len() >= digits_needed() || !(is_hex_digit(s[i]) || is_separator(s[i]))
}

/// The scan takes every character before index `n`.
pub open spec fn runs_through(s: Seq<char>, n: int) -> bool {
    forall|j: int| 0 <= j < n ==> !stops_at(s, j)
}

/// `i` is the first index at which the scan stops.
pub open spec fn is_first_stop(s: Seq<char>, i: int) -> bool {
    0 <= i < s.len() && stops_at(s, i) && runs_through(s, i)
}

/// The first index at which the scan stops, where there is one.
pub open spec fn first_stop(s: Seq<char>) -> int {
    choose|i: int| is_first_stop(s, i)
}

/// What parsing the text `s` gives: the six octets, or the first reason to
/// refuse it.
///
/// A text of the wrong length is refused for its length. Otherwise the text
/// is read from the left; a character that comes after the twelfth digit is
/// a fault of format, and before that a character that is neither a digit
/// nor a separator is a bad character. A text that ends with fewer than
/// twelve digits read is a fault of format too.
pub open spec fn parsed_address(s: Seq<char>) -> Result<Seq<u8>, ParseError> {
    if !accepted_length(s.len()) {
        Err(ParseError::BadLength(s.len() as usize))
    } else if !runs_through(s, s.len() as int) {
        let i = first_stop(s);
        if hex_digits(s.take(i)).len() >= digits_needed() {
            Err(ParseError::BadFormat)
        } else {
            Err(ParseError::BadCharacter(s[i], i as usize))
        }
    } else if hex_digits(s).len() != digits_needed() {
        Err(ParseError::BadFormat)
    } else {
        Ok(octets(hex_digits(s)))
    }
}

/// The digits of a text that grew by one character.
pub proof fn lemma_hex_digits_step(s: Seq<char>, i: int)
    requires
        0 <= i < s.len(),
    ensures
        hex_digits(s.take(i + 1)) == if is_hex_digit(s[i]) {
            hex_digits(s.take(i)).push(s[i])
        } else {
            hex_digits(s.take(i))
        },
{
    reveal(Seq::filter);
    assert(s.take(i + 1).drop_last() =~= s.take(i));
}

/// Every element of `hex_digits(s)` is a hexadecimal digit.
pub proof fn lemma_hex_digits_are_digits(s: Seq<char>)
    ensures
        forall|k: int| 0 <= k < hex_digits(s).len() ==> is_hex_digit(#[trigger] hex_digits(s)[k]),
        hex_digits(s).len() <= s.len(),
    decreases s.len(),
{
    reveal(Seq::filter);
    if s.len() > 0 {
        lemma_hex_digits_are_digits(s.drop_last());
    }
}

/// There is at most one first stop.
pub proof fn lemma_first_stop_is(s: Seq<char>, i: int)
    requires
        is_first_stop(s, i),
    ensures
        first_stop(s) == i,
        !runs_through(s, s.len() as int),
{
    let j = first_stop(s);
    assert(is_first_stop(s, j));
    if j < i {
        assert(!stops_at(s, j));
    } else if i < j {
        assert(!stops_at(s, i));
    }
}

/// A longer prefix holds at least the digits of a shorter one.
pub proof fn lemma_hex_digits_grow(s: Seq<char>, j: int, k: int)
    requires
        0 <= j <= k <= s.len(),
    ensures
        hex_digits(s.take(j)).len() <= hex_digits(s.take(k)).len(),
    decreases k - j,
{
    if j < k {
        lemma_hex_digits_grow(s, j, k - 1);
        lemma_hex_digits_step(s, k - 1);
    }
}

/// The text is an address as it should be written: an accepted length,
/// nothing but digits and separators, twelve digits, and a digit at the end.
pub open spec fn well_formed(s: Seq<char>) -> bool {
    &&& accepted_length(s.len())
    &&& forall|i: int| 0 <= i < s.len() ==> is_hex_digit(#[trigger] s[i]) || is_separator(s[i])
    &&& hex_digits(s).len() == digits_needed()
    &&& is_hex_digit(s.last())
}

/// `s` and `t` are the same text but for which separator stands where.
pub open spec fn same_but_separators(s: Seq<char>, t: Seq<char>) -> bool {
    &&& s.len() == t.len()
    &&& forall|i: int|
        0 <= i < s.len() ==> #[trigger] s[i] == t[i] || (is_separator(s[i]) && is_separator(t[i]))
}

/// Parsing succeeds on the well-formed texts and on no others, and gives
/// the octets that the twelve digits spell.
pub proof fn lemma_parses_iff_well_formed(s: Seq<char>)
    ensures
        well_formed(s) <==> parsed_address(s) is Ok,
        well_formed(s) ==> parsed_address(s) == Ok::<Seq<u8>, ParseError>(octets(hex_digits(s))),
        parsed_address(s) is Ok ==> parsed_address(s)->Ok_0.len() == 6,
{
    let n = s.len() as int;
    if accepted_length(s.len()) {
        assert(s.take(n) =~= s);
        lemma_hex_digits_step(s, n - 1);
        if well_formed(s) {
            assert forall|j: int| 0 <= j < n implies !stops_at(s, j) by {
                lemma_hex_digits_grow(s, j, n - 1);
            }
        }
        if runs_through(s, n) && hex_digits(s).len() == digits_needed() {
            assert(!stops_at(s, n - 1));
            assert forall|i: int| 0 <= i < n implies is_hex_digit(#[trigger] s[i]) || is_separator(
                s[i],
            ) by {
                assert(!stops_at(s, i));
            }
        }
    }
}

/// A text of any other length than 12, 14 and 17 is refused for its
/// length, whatever it holds.
pub proof fn lemma_bad_length(s: Seq<char>)
    requires
        !accepted_length(s.len()),
    ensures
        parsed_address(s) == Err::<Seq<u8>, ParseError>(ParseError::BadLength(s.len() as usize)),
{
}

/// In a text of accepted length, the first character that is neither a
/// digit nor a separator is reported with its index, provided that fewer
/// than twelve digits stand before it.
pub proof fn lemma_bad_character(s: Seq<char>, i: int)
    requires
        accepted_length(s.len()),
        0 <= i < s.len(),
        !(is_hex_digit(s[i]) || is_separator(s[i])),
        forall|j: int| 0 <= j < i ==> is_hex_digit(#[trigger] s[j]) || is_separator(s[j]),
        hex_digits(s.take(i)).len() < digits_needed(),
    ensures
        parsed_address(s) == Err::<Seq<u8>, ParseError>(ParseError::BadCharacter(s[i], i as usize)),
{
    assert forall|j: int| 0 <= j < i implies !stops_at(s, j) by {
        lemma_hex_digits_grow(s, j, i);
    }
    lemma_first_stop_is(s, i);
}

/// In a text of accepted length, whatever follows the twelfth digit is a
/// fault of format, provided that only digits and separators stand before
/// it.
pub proof fn lemma_trailing_is_bad_format(s: Seq<char>, i: int)
    requires
        accepted_length(s.len()),
        0 <= i < s.len(),
        forall|j: int| 0 <= j < i ==> is_hex_digit(#[trigger] s[j]) || is_separator(s[j]),
        hex_digits(s.take(i)).len() >= digits_needed(),
    ensures
        parsed_address(s) == Err::<Seq<u8>, ParseError>(ParseError::BadFormat),
{
    assert(stops_at(s, i));
    lemma_least_stop(s, i);
    let k = choose|k: int| 0 <= k <= i && is_first_stop(s, k);
    lemma_first_stop_is(s, k);
    if k < i {
        assert(is_hex_digit(s[k]) || is_separator(s[k]));
    }
}

/// A text of accepted length that holds nothing but digits and separators,
/// and fewer than twelve digits, is a fault of format.
pub proof fn lemma_too_few_digits(s: Seq<char>)
    requires
        accepted_length(s.len()),
        forall|i: int| 0 <= i < s.len() ==> is_hex_digit(#[trigger] s[i]) || is_separator(s[i]),
        hex_digits(s).len() < digits_needed(),
    ensures
        parsed_address(s) == Err::<Seq<u8>, ParseError>(ParseError::BadFormat),
{
    let n = s.len() as int;
    assert(s.take(n) =~= s);
    if !runs_through(s, n) {
        let j = choose|j: int| 0 <= j < n && stops_at(s, j);
        lemma_hex_digits_grow(s, j, n);
        assert(is_hex_digit(s[j]) || is_separator(s[j]));
    }
}

/// A stop has a first stop at or before it.
proof fn lemma_least_stop(s: Seq<char>, i: int)
    requires
        0 <= i < s.len(),
        stops_at(s, i),
    ensures
        exists|k: int| 0 <= k <= i && is_first_stop(s, k),
    decreases i,
{
    if runs_through(s, i) {
        assert(is_first_stop(s, i));
    } else {
        let j = choose|j: int| 0 <= j < i && stops_at(s, j);
        lemma_least_stop(s, j);
    }
}

/// The separators are interchangeable: two texts that differ only in which
/// separator stands where parse to the same result.
pub proof fn lemma_separators_interchangeable(s: Seq<char>, t: Seq<char>)
    requires
        same_but_separators(s, t),
    ensures
        parsed_address(s) == parsed_address(t),
{
    let n = s.len() as int;
    assert forall|i: int| 0 <= i <= n implies hex_digits(s.take(i)) == hex_digits(t.take(i)) by {
        lemma_same_digits(s, t, i);
    }
    assert(s.take(n) =~= s);
    assert(t.take(n) =~= t);
    assert forall|i: int| 0 <= i < n implies stops_at(s, i) == stops_at(t, i) by {
        assert(s[i] == t[i] || (is_separator(s[i]) && is_separator(t[i])));
    }
    if accepted_length(s.len()) && !runs_through(s, n) {
        let j = choose|j: int| 0 <= j < n && stops_at(s, j);
        lemma_least_stop(s, j);
        let i = first_stop(s);
        assert(is_first_stop(s, i));
        assert(is_first_stop(t, i));
        lemma_first_stop_is(t, i);
        assert(s[i] == t[i] || (is_separator(s[i]) && is_separator(t[i])));
    }
}

/// Two texts that differ only in their separators have the same digits in
/// every prefix.
proof fn lemma_same_digits(s: Seq<char>, t: Seq<char>, i: int)
    requires
        same_but_separators(s, t),
        0 <= i <= s.len(),
    ensures
        hex_digits(s.take(i)) == hex_digits(t.take(i)),
    decreases i,
{
    if i == 0 {
        assert(s.take(0) =~= t.take(0));
    } else {
        lemma_same_digits(s, t, i - 1);
        lemma_hex_digits_step(s, i - 1);
        lemma_hex_digits_step(t, i - 1);
        assert(s[i - 1] == t[i - 1] || (is_separator(s[i - 1]) && is_separator(t[i - 1])));
    }
}

/// Parses a textual hardware address.
///
/// The result is exactly `parsed_address` of the text: the six octets in the
/// order written, or the first fault found.
pub fn parse_mac(mac: &str) -> (r: Result<[u8; 6], ParseError>)
    ensures
        match r {
            Ok(a) => parsed_address(mac@) == Ok::<Seq<u8>, ParseError>(a@),
            Err(e) => parsed_address(mac@) == Err::<Seq<u8>, ParseError>(e),
        },
{
    let len: usize = mac.unicode_len();
    if !(len == 12 || len == 14 || len == 17) {
        return Err(ParseError::BadLength(len));
    }
    let mut eui: [u8; 6] = [0u8; 6];
    // whether the high nibble of the current octet has been read
    let mut high_nibble: bool = false;
    // the octet that the next digit belongs to
    let mut offset: usize = 0;
    let mut idx: usize = 0;
    let ghost s = mac@;
    proof {
        reveal(Seq::filter);
        assert(s.take(0) =~= Seq::<char>::empty());
    }
    while idx < len
        invariant
            s == mac@,
            len == s.len(),
            accepted_length(s.len()),
            0 <= idx <= len,
            runs_through(s, idx as int),
            hex_digits(s.take(idx as int)).len() <= 12,
            offset == hex_digits(s.take(idx as int)).len() / 2,
            high_nibble == (hex_digits(s.take(idx as int)).len() % 2 == 1),
            forall|k: int| 0 <= k < offset ==> eui[k] == octet(hex_digits(s.take(idx as int)), k),
            high_nibble ==> eui[offset as int] == hex_value(
                hex_digits(s.take(idx as int))[2 * offset],
            ) * 16,
        decreases len - idx,
    {
        let ghost d = hex_digits(s.take(idx as int));
        proof {
            lemma_hex_digits_step(s, idx as int);
            lemma_hex_digits_are_digits(s.take(idx as int));
        }
        if offset >= EUI48_LEN {
            proof {
                lemma_first_stop_is(s, idx as int);
            }
            return Err(ParseError::BadFormat);
        }
        let c: char = mac.get_char(idx);
        match classify(c) {
            CharClass::Digit(v) => {
                if high_nibble {
                    let high: u8 = eui[offset];
                    eui[offset] = high + v;
                    high_nibble = false;
                    offset += 1;
                } else {
                    assert(v << 4 == v * 16) by (bit_vector)
                        requires
                            v < 16,
                    ;
                    eui[offset] = v << 4;
                    high_nibble = true;
                }
            },
            CharClass::Separator => {},
            CharClass::Other => {
                proof {
                    lemma_first_stop_is(s, idx as int);
                }
                return Err(ParseError::BadCharacter(c, idx));
            },
        }
        idx += 1;
    }
    proof {
        assert(s.take(idx as int) =~= s);
    }
    if offset != EUI48_LEN {
        return Err(ParseError::BadFormat);
    }
    proof {
        assert(eui@ =~= octets(hex_digits(s)));
    }
    Ok(eui)
}

} // verus!
