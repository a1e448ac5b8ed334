//! The 64-symbol base64 alphabet and its two lookup directions.
use vstd::prelude::*;

verus! {

/// The ASCII byte of the base64 character with code `i` (for `0 <= i < 64`).
pub open spec fn alphabet_byte(i: int) -> u8 {
    if i < 26 {
        (65 + i) as u8
    } else if i < 52 {
        (97 + (i - 26)) as u8
    } else if i < 62 {
        (48 + (i - 52)) as u8
    } else if i == 62 {
        43u8
    } else {
        47u8
    }
}

/// Whether byte `b` is one of the 64 alphabet characters.
pub open spec fn is_alphabet(b: u8) -> bool {
    (65 <= b <= 90) || (97 <= b <= 122) || (48 <= b <= 57) || b == 43 || b == 47
}

/// The code of an alphabet byte.
pub open spec fn code_of(b: u8) -> int {
    if 65 <= b <= 90 {
        b - 65
    } else if 97 <= b <= 122 {
        b - 97 + 26
    } else if 48 <= b <= 57 {
        b - 48 + 52
    } else if b == 43 {
        62
    } else {
        63
    }
}

/// Forward map: the code of an alphabet character, `None` for any other byte.
pub fn forward(b: u8) -> (r: Option<u8>)
    ensures
        r == (if is_alphabet(b) { Some(code_of(b) as u8) } else { None::<u8> }),
        r matches Some(c) ==> c < 64,
{
    if 65 <= b && b <= 90 {
        Some(b - 65)
    } else if 97 <= b && b <= 122 {
        Some(b - 97 + 26)
    } else if 48 <= b && b <= 57 {
        Some(b - 48 + 52)
    } else if b == 43 {
        Some(62)
    } else if b == 47 {
        Some(63)
    } else {
        None
    }
}

/// Reverse map: the alphabet character of a code, `None` for a code of 64 or more.
pub fn reverse(code: u8) -> (r: Option<u8>)
    ensures
        r == (if code < 64 { Some(alphabet_byte(code as int)) } else { None::<u8> }),
{
    if code < 26 {
        Some(65 + code)
    } else if code < 52 {
        Some(97 + (code - 26))
    } else if code < 62 {
        Some(48 + (code - 52))
    } else if code == 62 {
        Some(43)
    } else if code == 63 {
        Some(47)
    } else {
        None
    }
}

/// Every code names an alphabet character, and that character maps back to the code.
pub proof fn lemma_code_round_trip(i: int)
    requires
        0 <= i < 64,
    ensures
        is_alphabet(alphabet_byte(i)),
        code_of(alphabet_byte(i)) == i,
{
}

/// Every alphabet character is the character of its own code.
pub proof fn lemma_char_round_trip(b: u8)
    requires
        is_alphabet(b),
    ensures
        0 <= code_of(b) < 64,
        alphabet_byte(code_of(b)) == b,
{
}

/// Looking a code up in the reverse map and the result in the forward map
/// gives the code back; the other way round gives the character back.
pub proof fn lemma_lookup_round_trip(i: u8)
    requires
        i < 64,
    ensures
        is_alphabet(alphabet_byte(i as int)),
        code_of(alphabet_byte(i as int)) == i,
        alphabet_byte(code_of(alphabet_byte(i as int))) == alphabet_byte(i as int),
{
    lemma_code_round_trip(i as int);
}

} // verus!
