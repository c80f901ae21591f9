//! Hex strings at the boundary: roots and addresses travel as lowercase
//! hex, and are decoded back to raw bytes before any hashing.

use vstd::prelude::*;

verus! {

/// An ASCII hex digit, either case.
pub open spec fn is_hex_digit(c: char) -> bool {
    ||| '0' as u32 <= c as u32 <= '9' as u32
    ||| 'a' as u32 <= c as u32 <= 'f' as u32
    ||| 'A' as u32 <= c as u32 <= 'F' as u32
}

/// The value of one hex digit.
pub open spec fn hex_digit_value(c: char) -> int {
    if '0' as u32 <= c as u32 <= '9' as u32 {
        c as u32 - '0' as u32
    } else if 'a' as u32 <= c as u32 <= 'f' as u32 {
        c as u32 - 'a' as u32 + 10
    } else {
        c as u32 - 'A' as u32 + 10
    }
}

/// A well-formed hex string: even length, hex digits only.
pub open spec fn hex_decodable(s: Seq<char>) -> bool {
    s.len() % 2 == 0 && (forall|i: int| 0 <= i < s.len() ==> is_hex_digit(#[trigger] s[i]))
}

/// The bytes a well-formed hex string denotes, two digits to a byte,
/// high digit first.
pub open spec fn hex_decoded(s: Seq<char>) -> Seq<u8> {
    Seq::new((s.len() / 2) as nat, |i: int| (hex_digit_value(s[2 * i]) * 16 + hex_digit_value(
        s[2 * i + 1],
    )) as u8)
}

/// The lowercase hex digit for a value below 16.
pub open spec fn hex_char(v: int) -> char {
    if v == 0 {
        '0'
    } else if v == 1 {
        '1'
    } else if v == 2 {
        '2'
    } else if v == 3 {
        '3'
    } else if v == 4 {
        '4'
    } else if v == 5 {
        '5'
    } else if v == 6 {
        '6'
    } else if v == 7 {
        '7'
    } else if v == 8 {
        '8'
    } else if v == 9 {
        '9'
    } else if v == 10 {
        'a'
    } else if v == 11 {
        'b'
    } else if v == 12 {
        'c'
    } else if v == 13 {
        'd'
    } else if v == 14 {
        'e'
    } else {
        'f'
    }
}

/// The lowercase hex encoding of bytes: two digits per byte, high first.
pub open spec fn hex_encoding(b: Seq<u8>) -> Seq<char> {
    Seq::new(2 * b.len(), |i: int|
        if i % 2 == 0 {
            hex_char(b[i / 2] as int / 16)
        } else {
            hex_char(b[i / 2] as int % 16)
        },
    )
}

/// Relies on `hex::decode`: it succeeds exactly on even-length strings of
/// hex digits (either case) and returns the bytes they denote; any other
/// input, including one with characters beyond ASCII (whose bytes are
/// never hex digits), is rejected.
#[verifier::external_body]
pub(crate) fn hex_decode(s: &str) -> (r: Option<Vec<u8>>)
    ensures
        r is Some <==> hex_decodable(s@),
        r matches Some(v) ==> v@ == hex_decoded(s@),
{
    hex::decode(s).ok()
}

/// Relies on `hex::encode`: the lowercase hex string of the input bytes,
/// two digits per byte.
#[verifier::external_body]
pub(crate) fn hex_encode(b: &[u8]) -> (r: String)
    ensures
        r@ == hex_encoding(b@),
{
    hex::encode(b)
}

/// Encoding bytes to hex and decoding again returns the same bytes.
pub proof fn lemma_hex_round_trip(b: Seq<u8>)
    ensures
        hex_decodable(hex_encoding(b)),
        hex_decoded(hex_encoding(b)) == b,
{
    let s = hex_encoding(b);
    assert forall|i: int| 0 <= i < s.len() implies is_hex_digit(#[trigger] s[i]) by {
        if i % 2 == 0 {
            assert(0 <= b[i / 2] as int / 16 < 16);
        } else {
            assert(0 <= b[i / 2] as int % 16 < 16);
        }
    }
    assert forall|i: int| 0 <= i < b.len() implies hex_decoded(s)[i] == b[i] by {
        assert(s[2 * i] == hex_char(b[i] as int / 16));
        assert(s[2 * i + 1] == hex_char(b[i] as int % 16));
        assert(hex_digit_value(hex_char(b[i] as int / 16)) == b[i] as int / 16);
        assert(hex_digit_value(hex_char(b[i] as int % 16)) == b[i] as int % 16);
    }
    assert(hex_decoded(s) =~= b);
}

} // verus!
