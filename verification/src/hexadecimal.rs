//! Bytes as hexadecimal text.

use vstd::prelude::*;

verus! {

/// The lower-case digit for a value below sixteen.
pub open spec fn hex_digit(v: int) -> char {
    if v < 10 {
        (48 + v) as char
    } else {
        (87 + v) as char
    }
}

/// The lower-case hexadecimal text of a byte string, two digits per byte.
pub open spec fn hex_of(data: Seq<u8>) -> Seq<char> {
    Seq::new(
        data.len() * 2,
        |i: int| hex_digit(if i % 2 == 0 { data[i / 2] as int / 16 } else { data[i / 2] as int % 16 }),
    )
}

/// Whether a character is a hexadecimal digit of either case.
pub open spec fn is_hex_digit(c: char) -> bool {
    '0' <= c <= '9' || 'a' <= c <= 'f' || 'A' <= c <= 'F'
}

/// The value of a hexadecimal digit.
pub open spec fn hex_digit_value(c: char) -> int {
    if '0' <= c <= '9' {
        c as int - 48
    } else if 'a' <= c <= 'f' {
        c as int - 87
    } else {
        c as int - 55
    }
}

/// The bytes that hexadecimal text stands for: an even number of digits.
pub open spec fn hex_bytes(text: Seq<char>) -> Option<Seq<u8>> {
    if text.len() % 2 == 0 && forall|i: int| 0 <= i < text.len() ==> is_hex_digit(#[trigger] text[i]) {
        Some(
            Seq::new(
                text.len() / 2,
                |i: int| (16 * hex_digit_value(text[2 * i]) + hex_digit_value(text[2 * i + 1])) as u8,
            ),
        )
    } else {
        None
    }
}

/// `hex::encode`: two lower-case digits per byte.
#[verifier::external_body]
pub(crate) fn hex_encode(data: &[u8]) -> (out: String)
    ensures
        out@ == hex_of(data@),
{
    hex::encode(data)
}

/// `hex::decode`: an even number of digits of either case gives the bytes;
/// any other text is refused.
#[verifier::external_body]
pub(crate) fn hex_decode(text: &str) -> (out: Option<Vec<u8>>)
    ensures
        match out {
            Some(data) => hex_bytes(text@) == Some(data@),
            None => hex_bytes(text@) is None,
        },
{
    hex::decode(text).ok()
}

/// Decoding encoded bytes gives the bytes back.
pub proof fn law_hex_roundtrip(data: Seq<u8>)
    ensures
        hex_bytes(hex_of(data)) == Some(data),
{
    let text = hex_of(data);
    assert forall|i: int| 0 <= i < text.len() implies is_hex_digit(#[trigger] text[i]) && hex_digit_value(
        text[i],
    ) == (if i % 2 == 0 { data[i / 2] as int / 16 } else { data[i / 2] as int % 16 }) by {
        let v = if i % 2 == 0 { data[i / 2] as int / 16 } else { data[i / 2] as int % 16 };
        assert(0 <= v < 16);
        assert(text[i] == hex_digit(v));
    }
    let back = hex_bytes(text).unwrap();
    assert forall|i: int| 0 <= i < data.len() implies back[i] == data[i] by {
        assert(is_hex_digit(text[2 * i]));
        assert(is_hex_digit(text[2 * i + 1]));
        assert((2 * i) / 2 == i && (2 * i + 1) / 2 == i);
        assert((2 * i) % 2 == 0 && (2 * i + 1) % 2 == 1);
    }
    assert(back =~= data);
}

} // verus!
