//! Bytes as hexadecimal digits.

use vstd::prelude::*;

verus! {

/// The lower-case digit for a number below 16.
pub open spec fn digit(n: int) -> char {
    if n < 10 {
        ('0' as int + n) as char
    } else {
        ('a' as int + (n - 10)) as char
    }
}

/// Two digits for each byte, the higher half first.
pub open spec fn digits(data: Seq<u8>) -> Seq<char> {
    Seq::new(
        2 * data.len(),
        |i: int|
            if i % 2 == 0 {
                digit(data[i / 2] as int / 16)
            } else {
                digit(data[i / 2] as int % 16)
            },
    )
}

/// The number that a digit stands for, in lower or upper case.
pub open spec fn digit_value(byte: u8) -> Option<int> {
    if 0x30 <= byte <= 0x39 {
        Some(byte - 0x30)
    } else if 0x61 <= byte <= 0x66 {
        Some(byte - 0x61 + 10)
    } else if 0x41 <= byte <= 0x46 {
        Some(byte - 0x41 + 10)
    } else {
        None
    }
}

pub open spec fn all_digits(text: Seq<u8>) -> bool {
    forall|i: int| 0 <= i < text.len() ==> digit_value(#[trigger] text[i]) is Some
}

/// The bytes that pairs of digits stand for.
pub open spec fn digits_value(text: Seq<u8>) -> Seq<u8> {
    Seq::new(
        text.len() / 2,
        |i: int| (16 * digit_value(text[2 * i])->0 + digit_value(text[2 * i + 1])->0) as u8,
    )
}

/// The text is no hexadecimal number of the right length.
#[derive(Clone, Copy, Debug, PartialEq, Eq, Structural)]
pub struct NotHexadecimal;

/// `hex::encode`: two lower-case digits for each byte, the higher half first.
#[verifier::external_body]
pub(crate) fn hex_encode(data: &[u8]) -> (res: String)
    ensures
        res@ == digits(data@),
{
    hex::encode(data)
}

/// `hex::decode_to_slice` into 32 bytes: it succeeds exactly on 64 digits, of either case, and
/// gives the bytes that they stand for, two digits a byte.
#[verifier::external_body]
pub(crate) fn hex_decode(text: &[u8]) -> (res: Result<[u8; 32], NotHexadecimal>)
    ensures
        match res {
            Ok(bytes) => text@.len() == 64 && all_digits(text@) && bytes@ == digits_value(text@),
            Err(_) => !(text@.len() == 64 && all_digits(text@)),
        },
{
    let mut bytes = [0u8; 32];
    hex::decode_to_slice(text, &mut bytes).map(|_| bytes).map_err(|_| NotHexadecimal)
}

/// A checksum as text.
pub fn checksum_text(checksum: &[u8; 32]) -> (res: String)
    ensures
        res@ == digits(checksum@),
{
    hex_encode(checksum.as_slice())
}

proof fn lemma_digit(n: int)
    requires
        0 <= n < 16,
    ensures
        (digit(n) as int) < 128,
        digit_value(digit(n) as u8) == Some(n),
{
}

/// Reading back what was written gives the bytes.
pub proof fn law_digits_round_trip(data: Seq<u8>)
    ensures
        vstd::utf8::encode_utf8(digits(data)).len() == 2 * data.len(),
        all_digits(vstd::utf8::encode_utf8(digits(data))),
        digits_value(vstd::utf8::encode_utf8(digits(data))) == data,
{
    let text = digits(data);
    assert forall|i: int| 0 <= i < text.len() implies 0 <= (#[trigger] text[i] as int) < 128 by {
        lemma_digit(data[i / 2] as int / 16);
        lemma_digit(data[i / 2] as int % 16);
    }
    assert(vstd::utf8::is_ascii_chars(text));
    vstd::utf8::is_ascii_chars_encode_utf8(text);
    let bytes = vstd::utf8::encode_utf8(text);
    assert forall|i: int| 0 <= i < bytes.len() implies digit_value(#[trigger] bytes[i]) == Some(
        if i % 2 == 0 {
            data[i / 2] as int / 16
        } else {
            data[i / 2] as int % 16
        },
    ) by {
        lemma_digit(data[i / 2] as int / 16);
        lemma_digit(data[i / 2] as int % 16);
        assert(bytes[i] == text[i] as u8);
    }
    assert forall|i: int| 0 <= i < data.len() implies #[trigger] digits_value(bytes)[i] == data[i] by {
        assert(digit_value(bytes[2 * i]) == Some(data[i] as int / 16));
        assert(digit_value(bytes[2 * i + 1]) == Some(data[i] as int % 16));
    }
    assert(digits_value(bytes) =~= data);
}

} // verus!
