//! Bytes as lower-case hexadecimal text.

use vstd::prelude::*;
use vstd::utf8::{encode_utf8, is_ascii_chars, is_ascii_chars_encode_utf8};
use crate::evidence::{is_lower_hex, is_sha256_text};

verus! {

/// The lower-case hexadecimal digit for a value below 16.
pub open spec fn hex_digit(n: nat) -> char {
    if n < 10 {
        ((0x30 + n) as u8) as char
    } else {
        ((0x57 + n) as u8) as char
    }
}

/// The hexadecimal text of a run of bytes: two digits for each byte, the high half first.
pub open spec fn hex_chars(bytes: Seq<u8>) -> Seq<char> {
    Seq::new(
        2 * bytes.len(),
        |i: int|
            if i % 2 == 0 {
                hex_digit((bytes[i / 2] / 16) as nat)
            } else {
                hex_digit((bytes[i / 2] % 16) as nat)
            },
    )
}

/// Calls `hex::encode`. Trusted: each byte is written as two hexadecimal digits, high
/// half first, with the letters in lower case.
#[verifier::external_body]
pub(crate) fn hex_of(bytes: &[u8]) -> (text: String)
    ensures
        text@ == hex_chars(bytes@),
{
    hex::encode(bytes)
}

/// The hexadecimal text of a 32-byte digest.
pub fn digest_hex(digest: &[u8; 32]) -> (text: String)
    ensures
        text@ == hex_chars(digest@),
{
    hex_of(digest.as_slice())
}


/// The hexadecimal text of 32 bytes is, as UTF-8, the text of a SHA-256 digest: 64
/// lower-case hexadecimal digits.
pub proof fn lemma_hex_of_digest_is_sha256_text(bytes: Seq<u8>)
    requires
        bytes.len() == 32,
    ensures
        is_sha256_text(encode_utf8(hex_chars(bytes))),
{
    let text = hex_chars(bytes);
    assert forall|i: int| 0 <= i < text.len() implies '\0' <= #[trigger] text[i] <= '\u{7f}'
        && is_lower_hex(text[i] as u8) by {
        let half = if i % 2 == 0 {
            (bytes[i / 2] / 16) as nat
        } else {
            (bytes[i / 2] % 16) as nat
        };
        assert(half < 16);
        assert(text[i] == hex_digit(half));
    }
    assert(is_ascii_chars(text));
    is_ascii_chars_encode_utf8(text);
    let utf8 = encode_utf8(text);
    assert forall|i: int| 0 <= i < 64 implies is_lower_hex(#[trigger] utf8[i]) by {
        assert(text[i] as u8 == utf8[i]);
    }
}

} // verus!
