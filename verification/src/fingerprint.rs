//! The cryptographic fingerprint of an image file.

use vstd::prelude::*;
use sha2::Digest;
use vstd::utf8::encode_utf8;
use crate::evidence::is_sha256_text;
use crate::hex_text::{hex_chars, hex_of, lemma_hex_of_digest_is_sha256_text};

verus! {

/// SHA-256 of a byte string.
pub uninterp spec fn sha256_hash(input: Seq<u8>) -> Seq<u8>;

/// Calls `sha2::Sha256::digest` and copies the 32 output bytes out. Trusted: the
/// result is the SHA-256 digest of exactly the bytes of `input`.
#[verifier::external_body]
pub(crate) fn sha256_of(input: &[u8]) -> (out: [u8; 32])
    ensures
        out@ == sha256_hash(input@),
{
    sha2::Sha256::digest(input).into()
}

/// The fingerprints of an image: the SHA-256 of the file's bytes as 64 lower-case
/// hexadecimal digits, as a record takes it, and the perceptual hash that the caller
/// computed from the decoded picture, handed through as it is.
pub fn generate_fingerprints(image_bytes: &[u8], perceptual_hash: String) -> (prints: (
    String,
    String,
))
    ensures
        prints.0@ == hex_chars(sha256_hash(image_bytes@)),
        is_sha256_text(encode_utf8(prints.0@)),
        prints.1 == perceptual_hash,
{
    let digest = sha256_of(image_bytes);
    proof {
        lemma_hex_of_digest_is_sha256_text(digest@);
    }
    (hex_of(digest.as_slice()), perceptual_hash)
}

} // verus!
