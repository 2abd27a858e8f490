//! SHA-256 digests and their hexadecimal text.
use sha2::Digest;
use vstd::prelude::*;

use crate::bytes::{all_ascii, ascii, ascii_string, hex_codes, hex_text, lemma_hex_text};

verus! {

/// The SHA-256 digest of a byte string.
pub uninterp spec fn sha256_digest(bytes: Seq<u8>) -> Seq<u8>;

/// `sha2::Sha256::digest`: the 32-byte digest, a function of the bytes alone.
#[verifier::external_body]
pub(crate) fn sha256(bytes: &[u8]) -> (digest: [u8; 32])
    ensures
        digest@ == sha256_digest(bytes@),
{
    sha2::Sha256::digest(bytes).into()
}

/// The lowercase hexadecimal SHA-256 digest of a byte string.
pub open spec fn sha256_hex(bytes: Seq<u8>) -> Seq<char> {
    ascii(hex_text(sha256_digest(bytes)))
}

/// The lowercase hexadecimal SHA-256 digest of `bytes`, as ASCII codes.
pub fn sha256_codes(bytes: &[u8]) -> (codes: Vec<u8>)
    ensures
        codes@ == hex_text(sha256_digest(bytes@)),
        codes@.len() == 64,
        all_ascii(codes@),
{
    let digest: [u8; 32] = sha256(bytes);
    proof {
        lemma_hex_text(digest@);
    }
    hex_codes(digest.as_slice())
}

/// The lowercase hexadecimal SHA-256 digest of `bytes`.
pub fn hex_sha256(bytes: &[u8]) -> (text: String)
    ensures
        text@ == sha256_hex(bytes@),
        text@.len() == 64,
{
    ascii_string(sha256_codes(bytes))
}

} // verus!
