//! Content hashes in the `"sha256:<hex>"` form used by the lockfile.
use sha2::Digest;
use vstd::prelude::*;

verus! {

/// The SHA-256 digest of `bytes`, as `sha2::Sha256::digest` computes it.
pub uninterp spec fn sha256(bytes: Seq<u8>) -> Seq<u8>;

/// Calls `sha2::Sha256::digest`; the digest has 32 bytes.
#[verifier::external_body]
pub(crate) fn sha256_digest(bytes: &[u8]) -> (r: Vec<u8>)
    ensures
        r@ == sha256(bytes@),
        r@.len() == 32,
{
    sha2::Sha256::digest(bytes).to_vec()
}

/// The lowercase hexadecimal digit of `d`.
pub open spec fn hex_digit(d: u8) -> char {
    if d < 10 {
        (48 + d) as char
    } else {
        (87 + d) as char
    }
}

/// Two lowercase hexadecimal digits per byte, high nibble first.
pub open spec fn hex_chars(bytes: Seq<u8>) -> Seq<char>
    decreases bytes.len(),
{
    if bytes.len() == 0 {
        Seq::empty()
    } else {
        seq![hex_digit(bytes[0] / 16), hex_digit(bytes[0] % 16)] + hex_chars(bytes.drop_first())
    }
}

/// Calls `hex::encode`, which writes each byte as two lowercase hexadecimal
/// digits, high nibble first.
#[verifier::external_body]
pub(crate) fn hex_encode(bytes: &[u8]) -> (r: String)
    ensures
        r@ == hex_chars(bytes@),
{
    hex::encode(bytes)
}

/// Two hexadecimal digits per byte.
pub proof fn lemma_hex_chars_len(bytes: Seq<u8>)
    ensures
        hex_chars(bytes).len() == 2 * bytes.len(),
    decreases bytes.len(),
{
    if bytes.len() > 0 {
        lemma_hex_chars_len(bytes.drop_first());
    }
}

/// `"sha256:"` followed by the hexadecimal SHA-256 digest of `bytes`.
pub open spec fn sha256_label(bytes: Seq<u8>) -> Seq<char> {
    "sha256:"@ + hex_chars(sha256(bytes))
}

/// Returns `"sha256:<hex>"` of `bytes` (in-memory hashing).
pub fn hash_bytes(bytes: &[u8]) -> (r: String)
    ensures
        r@ == sha256_label(bytes@),
        r@.len() == 71,
{
    let digest = sha256_digest(bytes);
    let hex = hex_encode(digest.as_slice());
    proof {
        lemma_hex_chars_len(digest@);
        reveal_strlit("sha256:");
    }
    crate::text::concat("sha256:", hex.as_str())
}

} // verus!
