//! The hash used for leaves and internal nodes alike: SHA-256 over the raw
//! bytes of two strings concatenated without a separator, rendered as a
//! lowercase hexadecimal string.

use sha2::Digest;
use vstd::prelude::*;

verus! {

use vstd::string::StringSliceAdditionalSpecFns;
use vstd::utf8::encode_utf8;

/// The SHA-256 digest of a byte sequence, left abstract: whatever 32 bytes
/// the hash function produces for that input.
pub uninterp spec fn sha256_of(bytes: Seq<u8>) -> Seq<u8>;

/// The lowercase hexadecimal digit for a value below sixteen.
pub open spec fn hex_digit(n: u8) -> char
    recommends
        n < 16,
{
    if n < 10 {
        ((n + 48) as u8) as char
    } else {
        ((n + 87) as u8) as char
    }
}

/// Lowercase hexadecimal encoding: two digits per byte, high nibble first.
pub open spec fn hex_of(bytes: Seq<u8>) -> Seq<char>
    decreases bytes.len(),
{
    if bytes.len() == 0 {
        Seq::empty()
    } else {
        seq![hex_digit(bytes[0] / 16), hex_digit(bytes[0] % 16)] + hex_of(bytes.skip(1))
    }
}

/// The digest of a pair of strings: SHA-256 over the UTF-8 bytes of `left`
/// followed immediately by those of `right`, as lowercase hex.
pub open spec fn hash_pair_spec(left: Seq<char>, right: Seq<char>) -> Seq<char> {
    hex_of(sha256_of(encode_utf8(left) + encode_utf8(right)))
}

/// Relies on sha2's `Sha256`: `Digest::update` absorbs each slice in order,
/// so `finalize` returns the 32-byte SHA-256 digest of their concatenation.
#[verifier::external_body]
fn sha256_concat(left: &[u8], right: &[u8]) -> (r: Vec<u8>)
    ensures
        r@ == sha256_of(left@ + right@),
        r@.len() == 32,
{
    let mut hasher = sha2::Sha256::new();
    hasher.update(left);
    hasher.update(right);
    hasher.finalize().to_vec()
}

/// Relies on hex::encode: lowercase hexadecimal, high nibble before low.
#[verifier::external_body]
fn hex_lower(bytes: &[u8]) -> (r: String)
    ensures
        r@ == hex_of(bytes@),
{
    hex::encode(bytes)
}

/// Hashes two strings together: SHA-256 over the bytes of `left` followed by
/// the bytes of `right`, returned as a 64-character lowercase hex string.
pub fn hash_pair(left: &str, right: &str) -> (r: String)
    ensures
        r@ == hash_pair_spec(left@, right@),
{
    let digest = sha256_concat(left.as_bytes(), right.as_bytes());
    hex_lower(digest.as_slice())
}

} // verus!
