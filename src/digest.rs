//! SHA-256 digests rendered as hex strings, the hash of the tree.
use vstd::prelude::*;

use crypto::digest::Digest;
use crypto::sha2::Sha256;

verus! {

/// Hex rendering of the SHA-256 digest of a byte string.
pub uninterp spec fn sha256_hex(bytes: Seq<u8>) -> Seq<char>;

/// Hex rendering of the SHA-256 digest of the UTF-8 encoding of a text.
pub uninterp spec fn sha256_hex_of_text(text: Seq<char>) -> Seq<char>;

/// Hash of an interior node: the digest of the two hex renderings of its
/// children, one after the other.
pub open spec fn node_hash(left: Seq<char>, right: Seq<char>) -> Seq<char> {
    sha256_hex_of_text(left + right)
}

/// Relies on rust-crypto's `Sha256` through `Digest::input` and
/// `Digest::result_str`: the hex rendering of the 32-byte digest of `bytes`,
/// two characters per byte.
#[verifier::external_body]
pub(crate) fn digest_bytes(bytes: &[u8]) -> (r: String)
    ensures
        r@ == sha256_hex(bytes@),
        r@.len() == 64,
{
    let mut hasher = Sha256::new();
    hasher.input(bytes);
    hasher.result_str()
}

/// Relies on rust-crypto's `Sha256` through `Digest::input_str` and
/// `Digest::result_str`: the hex rendering of the 32-byte digest of the
/// UTF-8 bytes of `text`, two characters per byte.
#[verifier::external_body]
pub(crate) fn digest_text(text: &str) -> (r: String)
    ensures
        r@ == sha256_hex_of_text(text@),
        r@.len() == 64,
{
    let mut hasher = Sha256::new();
    hasher.input_str(text);
    hasher.result_str()
}

/// Hash of an interior node from the hashes of its two children.
pub fn hash_two_strings(s1: &str, s2: &str) -> (r: String)
    ensures
        r@ == node_hash(s1@, s2@),
        r@.len() == 64,
{
    let joined = s1.to_owned().concat(s2);
    digest_text(joined.as_str())
}

} // verus!
