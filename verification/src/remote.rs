//! Remote object checking: whether a backend listing shows an object under
//! an exact key, and the stricter variant that also holds the object's size
//! and integrity tag against the local file's size and content digest.

use vstd::prelude::*;
use sha2::Digest;
use crate::text::{remove_quotes, str_eq, strip_quotes};

verus! {

/// Whether a backend listing shows an object stored under exactly `target`.
/// Listings are prefix matches, so only an exact key match counts as
/// existence.
pub fn key_exists_in_listing(keys: &Vec<String>, target: &String) -> (r: bool)
    ensures
        r == (exists|i: int| 0 <= i < keys@.len() && keys@[i]@ == target@),
{
    let n = keys.len();
    let mut i: usize = 0;
    while i < n
        invariant
            n == keys@.len(),
            0 <= i <= n,
            forall|k: int| 0 <= k < i ==> keys@[k]@ != target@,
        decreases n - i,
    {
        if keys[i] == *target {
            return true;
        }
        i = i + 1;
    }
    false
}

/// The hexadecimal SHA-256 digest of a byte sequence: a function of the
/// bytes alone, computed by the outside hasher.
pub uninterp spec fn sha256_hex_of(data: Seq<u8>) -> Seq<char>;

/// Relies on sha2::Sha256 through the Digest trait: hashes the bytes and
/// formats the 32-byte digest as 64 lowercase hexadecimal characters.
#[verifier::external_body]
fn sha256_hex(data: &Vec<u8>) -> (r: String)
    ensures
        r@ == sha256_hex_of(data@),
        r@.len() == 64,
{
    let mut hasher = sha2::Sha256::new();
    hasher.update(data.as_slice());
    format!("{:x}", hasher.finalize())
}

/// Whether a backend integrity tag, stripped of the double quotes it
/// arrives wrapped in, equals the given digest string.
pub fn hash_matches_etag(etag: &str, digest_hex: &String) -> (r: bool)
    ensures
        r == (remove_quotes(etag@) == digest_hex@),
{
    let stripped = strip_quotes(etag);
    str_eq(stripped.as_str(), digest_hex.as_str())
}

/// Whether a backend integrity tag matches the SHA-256 digest of the local
/// file's content.
pub fn content_matches_etag(etag: &str, content: &Vec<u8>) -> (r: bool)
    ensures
        r == (remove_quotes(etag@) == sha256_hex_of(content@)),
{
    let digest_hex = sha256_hex(content);
    hash_matches_etag(etag, &digest_hex)
}

/// Whether a listed object is a candidate under the strict existence check:
/// stored under exactly `target` and of exactly the local file's size.
pub fn object_candidate_matches(key: &String, size: u64, target: &String, file_size: u64) -> (r:
    bool)
    ensures
        r == (key@ == target@ && size == file_size),
{
    *key == *target && size == file_size
}

} // verus!
