//! Content hashes and fresh identifiers.
//!
//! The hash of a byte string is the base64 text of its SHA-256 digest. Both
//! steps are done by outside crates; this module gives their results a name
//! and states the few facts that the rest of the library relies on.

use vstd::prelude::*;
use sha2::Digest;
use base64::Engine;

verus! {

/// The SHA-256 digest of `data`, as `sha2` computes it.
pub uninterp spec fn sha256_of(data: Seq<u8>) -> Seq<u8>;

/// The base64 text of `data` in the standard alphabet with padding, as
/// `base64` writes it.
pub uninterp spec fn base64_of(data: Seq<u8>) -> Seq<char>;

/// The hash of `data` as a manifest records it.
pub open spec fn hash_text(data: Seq<u8>) -> Seq<char> {
    base64_of(sha256_of(data))
}

/// Number of characters of a freshly drawn file id.
pub const FILE_ID_LEN: usize = 36;

/// Whether `c` is a hexadecimal digit in lower case.
pub open spec fn is_lower_hex(c: char) -> bool {
    c == '0' || c == '1' || c == '2' || c == '3' || c == '4' || c == '5' || c == '6' || c == '7'
        || c == '8' || c == '9' || c == 'a' || c == 'b' || c == 'c' || c == 'd' || c == 'e' || c
        == 'f'
}

/// Whether `id` has the form of a file id: 36 characters in groups of 8, 4,
/// 4, 4 and 12 hexadecimal digits in lower case with a hyphen between two
/// groups, the third group starting with `4`.
pub open spec fn is_file_id(id: Seq<char>) -> bool {
    &&& id.len() == FILE_ID_LEN
    &&& forall|i: int|
        0 <= i < id.len() ==> if i == 8 || i == 13 || i == 18 || i == 23 {
            id[i] == '-'
        } else {
            is_lower_hex(#[trigger] id[i])
        }
    &&& id[14] == '4'
}

/// Calls `sha2::Sha256::digest`. Trusted: the result is the SHA-256 digest of
/// `data`, which has 32 bytes.
#[verifier::external_body]
pub(crate) fn sha256(data: &[u8]) -> (digest: Vec<u8>)
    ensures
        digest@ == sha256_of(data@),
        digest@.len() == 32,
{
    sha2::Sha256::digest(data).to_vec()
}

/// Calls `encode` of `base64::engine::general_purpose::STANDARD`. Trusted: the
/// result is the padded base64 text of `data`. The encoder gives up on inputs
/// whose encoded length does not fit a `usize`; those are left out.
#[verifier::external_body]
pub(crate) fn base64_standard(data: &[u8]) -> (text: String)
    requires
        data@.len() <= 0x3000_0000,
    ensures
        text@ == base64_of(data@),
{
    base64::engine::general_purpose::STANDARD.encode(data)
}

/// Calls `uuid::Uuid::new_v4` and writes the result in its hyphenated form.
/// Trusted: that form is the one that `is_file_id` describes. Nothing is
/// claimed of which identifier is drawn.
#[verifier::external_body]
pub(crate) fn fresh_file_id() -> (id: String)
    ensures
        is_file_id(id@),
{
    uuid::Uuid::new_v4().to_string()
}

/// The hash of `data` as a manifest records it.
pub fn content_hash(data: &[u8]) -> (text: String)
    ensures
        text@ == hash_text(data@),
{
    let digest = sha256(data);
    base64_standard(digest.as_slice())
}

/// Whether `data` hashes to `expected`.
pub fn hash_matches(data: &[u8], expected: &String) -> (res: bool)
    ensures
        res == (hash_text(data@) == expected@),
{
    let actual = content_hash(data);
    actual == *expected
}

} // verus!
