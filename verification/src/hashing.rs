//! Content keys: identifiers made by hashing.

use vstd::prelude::*;
use vstd::string::StringSliceAdditionalSpecFns;
use sha3::Digest;
use crate::key::Key;

verus! {

/// The BLAKE3 hash of a byte string, 32 bytes.
pub uninterp spec fn blake3_digest(input: Seq<u8>) -> Seq<u8>;

/// The SHA3-256 hash of a byte string, 32 bytes.
pub uninterp spec fn sha3_256_digest(input: Seq<u8>) -> Seq<u8>;

/// Calls `blake3::hash` and hands out the 32 bytes of the `Hash` it returns.
/// Trusted: the bytes are the BLAKE3 hash of the input, a function of the
/// input alone.
#[verifier::external_body]
fn blake3_hash(input: &[u8]) -> (out: [u8; 32])
    ensures
        out@ == blake3_digest(input@),
{
    *blake3::hash(input).as_bytes()
}

/// Calls `Digest::digest` of `sha3::Sha3_256` and hands out its output as a
/// vector. Trusted: the output is the SHA3-256 hash of the input, a function
/// of the input alone, and it is 32 bytes long.
#[verifier::external_body]
fn sha3_256_hash(input: &[u8]) -> (out: Vec<u8>)
    ensures
        out@ == sha3_256_digest(input@),
        out@.len() == 32,
{
    sha3::Sha3_256::digest(input).as_slice().to_vec()
}

/// Copies a slice of 32 bytes into an array.
pub fn clone_into_array(slice: &[u8]) -> (a: [u8; 32])
    requires
        slice@.len() == 32,
    ensures
        a@ == slice@,
{
    let mut a: [u8; 32] = [0u8; 32];
    let mut i: usize = 0;
    while i < 32
        invariant
            i <= 32,
            slice@.len() == 32,
            forall|j: int| 0 <= j < i ==> a@[j] == slice@[j],
        decreases 32 - i,
    {
        a[i] = slice[i];
        i += 1;
    }
    assert(a@ =~= slice@);
    a
}

/// Maps arbitrary content to the key space with BLAKE3. The key depends on
/// the bytes alone: the same input gives the same key in every call and in
/// every process.
pub fn hash_to_key(bytes: &[u8]) -> (key: Key)
    ensures
        key@ == blake3_digest(bytes@),
{
    let hash = blake3_hash(bytes);
    Key(clone_into_array(hash.as_slice()))
}

/// The identifier under which a record with the storage key `key` is kept:
/// the BLAKE3 hash of its UTF-8 bytes.
pub fn get_key(key: &str) -> (id: Key)
    ensures
        id@ == blake3_digest(key.spec_bytes()),
{
    hash_to_key(key.as_bytes())
}

/// The SHA3-256 hash of the UTF-8 bytes of `key`, as an identifier.
pub fn get_key_sha(key: &str) -> (id: Key)
    ensures
        id@ == sha3_256_digest(key.spec_bytes()),
{
    let digest = sha3_256_hash(key.as_bytes());
    Key(clone_into_array(digest.as_slice()))
}

} // verus!
