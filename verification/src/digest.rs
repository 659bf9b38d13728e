//! SHA-256 verification of downloaded firmware artifacts.

use vstd::prelude::*;

use crate::oracle::{hex_lower, hex_of};
use crate::sync_file::bytes_eq;
use sha2::Digest;

verus! {

/// The SHA-256 digest of a byte string; a pure function of the bytes.
pub uninterp spec fn sha256_of(data: Seq<u8>) -> Seq<u8>;

/// Relies on sha2::Sha256 (via sha2::Digest::digest): the 32-byte digest
/// depends on the input bytes alone.
#[verifier::external_body]
fn sha256_digest(data: &Vec<u8>) -> (r: Vec<u8>)
    ensures
        r@ == sha256_of(data@),
        r@.len() == 32,
{
    sha2::Sha256::digest(data.as_slice()).to_vec()
}

/// Whether the data's SHA-256, in lowercase hex, equals the expected hex
/// string (given as ASCII codes). A mismatched artifact is discarded by
/// the caller.
pub fn verify_sha256(data: &Vec<u8>, expected_hex: &Vec<u8>) -> (r: bool)
    ensures
        r <==> hex_of(sha256_of(data@)) == expected_hex@,
{
    let digest = sha256_digest(data);
    let actual = hex_lower(&digest);
    bytes_eq(&actual, expected_hex)
}

} // verus!
