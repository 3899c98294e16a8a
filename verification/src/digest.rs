//! Cryptographic digests used for index checksums and configuration
//! fingerprints.

use vstd::prelude::*;

verus! {

/// The SHA-256 digest of a byte sequence; the value is a function of the
/// bytes alone.
pub uninterp spec fn sha256_of(data: Seq<u8>) -> Seq<u8>;

/// Relies on openssl::sha::sha256: the 32-byte SHA-256 digest of the input,
/// a function of the input bytes alone.
#[verifier::external_body]
pub(crate) fn sha256(data: &[u8]) -> (r: [u8; 32])
    ensures
        r@ == sha256_of(data@),
{
    openssl::sha::sha256(data)
}

/// The MD5 digest of a byte sequence; the value is a function of the bytes
/// alone.
pub uninterp spec fn md5_of(data: Seq<u8>) -> Seq<u8>;

#[verifier::external_type_specification]
#[verifier::external_body]
pub struct ExErrorStack(openssl::error::ErrorStack);

/// Relies on openssl::hash::hash with MessageDigest::md5: on success, the
/// 16-byte MD5 digest of the input, a function of the input bytes alone.
#[verifier::external_body]
fn md5_digest(data: &[u8]) -> (r: Result<Vec<u8>, openssl::error::ErrorStack>)
    ensures
        r matches Ok(d) ==> d@ == md5_of(data@) && d@.len() == 16,
{
    let d = openssl::hash::hash(openssl::hash::MessageDigest::md5(), data)?;
    Ok(d.to_vec())
}

#[derive(Clone, Copy, Debug, PartialEq, Eq, Structural)]
pub enum CryptoError {
    DigestFailed,
}

/// Shortcut for md5 sums.
pub fn md5sum(data: &[u8]) -> (r: Result<Vec<u8>, CryptoError>)
    ensures
        r matches Ok(d) ==> d@ == md5_of(data@) && d@.len() == 16,
{
    match md5_digest(data) {
        Ok(d) => Ok(d),
        Err(_) => Err(CryptoError::DigestFailed),
    }
}

} // verus!
