use vstd::prelude::*;

use crate::HashAlgorithm;
use hmac::{Hmac, KeyInit, Mac};
use sha1::Sha1;
use sha2::{Sha256, Sha512};

verus! {

pub uninterp spec fn hmac_sha1_of(key: Seq<u8>, msg: Seq<u8>) -> Seq<u8>;

pub uninterp spec fn hmac_sha256_of(key: Seq<u8>, msg: Seq<u8>) -> Seq<u8>;

pub uninterp spec fn hmac_sha512_of(key: Seq<u8>, msg: Seq<u8>) -> Seq<u8>;

/// Relies on hmac::Hmac over sha1::Sha1: HMAC-SHA-1 of `msg` keyed with
/// `key`, a pure function of its arguments with a 20-byte digest. HMAC
/// accepts keys of any length, so construction cannot fail.
#[verifier::external_body]
fn hmac_sha1(key: &[u8], msg: &[u8]) -> (r: Vec<u8>)
    ensures
        r@ == hmac_sha1_of(key@, msg@),
        r@.len() == 20,
{
    let mut mac = <Hmac<Sha1> as KeyInit>::new_from_slice(key)
        .expect("HMAC accepts keys of any length");
    mac.update(msg);
    mac.finalize().into_bytes().to_vec()
}

/// Relies on hmac::Hmac over sha2::Sha256: HMAC-SHA-256 of `msg` keyed with
/// `key`, a pure function of its arguments with a 32-byte digest. HMAC
/// accepts keys of any length, so construction cannot fail.
#[verifier::external_body]
fn hmac_sha256(key: &[u8], msg: &[u8]) -> (r: Vec<u8>)
    ensures
        r@ == hmac_sha256_of(key@, msg@),
        r@.len() == 32,
{
    let mut mac = <Hmac<Sha256> as KeyInit>::new_from_slice(key)
        .expect("HMAC accepts keys of any length");
    mac.update(msg);
    mac.finalize().into_bytes().to_vec()
}

/// Relies on hmac::Hmac over sha2::Sha512: HMAC-SHA-512 of `msg` keyed with
/// `key`, a pure function of its arguments with a 64-byte digest. HMAC
/// accepts keys of any length, so construction cannot fail.
#[verifier::external_body]
fn hmac_sha512(key: &[u8], msg: &[u8]) -> (r: Vec<u8>)
    ensures
        r@ == hmac_sha512_of(key@, msg@),
        r@.len() == 64,
{
    let mut mac = <Hmac<Sha512> as KeyInit>::new_from_slice(key)
        .expect("HMAC accepts keys of any length");
    mac.update(msg);
    mac.finalize().into_bytes().to_vec()
}

/// Digest length in bytes of each HMAC variant.
pub open spec fn hmac_output_len(alg: HashAlgorithm) -> nat {
    match alg {
        HashAlgorithm::Sha1 => 20,
        HashAlgorithm::Sha256 => 32,
        HashAlgorithm::Sha512 => 64,
    }
}

/// The HMAC digest of `msg` keyed with `key` under the chosen algorithm.
pub open spec fn spec_hmac(alg: HashAlgorithm, key: Seq<u8>, msg: Seq<u8>) -> Seq<u8> {
    match alg {
        HashAlgorithm::Sha1 => hmac_sha1_of(key, msg),
        HashAlgorithm::Sha256 => hmac_sha256_of(key, msg),
        HashAlgorithm::Sha512 => hmac_sha512_of(key, msg),
    }
}

/// Compute the HMAC digest for the chosen algorithm.
pub fn hmac_digest(alg: HashAlgorithm, key: &[u8], msg: &[u8]) -> (r: Vec<u8>)
    ensures
        r@ == spec_hmac(alg, key@, msg@),
        r@.len() == hmac_output_len(alg),
{
    match alg {
        HashAlgorithm::Sha1 => hmac_sha1(key, msg),
        HashAlgorithm::Sha256 => hmac_sha256(key, msg),
        HashAlgorithm::Sha512 => hmac_sha512(key, msg),
    }
}

} // verus!
