use vstd::prelude::*;

use crate::{HashAlgorithm, TotpConfig, TotpError, SECRET_LEN};

verus! {

/// Relies on getrandom::fill: on success the whole buffer holds bytes from
/// the operating system's secure random source. Nothing can be promised of
/// the bytes' values; the buffer's length is never changed.
#[verifier::external_body]
fn fill_random(buf: &mut Vec<u8>) -> (r: Result<(), ()>)
    ensures
        final(buf)@.len() == old(buf)@.len(),
{
    match getrandom::fill(buf.as_mut_slice()) {
        Ok(()) => Ok(()),
        Err(_) => Err(()),
    }
}

/// Draw `length` bytes from the operating system's secure random source.
/// When the source is unavailable the caller receives `EntropyFailure` and
/// must abort: proceeding with weak randomness is unacceptable for a
/// credential secret.
pub fn generate_secret(length: usize) -> (r: Result<Vec<u8>, TotpError>)
    ensures
        r matches Ok(v) ==> v@.len() == length,
        r matches Err(e) ==> e == TotpError::EntropyFailure,
{
    let mut buf: Vec<u8> = vec![0u8; length];
    match fill_random(&mut buf) {
        Ok(()) => Ok(buf),
        Err(()) => Err(TotpError::EntropyFailure),
    }
}

/// Assemble a configuration around a fresh secret with this system's fixed
/// parameters: HMAC-SHA-1, six digits, 30-second steps, one step of skew.
pub fn new_default_config(secret: Vec<u8>) -> (r: TotpConfig)
    requires
        secret@.len() == SECRET_LEN,
    ensures
        r.wf(),
        r.algorithm == HashAlgorithm::Sha1,
        r.digits == 6,
        r.step_seconds == 30,
        r.skew_steps == 1,
        r.secret@ == secret@,
{
    TotpConfig { algorithm: HashAlgorithm::Sha1, digits: 6, step_seconds: 30, skew_steps: 1, secret }
}

} // verus!
