use vstd::prelude::*;

pub mod codec;
pub mod config;
pub mod engine;
pub mod hashes;
pub mod secret;
pub mod text;
pub mod uri;

verus! {

/// Hash algorithms available for HMAC-based code derivation.
#[derive(Clone, Copy, PartialEq, Eq, Structural, Debug)]
pub enum HashAlgorithm {
    Sha1,
    Sha256,
    Sha512,
}

/// Errors surfaced by the engine; none are swallowed internally.
#[derive(Clone, Copy, PartialEq, Eq, Structural, Debug)]
pub enum TotpError {
    /// No configuration exists yet; a normal first-run state.
    NotFound,
    /// A configuration file exists but does not parse, or breaks an invariant.
    Corrupt,
    /// The configuration could not be written.
    IoError,
    /// A URI or QR payload could not be constructed.
    EncodingError,
    /// A verification was attempted with an invalid (zero) timestamp.
    InvalidTime,
    /// The operating system's secure random source failed.
    EntropyFailure,
}

/// The persisted entity: algorithm parameters plus the shared secret.
#[derive(Debug, PartialEq)]
pub struct TotpConfig {
    pub algorithm: HashAlgorithm,
    pub digits: u32,
    pub step_seconds: u64,
    pub skew_steps: u32,
    pub secret: Vec<u8>,
}

/// Number of bytes of a freshly generated shared secret (160 bits).
pub const SECRET_LEN: usize = 20;

impl TotpConfig {
    /// Well-formedness: the invariants every stored or loaded config obeys.
    pub open spec fn wf(&self) -> bool {
        &&& 6 <= self.digits <= 8
        &&& self.step_seconds >= 1
        &&& self.secret@.len() == SECRET_LEN
    }
}

} // verus!
