//! Error type for Rune operations.
use vstd::prelude::*;

verus! {

/// Errors returned by Rune key, signing, and verification operations.
#[derive(Debug, Clone, Copy, PartialEq, Eq, Structural)]
pub enum RuneError {
    /// Ring size is less than 2.
    RingTooSmall,
    /// Signer index is out of range for the given ring.
    SignerIndexOutOfRange,
    /// Not all public keys in the ring share the same public ring element.
    InconsistentRingParameter,
    /// A signature field has wrong length or structure.
    MalformedSignature,
    /// A supplied challenge polynomial has invalid weight or coefficients.
    MalformedChallenge,
    /// A public key has invalid structure.
    MalformedPublicKey,
    /// Rejection sampling did not terminate within the maximum number of attempts.
    RejectionSamplingFailed,
}

impl RuneError {
    /// Human-readable description of the error.
    pub fn message(&self) -> (r: &'static str)
        ensures
            r@ == match *self {
                RuneError::RingTooSmall => "ring size is less than 2"@,
                RuneError::SignerIndexOutOfRange => "signer index is out of range"@,
                RuneError::InconsistentRingParameter =>
                    "public keys do not share the same ring parameter"@,
                RuneError::MalformedSignature => "signature has malformed structure"@,
                RuneError::MalformedChallenge => "challenge polynomial is malformed"@,
                RuneError::MalformedPublicKey => "public key has malformed structure"@,
                RuneError::RejectionSamplingFailed =>
                    "rejection sampling failed within the attempt limit"@,
            },
    {
        match self {
            RuneError::RingTooSmall => "ring size is less than 2",
            RuneError::SignerIndexOutOfRange => "signer index is out of range",
            RuneError::InconsistentRingParameter => "public keys do not share the same ring parameter",
            RuneError::MalformedSignature => "signature has malformed structure",
            RuneError::MalformedChallenge => "challenge polynomial is malformed",
            RuneError::MalformedPublicKey => "public key has malformed structure",
            RuneError::RejectionSamplingFailed => "rejection sampling failed within the attempt limit",
        }
    }
}

} // verus!
