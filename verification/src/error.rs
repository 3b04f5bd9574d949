//! The ways in which decoding, verification and encoding fail.

use vstd::prelude::*;

verus! {

/// Why a multisignature was not accepted.
///
/// Every failure to establish that enough members signed is one and the same
/// `VerificationError`: a caller cannot tell a wrong signature from a missing one.
#[derive(Debug, Clone, Copy, PartialEq, Eq)]
pub enum CryptoError {
    /// The signature blob is not a well-formed list of signature records.
    ParsingError,
    /// The signatures do not show that the threshold was met.
    VerificationError,
}

/// What was to be encoded has no encoding: a member key without canonical
/// bytes, or a length without a delimiter.
#[derive(Debug, Clone, Copy, PartialEq, Eq)]
pub struct EncodingError;

} // verus!
