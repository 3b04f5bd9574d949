//! What a threshold key asks of the keys it is made of.

use vstd::prelude::*;
use crate::error::{CryptoError, EncodingError};

verus! {

/// How the signed bytes of a transaction were put together. A threshold key
/// hands the mode on to its members and does not look at it.
#[derive(Debug, Clone, Copy, PartialEq, Eq)]
pub enum SignMode {
    /// No mode was given.
    Unspecified,
    /// The binary form of the transaction was signed.
    Direct,
    /// A textual form of the transaction was signed.
    Textual,
    /// The legacy JSON form of the transaction was signed.
    LegacyAminoJson,
}

/// A public key with a canonical byte encoding.
///
/// `amino` stands in contracts only and is never run. What is proved of a
/// threshold key holds for members whose `amino_bytes` computes what their
/// `amino` says.
pub trait CosmosAminoPubkey {
    /// The canonical bytes of the key, if it has any. They depend on the key alone.
    spec fn amino(&self) -> Option<Seq<u8>>;

    /// Computes the canonical bytes of the key.
    fn amino_bytes(&self) -> (r: Result<Vec<u8>, EncodingError>)
        ensures
            match r {
                Ok(bytes) => self.amino() == Some(bytes@),
                Err(_) => self.amino() is None,
            },
    ;
}

/// A public key that can check a signature over a message.
///
/// `accepts` stands in contracts only and is never run. What is proved of a
/// threshold key holds for members whose `verify_bytes` answers as their
/// `accepts` says: the same for the same message, signature and mode, every
/// time.
pub trait VerifyingKey {
    /// Whether `sig` is a signature of this key over `bytes` under `sign_mode`.
    /// The answer depends on the key and these three alone.
    spec fn accepts(&self, bytes: Seq<u8>, sig: Seq<u8>, sign_mode: SignMode) -> bool;

    /// Checks `sig` against `bytes`; `Ok` says that the key accepts it.
    fn verify_bytes(&self, bytes: &[u8], sig: &[u8], sign_mode: SignMode) -> (r: Result<
        (),
        CryptoError,
    >)
        ensures
            r is Ok <==> self.accepts(bytes@, sig@, sign_mode),
    ;
}

} // verus!
