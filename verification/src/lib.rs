//! Threshold multisignature public keys: the canonical byte encoding of a key,
//! the account address derived from it, the wire format of a signature set, and
//! the decision whether a message was signed by enough distinct members.
//!
//! - [`multisig`] holds the key itself: its canonical bytes, its address, and
//!   the verification of a signature blob against it.
//! - [`signature`] decodes and encodes signature blobs.
//! - [`attribution`] gives each signature to a member that accepts it, no
//!   member twice; [`threshold_laws`] states what follows from that.
//! - [`traits`] says what is asked of a member key. A threshold key meets it
//!   too, so that threshold keys can be members of threshold keys.
//! - [`varint`] and [`record`] are the two layers of the wire format.
//! - [`address`] derives addresses from canonical bytes.
//!
//! Everything here is verified but for three calls into other crates, which
//! are believed to do what their contracts say: `prost` writes varints and
//! length delimiters (in [`varint`]), and `sha2` computes SHA-256 (in
//! [`address`]). What is proved of a threshold key further rests on its
//! members doing what [`traits`] asks.

pub mod address;
pub mod attribution;
pub mod error;
pub mod multisig;
pub mod record;
pub mod signature;
pub mod tests_decode_multisig_signature;
pub mod threshold_laws;
pub mod traits;
pub mod varint;
