//! Account addresses: the first twenty bytes of the SHA-256 digest of a key's
//! canonical bytes.

use sha2::{Digest, Sha256};
use vstd::prelude::*;

verus! {

/// The number of bytes of an address.
pub const ADDRESS_LEN: usize = 20;

/// The SHA-256 digest of `data`.
pub uninterp spec fn sha256(data: Seq<u8>) -> Seq<u8>;

/// The address of a key whose canonical bytes are `amino`.
pub open spec fn address_of(amino: Seq<u8>) -> Seq<u8> {
    sha256(amino).take(ADDRESS_LEN as int)
}

/// An account address in its canonical, binary form.
#[derive(Debug, Clone, PartialEq, Eq)]
pub struct CanonicalAddr(pub Vec<u8>);

impl View for CanonicalAddr {
    type V = Seq<u8>;

    open spec fn view(&self) -> Seq<u8> {
        self.0@
    }
}

impl CanonicalAddr {
    /// The address made of `bytes`.
    pub fn from_vec(bytes: Vec<u8>) -> (addr: Self)
        ensures
            addr@ == bytes@,
    {
        CanonicalAddr(bytes)
    }

    /// The bytes of the address.
    pub fn as_slice(&self) -> (bytes: &[u8])
        ensures
            bytes@ == self@,
    {
        self.0.as_slice()
    }

    /// The address that a digest gives: its first twenty bytes.
    pub fn from_digest(digest: &[u8; 32]) -> (addr: Self)
        ensures
            addr@ == digest@.take(ADDRESS_LEN as int),
            addr@.len() == ADDRESS_LEN,
    {
        let mut bytes: Vec<u8> = Vec::new();
        let mut i: usize = 0;
        while i < ADDRESS_LEN
            invariant
                i <= ADDRESS_LEN,
                bytes@ == digest@.take(i as int),
            decreases ADDRESS_LEN - i,
        {
            bytes.push(digest[i]);
            assert(digest@.take(i as int).push(digest@[i as int]) =~= digest@.take(i + 1));
            i = i + 1;
        }
        CanonicalAddr::from_vec(bytes)
    }
}

/// Computes the SHA-256 digest of `data` with `sha2::Sha256::digest`, whose
/// output is 32 bytes long and depends on `data` alone.
#[verifier::external_body]
pub(crate) fn sha256_digest(data: &[u8]) -> (digest: [u8; 32])
    ensures
        digest@ == sha256(data@),
{
    Sha256::digest(data).into()
}

} // verus!
