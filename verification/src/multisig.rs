//! Threshold public keys: a list of member keys and the number of them that
//! must sign.

use vstd::prelude::*;
use crate::address::{address_of, sha256_digest, CanonicalAddr, ADDRESS_LEN};
use crate::attribution::{count_attributed, multisig_verdict, threshold_verdict};
use crate::error::{CryptoError, EncodingError};
use crate::record::{
    append_record, byte_strings, lemma_records_injective, lemma_records_push, record, records,
};
use crate::signature::decode_multisig_signature;
use crate::traits::{CosmosAminoPubkey, SignMode, VerifyingKey};
use crate::varint::{encode_varint, lemma_varint_prefix_free, varint};

verus! {

/// The four bytes that open the canonical bytes of every threshold key.
pub const MULTISIG_THRESHOLD_PREFIX: [u8; 4] = [0x22, 0xc1, 0xf7, 0xe2];

/// The tag of the threshold: field one, a varint.
pub const THRESHOLD_PREFIX: u8 = 0x08;

/// The tag of a member key: field two, length-delimited.
pub const PUBKEY_PREFIX: u8 = 0x12;

/// A key that stands for its members: a message counts as signed by it when
/// at least `threshold` of them have signed. The order of the members is part
/// of the key.
#[derive(Debug, Clone, PartialEq)]
pub struct MultisigThresholdPubKey<K> {
    threshold: u32,
    public_keys: Vec<K>,
}

/// The canonical bytes of a threshold key, from its threshold and the
/// canonical bytes of its members in their order.
pub open spec fn threshold_key_bytes(threshold: u32, member_bytes: Seq<Seq<u8>>) -> Seq<u8> {
    MULTISIG_THRESHOLD_PREFIX@ + seq![THRESHOLD_PREFIX] + varint(threshold as nat) + records(
        PUBKEY_PREFIX,
        member_bytes,
    )
}

/// The canonical bytes of each of `keys`, if every one of them has some.
pub open spec fn member_bytes<K: CosmosAminoPubkey>(keys: Seq<K>) -> Option<Seq<Seq<u8>>> {
    if forall|i: int| 0 <= i < keys.len() ==> (#[trigger] keys[i].amino()) is Some {
        Some(Seq::new(keys.len(), |i: int| keys[i].amino().unwrap()))
    } else {
        None
    }
}

impl<K> MultisigThresholdPubKey<K> {
    /// The number of members that must sign.
    pub closed spec fn spec_threshold(&self) -> u32 {
        self.threshold
    }

    /// The member keys, in their order.
    pub closed spec fn spec_public_keys(&self) -> Seq<K> {
        self.public_keys@
    }

    /// The key of `public_keys` of which `threshold` must sign. Nothing is
    /// asked of the threshold: one above the number of members makes a key
    /// that no signature set satisfies.
    pub fn new(threshold: u32, public_keys: Vec<K>) -> (key: Self)
        ensures
            key.spec_threshold() == threshold,
            key.spec_public_keys() == public_keys@,
    {
        Self { threshold, public_keys }
    }

    /// The number of members that must sign.
    pub fn threshold(&self) -> (threshold: u32)
        ensures
            threshold == self.spec_threshold(),
    {
        self.threshold
    }

    /// The member keys, in their order.
    pub fn public_keys(&self) -> (public_keys: &Vec<K>)
        ensures
            public_keys@ == self.spec_public_keys(),
    {
        &self.public_keys
    }
}

impl<K: CosmosAminoPubkey> MultisigThresholdPubKey<K> {
    /// The address of the key: the first twenty bytes of the SHA-256 digest of
    /// its canonical bytes. A key without canonical bytes has no address.
    pub fn get_address(&self) -> (r: Result<CanonicalAddr, EncodingError>)
        ensures
            match r {
                Ok(address) => self.amino() matches Some(bytes) && address@ == address_of(bytes)
                    && address@.len() == ADDRESS_LEN,
                Err(_) => self.amino() is None,
            },
    {
        match self.amino_bytes() {
            Ok(bytes) => {
                let digest = sha256_digest(bytes.as_slice());
                Ok(CanonicalAddr::from_digest(&digest))
            },
            Err(e) => Err(e),
        }
    }
}

impl<K: CosmosAminoPubkey> CosmosAminoPubkey for MultisigThresholdPubKey<K> {
    /// The type prefix, the tagged varint of the threshold, then one record
    /// for each member, in order. There are none where a member has none.
    open spec fn amino(&self) -> Option<Seq<u8>> {
        match member_bytes(self.spec_public_keys()) {
            Some(members) => Some(threshold_key_bytes(self.spec_threshold(), members)),
            None => None,
        }
    }

    /// Computes the canonical bytes of the key from those of its members. It
    /// fails where a member's own encoding fails, and only there: every
    /// length has a varint.
    fn amino_bytes(&self) -> (r: Result<Vec<u8>, EncodingError>)
        ensures
            match r {
                Ok(bytes) => member_bytes(self.spec_public_keys()) matches Some(members)
                    && bytes@ == threshold_key_bytes(self.spec_threshold(), members),
                Err(_) => member_bytes(self.spec_public_keys()) is None,
            },
    {
        let mut encoded: Vec<u8> = Vec::new();
        encoded.extend_from_slice(MULTISIG_THRESHOLD_PREFIX.as_slice());
        encoded.push(THRESHOLD_PREFIX);
        let threshold_bytes = encode_varint(self.threshold as u64);
        encoded.extend_from_slice(threshold_bytes.as_slice());
        let ghost head = encoded@;
        let ghost keys = self.public_keys@;
        let ghost mut done: Seq<Seq<u8>> = Seq::empty();
        assert(head =~= MULTISIG_THRESHOLD_PREFIX@ + seq![THRESHOLD_PREFIX] + varint(
            self.threshold as nat,
        ));
        assert(encoded@ =~= head + records(PUBKEY_PREFIX, done));
        let mut i: usize = 0;
        while i < self.public_keys.len()
            invariant
                i <= self.public_keys.len(),
                keys == self.public_keys@,
                done.len() == i,
                forall|j: int| 0 <= j < i ==> (#[trigger] keys[j].amino()) == Some(done[j]),
                encoded@ == head + records(PUBKEY_PREFIX, done),
            decreases self.public_keys.len() - i,
        {
            let pubkey_bytes = match self.public_keys[i].amino_bytes() {
                Ok(bytes) => bytes,
                Err(e) => {
                    return Err(e);
                },
            };
            proof {
                lemma_records_push(PUBKEY_PREFIX, done, pubkey_bytes@);
            }
            match append_record(&mut encoded, PUBKEY_PREFIX, pubkey_bytes.as_slice()) {
                Ok(()) => {},
                Err(e) => {
                    return Err(e);
                },
            }
            proof {
                assert(encoded@ =~= head + (records(PUBKEY_PREFIX, done) + record(
                    PUBKEY_PREFIX,
                    pubkey_bytes@,
                )));
                done = done.push(pubkey_bytes@);
            }
            i = i + 1;
        }
        proof {
            assert(member_bytes(keys) matches Some(members) && members =~= done);
        }
        Ok(encoded)
    }
}

impl<K: VerifyingKey> MultisigThresholdPubKey<K> {
    /// Decides whether `signatures`, a decoded signature set, show that the
    /// threshold was met for `bytes`. Fewer signatures than the threshold,
    /// empty ones counted, fail at once; then each signature that is not empty
    /// must find a signer of its own among the members.
    pub fn verify_signatures(
        &self,
        bytes: &[u8],
        signatures: &Vec<Vec<u8>>,
        sign_mode: SignMode,
    ) -> (r: Result<(), CryptoError>)
        ensures
            r == threshold_verdict(
                self.spec_threshold(),
                self.spec_public_keys(),
                bytes@,
                byte_strings(signatures@),
                sign_mode,
            ),
    {
        if signatures.len() < self.threshold as usize {
            return Err(CryptoError::VerificationError);
        }
        match count_attributed(&self.public_keys, bytes, signatures, sign_mode) {
            Some(verified_counter) => {
                if verified_counter < self.threshold as usize {
                    Err(CryptoError::VerificationError)
                } else {
                    Ok(())
                }
            },
            None => Err(CryptoError::VerificationError),
        }
    }
}

impl<K: VerifyingKey> VerifyingKey for MultisigThresholdPubKey<K> {
    /// A threshold key accepts a signature blob that decodes to signatures
    /// of which enough are attributed to members of their own.
    open spec fn accepts(&self, bytes: Seq<u8>, sig: Seq<u8>, sign_mode: SignMode) -> bool {
        multisig_verdict(self.spec_threshold(), self.spec_public_keys(), bytes, sig, sign_mode)
            is Ok
    }

    /// Checks the signature blob `sig` against `bytes`: a parsing error where
    /// the blob does not decode, a verification error where the signatures
    /// do not show that the threshold was met.
    fn verify_bytes(&self, bytes: &[u8], sig: &[u8], sign_mode: SignMode) -> (r: Result<
        (),
        CryptoError,
    >)
        ensures
            r == multisig_verdict(
                self.spec_threshold(),
                self.spec_public_keys(),
                bytes@,
                sig@,
                sign_mode,
            ),
    {
        match decode_multisig_signature(sig) {
            Ok(signatures) => self.verify_signatures(bytes, &signatures, sign_mode),
            Err(e) => Err(e),
        }
    }
}

/// The canonical bytes of a threshold key depend on nothing but its threshold
/// and the canonical bytes of its members in their order, and its address on
/// nothing but its canonical bytes: two keys that agree in the former agree in
/// both.
pub proof fn lemma_encoding_determined<K: CosmosAminoPubkey, L: CosmosAminoPubkey>(
    left: MultisigThresholdPubKey<K>,
    right: MultisigThresholdPubKey<L>,
)
    requires
        left.spec_threshold() == right.spec_threshold(),
        left.spec_public_keys().len() == right.spec_public_keys().len(),
        forall|i: int|
            0 <= i < left.spec_public_keys().len() ==> (#[trigger] left.spec_public_keys()[i]).amino()
                == right.spec_public_keys()[i].amino(),
    ensures
        left.amino() == right.amino(),
        left.amino() matches Some(bytes) ==> address_of(bytes) == address_of(
            right.amino().unwrap(),
        ),
{
    let left_keys = left.spec_public_keys();
    let right_keys = right.spec_public_keys();
    if forall|i: int| 0 <= i < left_keys.len() ==> (#[trigger] left_keys[i].amino()) is Some {
        assert forall|i: int| 0 <= i < right_keys.len() implies (#[trigger] right_keys[i].amino())
            is Some by {
            assert(left_keys[i].amino() is Some);
        }
        assert(member_bytes(left_keys).unwrap() =~= member_bytes(right_keys).unwrap());
    } else {
        let i = choose|i: int| 0 <= i < left_keys.len() && !((#[trigger] left_keys[i].amino()) is Some);
        assert(!(right_keys[i].amino() is Some));
    }
}

/// The canonical bytes of a threshold key are never empty: they open with
/// the type prefix and the tag of the threshold.
pub proof fn lemma_encoding_opens_with_prefix<K: CosmosAminoPubkey>(key: MultisigThresholdPubKey<K>)
    ensures
        key.amino() matches Some(bytes) ==> bytes.len() >= 6 && bytes.take(5)
            == MULTISIG_THRESHOLD_PREFIX@.push(THRESHOLD_PREFIX),
{
    if let Some(bytes) = key.amino() {
        let members = member_bytes(key.spec_public_keys()).unwrap();
        let head = MULTISIG_THRESHOLD_PREFIX@ + seq![THRESHOLD_PREFIX];
        assert(varint(key.spec_threshold() as nat).len() >= 1);
        assert(bytes =~= head + (varint(key.spec_threshold() as nat) + records(
            PUBKEY_PREFIX,
            members,
        )));
        assert(bytes.take(5) =~= MULTISIG_THRESHOLD_PREFIX@.push(THRESHOLD_PREFIX));
    }
}

/// Canonical bytes tell threshold keys apart: two keys with the same
/// canonical bytes have the same threshold and members with the same
/// canonical bytes, in the same order.
pub proof fn lemma_encoding_injective(
    left_threshold: u32,
    left_members: Seq<Seq<u8>>,
    right_threshold: u32,
    right_members: Seq<Seq<u8>>,
)
    requires
        threshold_key_bytes(left_threshold, left_members) == threshold_key_bytes(
            right_threshold,
            right_members,
        ),
    ensures
        left_threshold == right_threshold,
        left_members == right_members,
{
    let whole = threshold_key_bytes(left_threshold, left_members);
    let left_records = records(PUBKEY_PREFIX, left_members);
    let right_records = records(PUBKEY_PREFIX, right_members);
    assert(whole.skip(5) =~= varint(left_threshold as nat) + left_records);
    assert(whole.skip(5) =~= varint(right_threshold as nat) + right_records);
    lemma_varint_prefix_free(
        left_threshold as nat,
        left_records,
        right_threshold as nat,
        right_records,
    );
    lemma_records_injective(PUBKEY_PREFIX, left_members, right_members);
}

} // verus!
