//! Attributing signatures to signers: each signature goes to the first key,
//! among those that have not signed yet, that accepts it. A key is taken out
//! of the pool once a signature has gone to it, so that no key counts twice.
//!
//! Taking the first key that accepts is no search for the best assignment: it
//! rests on the assumption that a signature is accepted by one key only, which
//! holds of the usual signature schemes.

use vstd::prelude::*;
use crate::error::CryptoError;
use crate::record::byte_strings;
use crate::signature::decoded_signatures;
use crate::traits::{SignMode, VerifyingKey};

verus! {

/// Position in `pool` of the first key that accepts `sig` over `bytes`, if
/// any key of the pool does.
pub open spec fn first_signer<K: VerifyingKey>(
    pool: Seq<K>,
    bytes: Seq<u8>,
    sig: Seq<u8>,
    sign_mode: SignMode,
) -> Option<int>
    decreases pool.len(),
{
    if pool.len() == 0 {
        None
    } else if pool[0].accepts(bytes, sig, sign_mode) {
        Some(0)
    } else {
        match first_signer(pool.drop_first(), bytes, sig, sign_mode) {
            Some(i) => Some(i + 1),
            None => None,
        }
    }
}

/// How many of `signatures` are attributed to keys of `pool`, where every
/// signature that is not empty finds a signer: taken in order, an empty
/// signature is passed over, and any other goes to its first signer in what is
/// left of the pool, which then leaves the pool. Where a signature that is
/// not empty finds no signer, there is no count.
pub open spec fn attributed<K: VerifyingKey>(
    pool: Seq<K>,
    bytes: Seq<u8>,
    signatures: Seq<Seq<u8>>,
    sign_mode: SignMode,
) -> Option<nat>
    decreases signatures.len(),
{
    if signatures.len() == 0 {
        Some(0)
    } else if signatures[0].len() == 0 {
        attributed(pool, bytes, signatures.drop_first(), sign_mode)
    } else {
        match first_signer(pool, bytes, signatures[0], sign_mode) {
            None => None,
            Some(i) => match attributed(pool.remove(i), bytes, signatures.drop_first(), sign_mode) {
                Some(n) => Some(n + 1),
                None => None,
            },
        }
    }
}

/// What becomes of a decoded signature set under a threshold: it fails where
/// fewer signatures were decoded than the threshold asks for, empty ones
/// counted, where a signature finds no signer, and where fewer were attributed
/// than the threshold asks for.
pub open spec fn threshold_verdict<K: VerifyingKey>(
    threshold: u32,
    public_keys: Seq<K>,
    bytes: Seq<u8>,
    signatures: Seq<Seq<u8>>,
    sign_mode: SignMode,
) -> Result<(), CryptoError> {
    if signatures.len() < threshold {
        Err(CryptoError::VerificationError)
    } else {
        match attributed(public_keys, bytes, signatures, sign_mode) {
            Some(n) => if n >= threshold {
                Ok(())
            } else {
                Err(CryptoError::VerificationError)
            },
            None => Err(CryptoError::VerificationError),
        }
    }
}

/// What becomes of a signature blob under a threshold key: a blob that does
/// not decode is a parsing error, and any other has the verdict of the
/// signatures it decodes to.
pub open spec fn multisig_verdict<K: VerifyingKey>(
    threshold: u32,
    public_keys: Seq<K>,
    bytes: Seq<u8>,
    blob: Seq<u8>,
    sign_mode: SignMode,
) -> Result<(), CryptoError> {
    match decoded_signatures(blob) {
        None => Err(CryptoError::ParsingError),
        Some(signatures) => threshold_verdict(threshold, public_keys, bytes, signatures, sign_mode),
    }
}

/// The keys that a list of references points to.
pub open spec fn referents<K>(pool: Seq<&K>) -> Seq<K> {
    Seq::new(pool.len(), |i: int| *pool[i])
}

/// The first signer is a key of the pool that accepts, and no key before it
/// does; there is none only where no key of the pool accepts.
pub proof fn lemma_first_signer<K: VerifyingKey>(
    pool: Seq<K>,
    bytes: Seq<u8>,
    sig: Seq<u8>,
    sign_mode: SignMode,
)
    ensures
        match first_signer(pool, bytes, sig, sign_mode) {
            Some(i) => {
                &&& 0 <= i < pool.len()
                &&& pool[i].accepts(bytes, sig, sign_mode)
                &&& forall|j: int| 0 <= j < i ==> !(#[trigger] pool[j]).accepts(bytes, sig, sign_mode)
            },
            None => forall|j: int|
                0 <= j < pool.len() ==> !(#[trigger] pool[j]).accepts(bytes, sig, sign_mode),
        },
    decreases pool.len(),
{
    if pool.len() > 0 && !pool[0].accepts(bytes, sig, sign_mode) {
        let rest = pool.drop_first();
        lemma_first_signer(rest, bytes, sig, sign_mode);
        match first_signer(rest, bytes, sig, sign_mode) {
            Some(i) => {
                assert forall|j: int| 0 <= j < i + 1 implies !(#[trigger] pool[j]).accepts(
                    bytes,
                    sig,
                    sign_mode,
                ) by {
                    if j > 0 {
                        assert(pool[j] == rest[j - 1]);
                    }
                }
            },
            None => {
                assert forall|j: int| 0 <= j < pool.len() implies !(#[trigger] pool[j]).accepts(
                    bytes,
                    sig,
                    sign_mode,
                ) by {
                    if j > 0 {
                        assert(pool[j] == rest[j - 1]);
                    }
                }
            },
        }
    }
}

/// Finds the first key among `signers` that accepts `sig` over `bytes`.
pub fn find_signer<K: VerifyingKey>(
    signers: &Vec<&K>,
    bytes: &[u8],
    sig: &[u8],
    sign_mode: SignMode,
) -> (r: Option<usize>)
    ensures
        match r {
            Some(i) => first_signer(referents(signers@), bytes@, sig@, sign_mode) == Some(i as int),
            None => first_signer(referents(signers@), bytes@, sig@, sign_mode) is None,
        },
{
    let ghost pool = referents(signers@);
    let mut i: usize = 0;
    while i < signers.len()
        invariant
            i <= signers.len(),
            pool == referents(signers@),
            forall|j: int| 0 <= j < i ==> !(#[trigger] pool[j]).accepts(bytes@, sig@, sign_mode),
        decreases signers.len() - i,
    {
        let current_signer: &K = signers[i];
        assert(*current_signer == pool[i as int]);
        match current_signer.verify_bytes(bytes, sig, sign_mode) {
            Ok(()) => {
                proof {
                    lemma_first_signer(pool, bytes@, sig@, sign_mode);
                }
                return Some(i);
            },
            Err(_) => {},
        }
        i = i + 1;
    }
    proof {
        lemma_first_signer(pool, bytes@, sig@, sign_mode);
    }
    None
}

/// Attributes `signatures` to keys of `public_keys` and counts those that
/// were attributed; `None` where a signature that is not empty finds no
/// signer among the keys that are left.
pub fn count_attributed<K: VerifyingKey>(
    public_keys: &Vec<K>,
    bytes: &[u8],
    signatures: &Vec<Vec<u8>>,
    sign_mode: SignMode,
) -> (r: Option<usize>)
    ensures
        match r {
            Some(n) => attributed(public_keys@, bytes@, byte_strings(signatures@), sign_mode)
                == Some(n as nat),
            None => attributed(public_keys@, bytes@, byte_strings(signatures@), sign_mode) is None,
        },
{
    let mut signers: Vec<&K> = Vec::new();
    let mut k: usize = 0;
    while k < public_keys.len()
        invariant
            k <= public_keys.len(),
            signers@.len() == k,
            forall|j: int| 0 <= j < k ==> *(#[trigger] signers@[j]) == public_keys@[j],
        decreases public_keys.len() - k,
    {
        signers.push(&public_keys[k]);
        k = k + 1;
    }
    let ghost all = byte_strings(signatures@);
    proof {
        assert(referents(signers@) =~= public_keys@);
        assert(all.skip(0) =~= all);
    }
    let mut verified_counter: usize = 0;
    let mut s: usize = 0;
    while s < signatures.len()
        invariant
            s <= signatures.len(),
            all == byte_strings(signatures@),
            verified_counter + signers@.len() == public_keys@.len(),
            attributed(public_keys@, bytes@, all, sign_mode) == match attributed(
                referents(signers@),
                bytes@,
                all.skip(s as int),
                sign_mode,
            ) {
                Some(n) => Some((verified_counter + n) as nat),
                None => None,
            },
        decreases signatures.len() - s,
    {
        let current_sig = signatures[s].as_slice();
        proof {
            assert(all.skip(s as int)[0] == current_sig@);
            assert(all.skip(s as int).drop_first() =~= all.skip(s + 1));
            lemma_first_signer(referents(signers@), bytes@, current_sig@, sign_mode);
        }
        if current_sig.len() != 0 {
            let ghost pool = referents(signers@);
            match find_signer(&signers, bytes, current_sig, sign_mode) {
                Some(i) => {
                    assert(verified_counter < public_keys.len());
                    signers.remove(i);
                    assert(referents(signers@) =~= pool.remove(i as int));
                    verified_counter = verified_counter + 1;
                },
                None => {
                    return None;
                },
            }
        }
        s = s + 1;
    }
    Some(verified_counter)
}

} // verus!
