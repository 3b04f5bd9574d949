//! What the attribution of signatures guarantees: when a threshold is met,
//! when it cannot be, and what a met threshold shows.

use vstd::prelude::*;
use crate::attribution::{
    attributed, first_signer, lemma_first_signer, multisig_verdict, threshold_verdict,
};
use crate::error::CryptoError;
use crate::signature::decoded_signatures;
use crate::traits::{SignMode, VerifyingKey};

verus! {

/// How many signatures of `signatures` are not empty.
pub open spec fn non_empty(signatures: Seq<Seq<u8>>) -> nat
    decreases signatures.len(),
{
    if signatures.len() == 0 {
        0
    } else if signatures[0].len() == 0 {
        non_empty(signatures.drop_first())
    } else {
        1 + non_empty(signatures.drop_first())
    }
}

/// Whether `signer` names, for each signature of `signatures` that is not
/// empty, a key of `keys` that accepts it, and no key for two of them.
pub open spec fn is_attribution<K: VerifyingKey>(
    keys: Seq<K>,
    bytes: Seq<u8>,
    signatures: Seq<Seq<u8>>,
    signer: Seq<int>,
    sign_mode: SignMode,
) -> bool {
    &&& signer.len() == signatures.len()
    &&& forall|j: int|
        0 <= j < signatures.len() && (#[trigger] signatures[j]).len() > 0 ==> 0 <= signer[j]
            < keys.len() && keys[signer[j]].accepts(bytes, signatures[j], sign_mode)
    &&& forall|j1: int, j2: int|
        0 <= j1 < j2 < signatures.len() && (#[trigger] signatures[j1]).len() > 0
            && (#[trigger] signatures[j2]).len() > 0 ==> signer[j1] != signer[j2]
}

/// Whether the keys of `pool` leave no doubt about who signed: two keys
/// that both accept one of `signatures` accept the same ones of them. This
/// holds where every signature is accepted by one key only, and also where
/// that key stands in the pool more than once.
pub open spec fn unambiguous<K: VerifyingKey>(
    pool: Seq<K>,
    bytes: Seq<u8>,
    signatures: Seq<Seq<u8>>,
    sign_mode: SignMode,
) -> bool {
    forall|i1: int, i2: int, j1: int, j2: int|
        0 <= i1 < pool.len() && 0 <= i2 < pool.len() && 0 <= j1 < signatures.len() && 0 <= j2
            < signatures.len() && (#[trigger] pool[i1].accepts(bytes, signatures[j1], sign_mode))
            && pool[i2].accepts(bytes, signatures[j1], sign_mode) && pool[i1].accepts(
            bytes,
            signatures[j2],
            sign_mode,
        ) ==> (#[trigger] pool[i2].accepts(bytes, signatures[j2], sign_mode))
}

/// Where there is a count, it is the number of signatures that are not
/// empty, and no more than there are keys.
pub proof fn lemma_attributed_bounds<K: VerifyingKey>(
    pool: Seq<K>,
    bytes: Seq<u8>,
    signatures: Seq<Seq<u8>>,
    sign_mode: SignMode,
)
    ensures
        non_empty(signatures) <= signatures.len(),
        attributed(pool, bytes, signatures, sign_mode) matches Some(n) ==> n == non_empty(signatures)
            && n <= pool.len(),
    decreases signatures.len(),
{
    if signatures.len() > 0 {
        let rest = signatures.drop_first();
        if signatures[0].len() == 0 {
            lemma_attributed_bounds(pool, bytes, rest, sign_mode);
        } else {
            lemma_first_signer(pool, bytes, signatures[0], sign_mode);
            match first_signer(pool, bytes, signatures[0], sign_mode) {
                Some(i) => {
                    lemma_attributed_bounds(pool.remove(i), bytes, rest, sign_mode);
                },
                None => {
                    lemma_attributed_bounds(pool, bytes, rest, sign_mode);
                },
            }
        }
    }
}

/// Signatures that were attributed have signers: where there is a count,
/// each signature that is not empty is accepted by a key of its own. The
/// result names those keys by their places in the pool.
pub proof fn lemma_attributed_have_signers<K: VerifyingKey>(
    pool: Seq<K>,
    bytes: Seq<u8>,
    signatures: Seq<Seq<u8>>,
    sign_mode: SignMode,
) -> (signer: Seq<int>)
    requires
        attributed(pool, bytes, signatures, sign_mode) is Some,
    ensures
        is_attribution(pool, bytes, signatures, signer, sign_mode),
    decreases signatures.len(),
{
    if signatures.len() == 0 {
        Seq::empty()
    } else {
        let rest = signatures.drop_first();
        if signatures[0].len() == 0 {
            let later = lemma_attributed_have_signers(pool, bytes, rest, sign_mode);
            let signer = seq![0int] + later;
            assert forall|j: int|
                0 <= j < signatures.len() && (#[trigger] signatures[j]).len() > 0 implies 0
                <= signer[j] < pool.len() && pool[signer[j]].accepts(
                bytes,
                signatures[j],
                sign_mode,
            ) by {
                assert(signatures[j] == rest[j - 1]);
            }
            assert forall|j1: int, j2: int|
                0 <= j1 < j2 < signatures.len() && (#[trigger] signatures[j1]).len() > 0
                    && (#[trigger] signatures[j2]).len() > 0 implies signer[j1] != signer[j2] by {
                assert(signatures[j1] == rest[j1 - 1]);
                assert(signatures[j2] == rest[j2 - 1]);
            }
            signer
        } else {
            lemma_first_signer(pool, bytes, signatures[0], sign_mode);
            let taken = first_signer(pool, bytes, signatures[0], sign_mode).unwrap();
            let left = pool.remove(taken);
            let later = lemma_attributed_have_signers(left, bytes, rest, sign_mode);
            let back = Seq::new(
                later.len(),
                |j: int|
                    if later[j] < taken {
                        later[j]
                    } else {
                        later[j] + 1
                    },
            );
            let signer = seq![taken] + back;
            assert forall|j: int|
                0 <= j < signatures.len() && (#[trigger] signatures[j]).len() > 0 implies 0
                <= signer[j] < pool.len() && pool[signer[j]].accepts(
                bytes,
                signatures[j],
                sign_mode,
            ) by {
                if j > 0 {
                    assert(signatures[j] == rest[j - 1]);
                    assert(left[later[j - 1]] == pool[signer[j]]);
                }
            }
            assert forall|j1: int, j2: int|
                0 <= j1 < j2 < signatures.len() && (#[trigger] signatures[j1]).len() > 0
                    && (#[trigger] signatures[j2]).len() > 0 implies signer[j1] != signer[j2] by {
                assert(signatures[j2] == rest[j2 - 1]);
                if j1 > 0 {
                    assert(signatures[j1] == rest[j1 - 1]);
                }
            }
            signer
        }
    }
}

/// What a verified multisignature shows: the blob decodes to signatures of
/// which at least `threshold` are not empty, and each of these is accepted
/// by a member of its own. The result names those members by their places
/// among the keys.
pub proof fn lemma_verified_means_signed<K: VerifyingKey>(
    threshold: u32,
    public_keys: Seq<K>,
    bytes: Seq<u8>,
    blob: Seq<u8>,
    sign_mode: SignMode,
) -> (signer: Seq<int>)
    requires
        multisig_verdict(threshold, public_keys, bytes, blob, sign_mode) is Ok,
    ensures
        decoded_signatures(blob) matches Some(signatures) && non_empty(signatures) >= threshold
            && is_attribution(public_keys, bytes, signatures, signer, sign_mode),
{
    let signatures = decoded_signatures(blob).unwrap();
    lemma_attributed_bounds(public_keys, bytes, signatures, sign_mode);
    lemma_attributed_have_signers(public_keys, bytes, signatures, sign_mode)
}

/// Signatures that have signers are attributed: where each signature that
/// is not empty is accepted by a key of its own, named by `signer`, and the
/// keys leave no doubt about who signed, every such signature finds a
/// signer, and the count is their number.
pub proof fn lemma_signers_are_found<K: VerifyingKey>(
    pool: Seq<K>,
    bytes: Seq<u8>,
    signatures: Seq<Seq<u8>>,
    signer: Seq<int>,
    sign_mode: SignMode,
)
    requires
        is_attribution(pool, bytes, signatures, signer, sign_mode),
        unambiguous(pool, bytes, signatures, sign_mode),
    ensures
        attributed(pool, bytes, signatures, sign_mode) == Some(non_empty(signatures)),
    decreases signatures.len(),
{
    if signatures.len() > 0 {
        let rest = signatures.drop_first();
        assert forall|j: int| 0 <= j < rest.len() implies rest[j] == signatures[j + 1] by {}
        if signatures[0].len() == 0 {
            let later = signer.drop_first();
            assert(is_attribution(pool, bytes, rest, later, sign_mode)) by {
                assert forall|j: int| 0 <= j < rest.len() && (#[trigger] rest[j]).len() > 0 implies 0
                    <= later[j] < pool.len() && pool[later[j]].accepts(bytes, rest[j], sign_mode) by {
                    assert(signatures[j + 1].len() > 0);
                }
                assert forall|j1: int, j2: int|
                    0 <= j1 < j2 < rest.len() && (#[trigger] rest[j1]).len() > 0 && (
                    #[trigger] rest[j2]).len() > 0 implies later[j1] != later[j2] by {
                    assert(signatures[j1 + 1].len() > 0 && signatures[j2 + 1].len() > 0);
                }
            }
            assert(unambiguous(pool, bytes, rest, sign_mode)) by {
                assert forall|i1: int, i2: int, j1: int, j2: int|
                    0 <= i1 < pool.len() && 0 <= i2 < pool.len() && 0 <= j1 < rest.len() && 0 <= j2
                        < rest.len() && (#[trigger] pool[i1].accepts(bytes, rest[j1], sign_mode))
                        && pool[i2].accepts(bytes, rest[j1], sign_mode) && pool[i1].accepts(
                        bytes,
                        rest[j2],
                        sign_mode,
                    ) implies (#[trigger] pool[i2].accepts(bytes, rest[j2], sign_mode)) by {
                    assert(pool[i1].accepts(bytes, signatures[j1 + 1], sign_mode));
                    assert(pool[i2].accepts(bytes, signatures[j2 + 1], sign_mode));
                }
            }
            lemma_signers_are_found(pool, bytes, rest, later, sign_mode);
        } else {
            let own = signer[0];
            lemma_first_signer(pool, bytes, signatures[0], sign_mode);
            assert(pool[own].accepts(bytes, signatures[0], sign_mode));
            let taken = first_signer(pool, bytes, signatures[0], sign_mode).unwrap();
            let left = pool.remove(taken);
            // the key that was taken may be the signer of a later signature:
            // that one goes to the signer of the first instead
            let swapped = Seq::new(
                signer.len(),
                |j: int|
                    if signer[j] == taken {
                        own
                    } else {
                        signer[j]
                    },
            );
            let later = Seq::new(
                rest.len() as nat,
                |j: int|
                    if swapped[j + 1] < taken {
                        swapped[j + 1]
                    } else {
                        swapped[j + 1] - 1
                    },
            );
            assert forall|j: int| 1 <= j < signatures.len() && signatures[j].len() > 0 implies 0
                <= swapped[j] < pool.len() && swapped[j] != taken && pool[swapped[j]].accepts(
                bytes,
                signatures[j],
                sign_mode,
            ) by {
                assert(pool[signer[j]].accepts(bytes, signatures[j], sign_mode));
                if signer[j] == taken {
                    assert(signatures[0].len() > 0);
                    assert(signer[0] != signer[j]);
                    assert(pool[taken].accepts(bytes, signatures[0], sign_mode));
                    assert(pool[own].accepts(bytes, signatures[0], sign_mode));
                    assert(pool[taken].accepts(bytes, signatures[j], sign_mode));
                    assert(pool[own].accepts(bytes, signatures[j], sign_mode));
                }
            }
            assert(is_attribution(left, bytes, rest, later, sign_mode)) by {
                assert forall|j: int| 0 <= j < rest.len() && (#[trigger] rest[j]).len() > 0 implies 0
                    <= later[j] < left.len() && left[later[j]].accepts(bytes, rest[j], sign_mode) by {
                    assert(signatures[j + 1].len() > 0);
                    assert(left[later[j]] == pool[swapped[j + 1]]);
                }
                assert forall|j1: int, j2: int|
                    0 <= j1 < j2 < rest.len() && (#[trigger] rest[j1]).len() > 0 && (
                    #[trigger] rest[j2]).len() > 0 implies later[j1] != later[j2] by {
                    assert(signatures[j1 + 1].len() > 0 && signatures[j2 + 1].len() > 0);
                    assert(signatures[0].len() > 0);
                    assert(signer[j1 + 1] != signer[j2 + 1]);
                    assert(signer[0] != signer[j1 + 1]);
                    assert(signer[0] != signer[j2 + 1]);
                }
            }
            assert(unambiguous(left, bytes, rest, sign_mode)) by {
                assert forall|i1: int, i2: int, j1: int, j2: int|
                    0 <= i1 < left.len() && 0 <= i2 < left.len() && 0 <= j1 < rest.len() && 0 <= j2
                        < rest.len() && (#[trigger] left[i1].accepts(bytes, rest[j1], sign_mode))
                        && left[i2].accepts(bytes, rest[j1], sign_mode) && left[i1].accepts(
                        bytes,
                        rest[j2],
                        sign_mode,
                    ) implies (#[trigger] left[i2].accepts(bytes, rest[j2], sign_mode)) by {
                    let from1 = if i1 < taken {
                        i1
                    } else {
                        i1 + 1
                    };
                    let from2 = if i2 < taken {
                        i2
                    } else {
                        i2 + 1
                    };
                    assert(left[i1] == pool[from1]);
                    assert(left[i2] == pool[from2]);
                    assert(pool[from1].accepts(bytes, signatures[j1 + 1], sign_mode));
                    assert(pool[from2].accepts(bytes, signatures[j2 + 1], sign_mode));
                }
            }
            lemma_signers_are_found(left, bytes, rest, later, sign_mode);
        }
    }
}

/// The threshold is met by as many signers as it asks for: a blob that
/// decodes to signatures of which at least `threshold` are not empty, each
/// of these accepted by a member of its own, named by `signer`, is verified,
/// where the members leave no doubt about who signed.
pub proof fn lemma_threshold_met<K: VerifyingKey>(
    threshold: u32,
    public_keys: Seq<K>,
    bytes: Seq<u8>,
    blob: Seq<u8>,
    signatures: Seq<Seq<u8>>,
    signer: Seq<int>,
    sign_mode: SignMode,
)
    requires
        decoded_signatures(blob) == Some(signatures),
        threshold <= non_empty(signatures),
        is_attribution(public_keys, bytes, signatures, signer, sign_mode),
        unambiguous(public_keys, bytes, signatures, sign_mode),
    ensures
        threshold_verdict(threshold, public_keys, bytes, signatures, sign_mode) == Ok::<
            (),
            CryptoError,
        >(()),
        multisig_verdict(threshold, public_keys, bytes, blob, sign_mode) == Ok::<(), CryptoError>(
            (),
        ),
{
    lemma_attributed_bounds(public_keys, bytes, signatures, sign_mode);
    lemma_signers_are_found(public_keys, bytes, signatures, signer, sign_mode);
}

/// A threshold that the signatures cannot reach fails verification: one
/// above the number of members, or above the number of signatures that are
/// not empty.
pub proof fn lemma_threshold_out_of_reach<K: VerifyingKey>(
    threshold: u32,
    public_keys: Seq<K>,
    bytes: Seq<u8>,
    signatures: Seq<Seq<u8>>,
    sign_mode: SignMode,
)
    requires
        threshold > public_keys.len() || threshold > non_empty(signatures),
    ensures
        threshold_verdict(threshold, public_keys, bytes, signatures, sign_mode) == Err::<
            (),
            CryptoError,
        >(CryptoError::VerificationError),
{
    lemma_attributed_bounds(public_keys, bytes, signatures, sign_mode);
}

/// One signature short of the threshold is not enough: a blob that decodes
/// to fewer signatures that are not empty than the threshold asks for fails
/// verification, whoever signed them.
pub proof fn lemma_threshold_missed<K: VerifyingKey>(
    threshold: u32,
    public_keys: Seq<K>,
    bytes: Seq<u8>,
    blob: Seq<u8>,
    signatures: Seq<Seq<u8>>,
    sign_mode: SignMode,
)
    requires
        decoded_signatures(blob) == Some(signatures),
        non_empty(signatures) < threshold,
    ensures
        multisig_verdict(threshold, public_keys, bytes, blob, sign_mode) == Err::<
            (),
            CryptoError,
        >(CryptoError::VerificationError),
{
    lemma_threshold_out_of_reach(threshold, public_keys, bytes, signatures, sign_mode);
}

/// An empty signature is passed over: with one put in at any place of a
/// signature set, as many signatures are attributed as without it, and a set
/// whose signatures all find signers stays one.
pub proof fn lemma_empty_signature_skipped<K: VerifyingKey>(
    pool: Seq<K>,
    bytes: Seq<u8>,
    signatures: Seq<Seq<u8>>,
    at: int,
    sign_mode: SignMode,
)
    requires
        0 <= at <= signatures.len(),
    ensures
        attributed(pool, bytes, signatures.insert(at, Seq::empty()), sign_mode) == attributed(
            pool,
            bytes,
            signatures,
            sign_mode,
        ),
    decreases at,
{
    let with_empty = signatures.insert(at, Seq::empty());
    if at == 0 {
        assert(with_empty.drop_first() =~= signatures);
    } else {
        let rest = signatures.drop_first();
        assert(with_empty[0] == signatures[0]);
        assert(with_empty.drop_first() =~= rest.insert(at - 1, Seq::empty()));
        if signatures[0].len() == 0 {
            lemma_empty_signature_skipped(pool, bytes, rest, at - 1, sign_mode);
        } else {
            lemma_first_signer(pool, bytes, signatures[0], sign_mode);
            match first_signer(pool, bytes, signatures[0], sign_mode) {
                Some(i) => {
                    lemma_empty_signature_skipped(pool.remove(i), bytes, rest, at - 1, sign_mode);
                },
                None => {},
            }
        }
    }
}

/// How many keys of `pool` accept `sig` over `bytes`.
pub open spec fn acceptors<K: VerifyingKey>(
    pool: Seq<K>,
    bytes: Seq<u8>,
    sig: Seq<u8>,
    sign_mode: SignMode,
) -> nat
    decreases pool.len(),
{
    if pool.len() == 0 {
        0
    } else if pool[0].accepts(bytes, sig, sign_mode) {
        1 + acceptors(pool.drop_first(), bytes, sig, sign_mode)
    } else {
        acceptors(pool.drop_first(), bytes, sig, sign_mode)
    }
}

/// How many times `sig` stands in `signatures`.
pub open spec fn occurrences(signatures: Seq<Seq<u8>>, sig: Seq<u8>) -> nat
    decreases signatures.len(),
{
    if signatures.len() == 0 {
        0
    } else if signatures[0] == sig {
        1 + occurrences(signatures.drop_first(), sig)
    } else {
        occurrences(signatures.drop_first(), sig)
    }
}

/// Taking a key out of the pool takes it out of the count of those that
/// accept, if it was one of them, and leaves the count as it was if not.
proof fn lemma_acceptors_remove<K: VerifyingKey>(
    pool: Seq<K>,
    i: int,
    bytes: Seq<u8>,
    sig: Seq<u8>,
    sign_mode: SignMode,
)
    requires
        0 <= i < pool.len(),
    ensures
        acceptors(pool, bytes, sig, sign_mode) == acceptors(pool.remove(i), bytes, sig, sign_mode)
            + if pool[i].accepts(bytes, sig, sign_mode) {
            1nat
        } else {
            0nat
        },
    decreases pool.len(),
{
    if i == 0 {
        assert(pool.remove(0) =~= pool.drop_first());
    } else {
        assert(pool.remove(i).drop_first() =~= pool.drop_first().remove(i - 1));
        assert(pool.remove(i)[0] == pool[0]);
        lemma_acceptors_remove(pool.drop_first(), i - 1, bytes, sig, sign_mode);
    }
}

/// No key counts twice: where a signature that is not empty stands in a
/// signature set more often than there are keys that accept it, one of its
/// occurrences finds no signer, and nothing is attributed.
pub proof fn lemma_more_occurrences_than_acceptors<K: VerifyingKey>(
    pool: Seq<K>,
    bytes: Seq<u8>,
    signatures: Seq<Seq<u8>>,
    sig: Seq<u8>,
    sign_mode: SignMode,
)
    requires
        sig.len() > 0,
        occurrences(signatures, sig) > acceptors(pool, bytes, sig, sign_mode),
    ensures
        attributed(pool, bytes, signatures, sign_mode) is None,
    decreases signatures.len(),
{
    if signatures.len() > 0 {
        let rest = signatures.drop_first();
        if signatures[0].len() == 0 {
            lemma_more_occurrences_than_acceptors(pool, bytes, rest, sig, sign_mode);
        } else {
            lemma_first_signer(pool, bytes, signatures[0], sign_mode);
            match first_signer(pool, bytes, signatures[0], sign_mode) {
                Some(i) => {
                    lemma_acceptors_remove(pool, i, bytes, sig, sign_mode);
                    lemma_more_occurrences_than_acceptors(
                        pool.remove(i),
                        bytes,
                        rest,
                        sig,
                        sign_mode,
                    );
                },
                None => {},
            }
        }
    }
}

/// A signature that stands at two places of a set occurs in it at least twice.
proof fn lemma_occurs_twice(signatures: Seq<Seq<u8>>, first: int, second: int)
    requires
        0 <= first < second < signatures.len(),
        signatures[first] == signatures[second],
    ensures
        occurrences(signatures, signatures[first]) >= 2,
    decreases signatures.len(),
{
    let sig = signatures[first];
    let rest = signatures.drop_first();
    if first == 0 {
        lemma_occurs_once(rest, second - 1);
    } else {
        lemma_occurs_twice(rest, first - 1, second - 1);
    }
}

/// A signature that stands in a set occurs in it.
proof fn lemma_occurs_once(signatures: Seq<Seq<u8>>, at: int)
    requires
        0 <= at < signatures.len(),
    ensures
        occurrences(signatures, signatures[at]) >= 1,
    decreases signatures.len(),
{
    if at > 0 {
        lemma_occurs_once(signatures.drop_first(), at - 1);
    }
}

/// Where no two keys of the pool accept a signature, at most one does.
proof fn lemma_single_acceptor<K: VerifyingKey>(
    pool: Seq<K>,
    bytes: Seq<u8>,
    sig: Seq<u8>,
    sign_mode: SignMode,
)
    requires
        forall|i: int, j: int|
            0 <= i < j < pool.len() ==> !((#[trigger] pool[i]).accepts(bytes, sig, sign_mode)
                && (#[trigger] pool[j]).accepts(bytes, sig, sign_mode)),
    ensures
        acceptors(pool, bytes, sig, sign_mode) <= 1,
        acceptors(pool, bytes, sig, sign_mode) == 0 <==> forall|i: int|
            0 <= i < pool.len() ==> !(#[trigger] pool[i]).accepts(bytes, sig, sign_mode),
    decreases pool.len(),
{
    if pool.len() > 0 {
        let rest = pool.drop_first();
        assert forall|i: int, j: int| 0 <= i < j < rest.len() implies !((#[trigger] rest[i]).accepts(
            bytes,
            sig,
            sign_mode,
        ) && (#[trigger] rest[j]).accepts(bytes, sig, sign_mode)) by {
            assert(rest[i] == pool[i + 1]);
            assert(rest[j] == pool[j + 1]);
        }
        lemma_single_acceptor(rest, bytes, sig, sign_mode);
        if pool[0].accepts(bytes, sig, sign_mode) {
            assert forall|i: int| 0 <= i < rest.len() implies !(#[trigger] rest[i]).accepts(
                bytes,
                sig,
                sign_mode,
            ) by {
                assert(rest[i] == pool[i + 1]);
            }
        } else {
            if acceptors(rest, bytes, sig, sign_mode) == 0 {
                assert forall|i: int| 0 <= i < pool.len() implies !(#[trigger] pool[i]).accepts(
                    bytes,
                    sig,
                    sign_mode,
                ) by {
                    if i > 0 {
                        assert(pool[i] == rest[i - 1]);
                    }
                }
            } else {
                let i = choose|i: int|
                    0 <= i < rest.len() && (#[trigger] rest[i]).accepts(bytes, sig, sign_mode);
                assert(pool[i + 1] == rest[i]);
            }
        }
    }
}

/// A signature cannot be counted twice for one signer: a blob that decodes
/// to a signature set in which a signature that is not empty stands at two
/// places, while no two members accept it, fails verification.
pub proof fn lemma_no_double_counting<K: VerifyingKey>(
    threshold: u32,
    public_keys: Seq<K>,
    bytes: Seq<u8>,
    blob: Seq<u8>,
    signatures: Seq<Seq<u8>>,
    first: int,
    second: int,
    sign_mode: SignMode,
)
    requires
        decoded_signatures(blob) == Some(signatures),
        0 <= first < second < signatures.len(),
        signatures[first] == signatures[second],
        signatures[first].len() > 0,
        forall|i: int, j: int|
            0 <= i < j < public_keys.len() ==> !((#[trigger] public_keys[i]).accepts(
                bytes,
                signatures[first],
                sign_mode,
            ) && (#[trigger] public_keys[j]).accepts(bytes, signatures[first], sign_mode)),
    ensures
        attributed(public_keys, bytes, signatures, sign_mode) is None,
        threshold_verdict(threshold, public_keys, bytes, signatures, sign_mode) == Err::<
            (),
            CryptoError,
        >(CryptoError::VerificationError),
        multisig_verdict(threshold, public_keys, bytes, blob, sign_mode) == Err::<
            (),
            CryptoError,
        >(CryptoError::VerificationError),
{
    let sig = signatures[first];
    lemma_occurs_twice(signatures, first, second);
    lemma_single_acceptor(public_keys, bytes, sig, sign_mode);
    lemma_more_occurrences_than_acceptors(public_keys, bytes, signatures, sig, sign_mode);
}

} // verus!
