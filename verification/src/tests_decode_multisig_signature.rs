//! Known answers of the signature decoder. Each function runs the decoder on
//! a fixed blob and says whether the outcome is the known one. Its contract
//! names the blob and the answer, and says that the function says yes.

use vstd::prelude::*;
use crate::record::{byte_strings, records};
use crate::signature::{
    decode_multisig_signature, decoded_signatures, lemma_decode_encode, signature_blob,
};
use crate::varint::varint;

verus! {

/// A blob of two signatures, of ten and of four bytes, decodes to the two.
pub fn test_decode_sig_sanity() -> (ok: bool)
    ensures
        ok,
        ok <==> decoded_signatures(
            seq![10u8, 10, 1, 2, 3, 4, 5, 6, 7, 8, 9, 10, 10, 4, 1, 2, 3, 4],
        ) == Some(seq![seq![1u8, 2, 3, 4, 5, 6, 7, 8, 9, 10], seq![1u8, 2, 3, 4]]),
{
    let expected: Vec<Vec<u8>> = vec![vec![1u8, 2, 3, 4, 5, 6, 7, 8, 9, 10], vec![1u8, 2, 3, 4]];
    let sig: Vec<u8> = vec![10u8, 10, 1, 2, 3, 4, 5, 6, 7, 8, 9, 10, 10, 4, 1, 2, 3, 4];
    proof {
        let first = seq![1u8, 2, 3, 4, 5, 6, 7, 8, 9, 10];
        let second = seq![1u8, 2, 3, 4];
        let both = seq![first, second];
        assert(byte_strings(expected@) =~= both);
        assert(both.drop_first() =~= seq![second]);
        assert(seq![second].drop_first() =~= Seq::<Seq<u8>>::empty());
        reveal_with_fuel(records, 3);
        assert(varint(10) =~= seq![10u8]);
        assert(varint(4) =~= seq![4u8]);
        assert(sig@ =~= signature_blob(both));
        lemma_decode_encode(both);
    }
    match decode_multisig_signature(sig.as_slice()) {
        Ok(result) => {
            assert(byte_strings(result@) == byte_strings(expected@));
            same_signatures(&result, &expected)
        },
        Err(_) => false,
    }
}

/// A signature of two hundred bytes, whose length takes two bytes to write,
/// decodes to those two hundred bytes.
pub fn test_decode_long_leb128() -> (ok: bool)
    ensures
        ok,
        ok <==> decoded_signatures(seq![10u8, 200, 1] + Seq::new(200, |i: int| 0u8)) == Some(
            seq![Seq::new(200, |i: int| 0u8)],
        ),
{
    let expected: Vec<Vec<u8>> = vec![vec![0u8; 200]];
    let mut sig: Vec<u8> = vec![10u8, 200, 1];
    let zeros: Vec<u8> = vec![0u8; 200];
    sig.extend_from_slice(zeros.as_slice());
    proof {
        let payload = expected@[0]@;
        let only = seq![payload];
        assert(payload =~= zeros@);
        assert(byte_strings(expected@) =~= only);
        assert(only.drop_first() =~= Seq::<Seq<u8>>::empty());
        reveal_with_fuel(records, 2);
        reveal_with_fuel(varint, 2);
        assert(varint(200) =~= seq![200u8, 1]);
        assert(sig@ =~= signature_blob(only));
        lemma_decode_encode(only);
        assert(payload =~= Seq::new(200, |i: int| 0u8));
        assert(sig@ =~= seq![10u8, 200, 1] + Seq::new(200, |i: int| 0u8));
    }
    match decode_multisig_signature(sig.as_slice()) {
        Ok(result) => {
            assert(byte_strings(result@) == byte_strings(expected@));
            same_signatures(&result, &expected)
        },
        Err(_) => false,
    }
}

/// A blob that opens with zero bytes in place of a signature record is
/// refused, also where a length of two bytes stands further on.
pub fn test_decode_wrong_long_leb128() -> (ok: bool)
    ensures
        ok,
        ok <==> decoded_signatures(
            seq![
                0u8, 0, 0, 0, 0, 0, 0, 0x12, 205, 1, 1, 2, 3, 4, 5, 6, 7, 8, 9, 10, 11, 12, 13, 14,
                15,
            ],
        ) is None,
{
    let malformed_sig: Vec<u8> = vec![
        0u8, 0, 0, 0, 0, 0, 0, 0x12, 205, 1, 1, 2, 3, 4, 5, 6, 7, 8, 9, 10, 11, 12, 13, 14, 15,
    ];
    let result = decode_multisig_signature(malformed_sig.as_slice());
    result.is_err()
}

/// A blob of zero bytes and one tag, with no length behind it, is refused.
pub fn test_decode_malformed_sig_only_prefix() -> (ok: bool)
    ensures
        ok,
        ok <==> decoded_signatures(seq![0u8, 0, 0, 0, 0, 0, 0, 0x12]) is None,
{
    let malformed_sig: Vec<u8> = vec![0u8, 0, 0, 0, 0, 0, 0, 0x12];
    let result = decode_multisig_signature(malformed_sig.as_slice());
    result.is_err()
}

/// A record of length zero decodes to one empty signature.
pub fn test_decode_sig_length_zero() -> (ok: bool)
    ensures
        ok,
        ok <==> decoded_signatures(seq![10u8, 0]) == Some(seq![Seq::<u8>::empty()]),
{
    let expected: Vec<Vec<u8>> = vec![vec![]];
    let sig: Vec<u8> = vec![10u8, 0];
    proof {
        let only = seq![Seq::<u8>::empty()];
        assert(byte_strings(expected@) =~= only);
        assert(only.drop_first() =~= Seq::<Seq<u8>>::empty());
        reveal_with_fuel(records, 2);
        assert(varint(0) =~= seq![0u8]);
        assert(sig@ =~= signature_blob(only));
        lemma_decode_encode(only);
    }
    match decode_multisig_signature(sig.as_slice()) {
        Ok(result) => {
            assert(byte_strings(result@) == byte_strings(expected@));
            same_signatures(&result, &expected)
        },
        Err(_) => false,
    }
}

/// A blob of zero bytes and a tag, with a length behind it that announces
/// more bytes than follow, is refused.
pub fn test_decode_malformed_sig_wrong_length() -> (ok: bool)
    ensures
        ok,
        ok <==> decoded_signatures(seq![0u8, 0, 0, 0, 0, 0, 0, 0x12, 10, 0, 0]) is None,
{
    let malformed_sig: Vec<u8> = vec![0u8, 0, 0, 0, 0, 0, 0, 0x12, 10, 0, 0];
    let result = decode_multisig_signature(malformed_sig.as_slice());
    result.is_err()
}

/// Whether two lists hold the same signatures in the same order.
fn same_signatures(left: &Vec<Vec<u8>>, right: &Vec<Vec<u8>>) -> (same: bool)
    ensures
        same == (byte_strings(left@) == byte_strings(right@)),
{
    if left.len() != right.len() {
        assert(byte_strings(left@).len() != byte_strings(right@).len());
        return false;
    }
    let mut i: usize = 0;
    while i < left.len()
        invariant
            left.len() == right.len(),
            i <= left.len(),
            forall|j: int| 0 <= j < i ==> left@[j]@ == right@[j]@,
        decreases left.len() - i,
    {
        if !same_bytes(left[i].as_slice(), right[i].as_slice()) {
            assert(byte_strings(left@)[i as int] != byte_strings(right@)[i as int]);
            return false;
        }
        i = i + 1;
    }
    assert(byte_strings(left@) =~= byte_strings(right@));
    true
}

/// Whether two byte strings are the same.
fn same_bytes(left: &[u8], right: &[u8]) -> (same: bool)
    ensures
        same == (left@ == right@),
{
    if left.len() != right.len() {
        return false;
    }
    let mut i: usize = 0;
    while i < left.len()
        invariant
            left.len() == right.len(),
            i <= left.len(),
            forall|j: int| 0 <= j < i ==> left@[j] == right@[j],
        decreases left.len() - i,
    {
        if left[i] != right[i] {
            return false;
        }
        i = i + 1;
    }
    assert(left@ =~= right@);
    true
}

} // verus!
