//! The wire format of a signature set: one record per signature, each under
//! the tag of field one with a length-delimited payload.

use vstd::prelude::*;
use vstd::slice::{slice_subrange, slice_to_vec};
use crate::error::{CryptoError, EncodingError};
use crate::record::{append_record, byte_strings, lemma_records_push, record, records};
use crate::varint::{
    decode_varint, lemma_parse_varint_of_varint, lemma_parse_varint_within, parse_varint, varint,
};

verus! {

/// The tag of a signature record: field one, length-delimited.
pub const SIGNATURE_PREFIX: u8 = 0x0a;

/// The payloads of the signature records that make up `blob`, in the order of
/// the blob. There are none where a tag is not [`SIGNATURE_PREFIX`], where a
/// length is no varint, or where a payload would end behind the blob.
pub open spec fn parse_signatures(blob: Seq<u8>) -> Option<Seq<Seq<u8>>>
    decreases blob.len(),
{
    if blob.len() == 0 {
        Some(Seq::empty())
    } else if blob[0] != SIGNATURE_PREFIX {
        None
    } else {
        match parse_varint(blob.skip(1)) {
            None => None,
            Some((length, used)) => {
                let start = 1 + used as int;
                let end = start + length as int;
                if end > blob.len() {
                    None
                } else {
                    match parse_signatures(blob.skip(end)) {
                        None => None,
                        Some(rest) => Some(seq![blob.subrange(start, end)] + rest),
                    }
                }
            },
        }
    }
}

/// What a signature blob decodes to: the payloads of its records, of which
/// there is at least one.
pub open spec fn decoded_signatures(blob: Seq<u8>) -> Option<Seq<Seq<u8>>> {
    match parse_signatures(blob) {
        Some(signatures) => if signatures.len() > 0 {
            Some(signatures)
        } else {
            None
        },
        None => None,
    }
}

/// The blob that carries `signatures`.
pub open spec fn signature_blob(signatures: Seq<Seq<u8>>) -> Seq<u8> {
    records(SIGNATURE_PREFIX, signatures)
}

/// Decodes a signature blob into its signatures, in the order of the blob.
/// A signature may be empty. A blob without any record is refused like a
/// malformed one.
pub fn decode_multisig_signature(raw_blob: &[u8]) -> (r: Result<Vec<Vec<u8>>, CryptoError>)
    ensures
        match r {
            Ok(signatures) => decoded_signatures(raw_blob@) == Some(byte_strings(signatures@)),
            Err(e) => e == CryptoError::ParsingError && decoded_signatures(raw_blob@) is None,
        },
{
    let blob_size = raw_blob.len();
    let mut signatures: Vec<Vec<u8>> = Vec::new();
    let mut idx: usize = 0;
    proof {
        assert(raw_blob@.skip(0) =~= raw_blob@);
        assert(byte_strings(signatures@) =~= Seq::<Seq<u8>>::empty());
    }
    while idx < blob_size
        invariant
            blob_size == raw_blob@.len(),
            idx <= blob_size,
            parse_signatures(raw_blob@) == match parse_signatures(raw_blob@.skip(idx as int)) {
                Some(rest) => Some(byte_strings(signatures@) + rest),
                None => None,
            },
        decreases blob_size - idx,
    {
        let ghost window = raw_blob@.skip(idx as int);
        if raw_blob[idx] != SIGNATURE_PREFIX {
            return Err(CryptoError::ParsingError);
        }
        let sig_including_len = slice_subrange(raw_blob, idx + 1, blob_size);
        proof {
            assert(window.skip(1) =~= sig_including_len@);
            lemma_parse_varint_within(sig_including_len@);
        }
        let (length, used) = match decode_varint(sig_including_len) {
            Some(found) => found,
            None => {
                return Err(CryptoError::ParsingError);
            },
        };
        let start = idx + 1 + used;
        if length > (blob_size - start) as u64 {
            return Err(CryptoError::ParsingError);
        }
        let end = start + length as usize;
        let raw_signature = slice_to_vec(slice_subrange(raw_blob, start, end));
        proof {
            let payload = window.subrange(1 + used, 1 + used + length);
            assert(payload =~= raw_signature@);
            assert(window.skip(1 + used + length) =~= raw_blob@.skip(end as int));
            let before = byte_strings(signatures@);
            assert(byte_strings(signatures@.push(raw_signature)) =~= before + seq![payload]);
            match parse_signatures(raw_blob@.skip(end as int)) {
                Some(rest) => {
                    assert(before + (seq![payload] + rest) =~= (before + seq![payload]) + rest);
                },
                None => {},
            }
        }
        signatures.push(raw_signature);
        idx = end;
    }
    if signatures.len() == 0 {
        return Err(CryptoError::ParsingError);
    }
    Ok(signatures)
}

/// Encodes `signatures` as a signature blob, one record for each in their
/// order. It does not fail. Of every list but the empty one the blob decodes
/// to the list again.
pub fn encode_multisig_signature(signatures: &Vec<Vec<u8>>) -> (r: Result<Vec<u8>, EncodingError>)
    ensures
        r matches Ok(blob) && blob@ == signature_blob(byte_strings(signatures@)),
        signatures@.len() > 0 ==> (r matches Ok(blob) && decoded_signatures(blob@) == Some(
            byte_strings(signatures@),
        )),
{
    let mut blob: Vec<u8> = Vec::new();
    let mut i: usize = 0;
    let ghost all = byte_strings(signatures@);
    proof {
        assert(all.take(0) =~= Seq::<Seq<u8>>::empty());
    }
    while i < signatures.len()
        invariant
            i <= signatures.len(),
            all == byte_strings(signatures@),
            blob@ == signature_blob(all.take(i as int)),
        decreases signatures.len() - i,
    {
        proof {
            lemma_records_push(SIGNATURE_PREFIX, all.take(i as int), all[i as int]);
            assert(all.take(i as int).push(all[i as int]) =~= all.take(i + 1));
        }
        match append_record(&mut blob, SIGNATURE_PREFIX, signatures[i].as_slice()) {
            Ok(()) => {},
            Err(e) => {
                return Err(e);
            },
        }
        i = i + 1;
    }
    proof {
        assert(all.take(i as int) =~= all);
        if all.len() > 0 {
            assert forall|j: int| 0 <= j < all.len() implies all[j].len() <= u64::MAX by {
                assert(all[j].len() == signatures@[j].len());
            }
            lemma_decode_encode(all);
        }
    }
    Ok(blob)
}

/// Decoding gives back what was encoded: the blob of a list of signatures,
/// of which there is at least one, decodes to that list.
pub proof fn lemma_decode_encode(signatures: Seq<Seq<u8>>)
    requires
        signatures.len() > 0,
        forall|i: int| 0 <= i < signatures.len() ==> signatures[i].len() <= u64::MAX,
    ensures
        decoded_signatures(signature_blob(signatures)) == Some(signatures),
{
    lemma_parse_records(signatures);
}

/// The records of a list of payloads parse to that list.
pub proof fn lemma_parse_records(signatures: Seq<Seq<u8>>)
    requires
        forall|i: int| 0 <= i < signatures.len() ==> signatures[i].len() <= u64::MAX,
    ensures
        parse_signatures(signature_blob(signatures)) == Some(signatures),
    decreases signatures.len(),
{
    let blob = signature_blob(signatures);
    if signatures.len() == 0 {
        assert(signatures =~= Seq::<Seq<u8>>::empty());
    } else {
        let first = signatures[0];
        let rest = signatures.drop_first();
        let rest_blob = signature_blob(rest);
        let length_bytes = varint(first.len());
        assert(blob == record(SIGNATURE_PREFIX, first) + rest_blob);
        assert(blob.skip(1) =~= length_bytes + (first + rest_blob));
        lemma_parse_varint_of_varint(first.len() as u64, first + rest_blob);
        let start = 1 + length_bytes.len();
        let end = start + first.len();
        assert(blob.subrange(start as int, end as int) =~= first);
        assert(blob.skip(end as int) =~= rest_blob);
        lemma_parse_records(rest);
        assert(seq![first] + rest =~= signatures);
    }
}

} // verus!
