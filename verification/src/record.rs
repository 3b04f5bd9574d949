//! Length-delimited records: a one-byte tag, the varint of the payload's
//! length, the payload.

use vstd::prelude::*;
use crate::error::EncodingError;
use crate::varint::{encode_length_delimiter, lemma_varint_prefix_free, varint};

verus! {

/// The record that carries `payload` under `tag`.
pub open spec fn record(tag: u8, payload: Seq<u8>) -> Seq<u8> {
    seq![tag] + varint(payload.len()) + payload
}

/// The records of `payloads` under `tag`, one after the other.
pub open spec fn records(tag: u8, payloads: Seq<Seq<u8>>) -> Seq<u8>
    decreases payloads.len(),
{
    if payloads.len() == 0 {
        Seq::empty()
    } else {
        record(tag, payloads[0]) + records(tag, payloads.drop_first())
    }
}

/// The byte strings that a list of vectors holds.
pub open spec fn byte_strings(list: Seq<Vec<u8>>) -> Seq<Seq<u8>> {
    Seq::new(list.len(), |i: int| list[i]@)
}

/// The records of a list with one more payload are the records of the list,
/// then the record of that payload.
pub proof fn lemma_records_push(tag: u8, payloads: Seq<Seq<u8>>, payload: Seq<u8>)
    ensures
        records(tag, payloads.push(payload)) == records(tag, payloads) + record(tag, payload),
    decreases payloads.len(),
{
    let pushed = payloads.push(payload);
    if payloads.len() == 0 {
        assert(pushed.drop_first() =~= payloads);
        assert(records(tag, pushed) =~= records(tag, payloads) + record(tag, payload));
    } else {
        assert(pushed.drop_first() =~= payloads.drop_first().push(payload));
        lemma_records_push(tag, payloads.drop_first(), payload);
        assert(records(tag, pushed) =~= records(tag, payloads) + record(tag, payload));
    }
}

/// Records can be read in one way only: two lists of payloads with the same
/// records are the same list.
pub proof fn lemma_records_injective(tag: u8, left: Seq<Seq<u8>>, right: Seq<Seq<u8>>)
    requires
        records(tag, left) == records(tag, right),
    ensures
        left == right,
    decreases left.len(),
{
    if left.len() == 0 {
        if right.len() > 0 {
            assert(record(tag, right[0]).len() >= 1);
        }
        assert(left =~= right);
    } else {
        if right.len() == 0 {
            assert(record(tag, left[0]).len() >= 1);
        }
        let left_rest = records(tag, left.drop_first());
        let right_rest = records(tag, right.drop_first());
        let whole = records(tag, left);
        assert(whole.skip(1) =~= varint(left[0].len()) + (left[0] + left_rest));
        assert(whole.skip(1) =~= varint(right[0].len()) + (right[0] + right_rest));
        lemma_varint_prefix_free(
            left[0].len(),
            left[0] + left_rest,
            right[0].len(),
            right[0] + right_rest,
        );
        let both = left[0] + left_rest;
        let len = left[0].len() as int;
        assert(both.take(len) =~= left[0]);
        assert(both.take(len) =~= right[0]);
        assert(both.skip(len) =~= left_rest);
        assert(both.skip(len) =~= right_rest);
        lemma_records_injective(tag, left.drop_first(), right.drop_first());
        assert(left =~= seq![left[0]] + left.drop_first());
        assert(right =~= seq![right[0]] + right.drop_first());
    }
}

/// Appends the record of `payload` under `tag` to `out`. The error is that of
/// a length without a delimiter; no length is without one, so it never comes.
pub fn append_record(out: &mut Vec<u8>, tag: u8, payload: &[u8]) -> (r: Result<(), EncodingError>)
    ensures
        r is Ok,
        final(out)@ == old(out)@ + record(tag, payload@),
{
    let length_bytes = match encode_length_delimiter(payload.len()) {
        Ok(bytes) => bytes,
        Err(_) => {
            return Err(EncodingError);
        },
    };
    out.push(tag);
    out.extend_from_slice(length_bytes.as_slice());
    out.extend_from_slice(payload);
    assert(out@ =~= old(out)@ + record(tag, payload@));
    Ok(())
}

} // verus!
