//! Base-128 variable-length integers, least significant group first.

use vstd::prelude::*;

verus! {

/// The most bytes that the varint of a 64-bit value takes.
pub const MAX_VARINT_LEN: usize = 10;

/// The varint of `value`: seven bits to a byte, least significant group first,
/// the high bit set on every byte but the last.
pub open spec fn varint(value: nat) -> Seq<u8>
    decreases value,
{
    if value < 128 {
        seq![value as u8]
    } else {
        seq![(value % 128 + 128) as u8] + varint(value / 128)
    }
}

/// Position of the first byte of `bytes` whose high bit is clear, if there is one.
pub open spec fn terminator(bytes: Seq<u8>) -> Option<nat>
    decreases bytes.len(),
{
    if bytes.len() == 0 {
        None
    } else if bytes[0] < 128 {
        Some(0)
    } else {
        match terminator(bytes.drop_first()) {
            Some(k) => Some(k + 1),
            None => None,
        }
    }
}

/// The number whose base-128 digits, least significant first, are the low
/// seven bits of each byte of `bytes`.
pub open spec fn base128(bytes: Seq<u8>) -> nat
    decreases bytes.len(),
{
    if bytes.len() == 0 {
        0
    } else {
        (bytes[0] % 128) as nat + 128 * base128(bytes.drop_first())
    }
}

/// The varint that `bytes` starts with: its value and the number of bytes it
/// takes. There is none where no byte among the first ten ends it, or where
/// its value does not fit in 64 bits.
pub open spec fn parse_varint(bytes: Seq<u8>) -> Option<(u64, nat)> {
    match terminator(bytes) {
        Some(k) => {
            let value = base128(bytes.take((k + 1) as int));
            if k < MAX_VARINT_LEN && value <= u64::MAX {
                Some((value as u64, k + 1))
            } else {
                None
            }
        },
        None => None,
    }
}

/// 128 to the power `n`.
spec fn pow128(n: nat) -> nat
    decreases n,
{
    if n == 0 {
        1
    } else {
        128 * pow128((n - 1) as nat)
    }
}

/// Appending a byte adds its low seven bits as the next base-128 digit.
proof fn lemma_base128_push(bytes: Seq<u8>, byte: u8)
    ensures
        base128(bytes.push(byte)) == base128(bytes) + (byte % 128) * pow128(bytes.len()),
    decreases bytes.len(),
{
    let digit = (byte % 128) as nat;
    let pushed = bytes.push(byte);
    if bytes.len() == 0 {
        assert(pushed.drop_first() =~= bytes);
        assert(pow128(0) == 1);
        assert(digit * 1 == digit);
    } else {
        let rest = bytes.drop_first();
        assert(pushed.drop_first() =~= rest.push(byte));
        assert(pushed[0] == bytes[0]);
        lemma_base128_push(rest, byte);
        assert(pow128(bytes.len()) == 128 * pow128(rest.len()));
        assert(128 * (base128(rest) + digit * pow128(rest.len())) == 128 * base128(rest) + digit
            * (128 * pow128(rest.len()))) by (nonlinear_arith);
    }
}

/// A number of `n` base-128 digits is below 128 to the power `n`.
proof fn lemma_base128_bound(bytes: Seq<u8>)
    ensures
        base128(bytes) < pow128(bytes.len()),
    decreases bytes.len(),
{
    if bytes.len() > 0 {
        lemma_base128_bound(bytes.drop_first());
    }
}

/// Where the first `n` bytes all carry the high bit, no terminator lies among them.
proof fn lemma_terminator_after(bytes: Seq<u8>, n: nat)
    requires
        n <= bytes.len(),
        forall|j: int| 0 <= j < n ==> bytes[j] >= 128,
    ensures
        terminator(bytes) == match terminator(bytes.skip(n as int)) {
            Some(k) => Some(k + n),
            None => None,
        },
    decreases n,
{
    if n == 0 {
        assert(bytes.skip(0) =~= bytes);
    } else {
        let rest = bytes.drop_first();
        assert(rest.skip(n - 1) =~= bytes.skip(n as int));
        lemma_terminator_after(rest, (n - 1) as nat);
    }
}

/// A terminator lies within the bytes.
proof fn lemma_terminator_within(bytes: Seq<u8>)
    ensures
        terminator(bytes) matches Some(k) ==> k < bytes.len(),
    decreases bytes.len(),
{
    if bytes.len() > 0 && bytes[0] >= 128 {
        lemma_terminator_within(bytes.drop_first());
    }
}

/// A varint takes at least one byte and no more than ten, and lies within
/// the bytes it was read from.
pub proof fn lemma_parse_varint_within(bytes: Seq<u8>)
    ensures
        parse_varint(bytes) matches Some((_, used)) ==> 1 <= used <= bytes.len() && used
            <= MAX_VARINT_LEN,
{
    lemma_terminator_within(bytes);
}

/// The varint of a value below 128 to the power `n` has at most `n` bytes.
proof fn lemma_varint_len(value: nat, n: nat)
    requires
        n >= 1,
        value < pow128(n),
    ensures
        1 <= varint(value).len() <= n,
    decreases n,
{
    reveal_with_fuel(pow128, 2);
    if value >= 128 {
        assert(n >= 2);
        assert(value / 128 < pow128((n - 1) as nat)) by (nonlinear_arith)
            requires
                value < 128 * pow128((n - 1) as nat),
        ;
        lemma_varint_len(value / 128, (n - 1) as nat);
    }
}

/// A varint ends at its own last byte, whatever follows it.
proof fn lemma_varint_terminator(value: nat, tail: Seq<u8>)
    ensures
        terminator(varint(value) + tail) == Some((varint(value).len() - 1) as nat),
    decreases value,
{
    let whole = varint(value) + tail;
    if value < 128 {
        assert(whole[0] == value as u8);
    } else {
        let rest = varint(value / 128);
        assert(whole[0] == (value % 128 + 128) as u8);
        assert(whole.drop_first() =~= rest + tail);
        lemma_varint_terminator(value / 128, tail);
    }
}

/// The base-128 digits of a varint spell its value.
pub proof fn lemma_varint_value(value: nat)
    ensures
        base128(varint(value)) == value,
    decreases value,
{
    let bytes = varint(value);
    if value < 128 {
        assert(bytes.drop_first() =~= Seq::<u8>::empty());
        assert(base128(bytes.drop_first()) == 0);
    } else {
        assert(bytes.drop_first() =~= varint(value / 128));
        lemma_varint_value(value / 128);
        assert(bytes[0] == (value % 128 + 128) as u8);
        assert((value % 128 + 128) as u8 % 128 == value % 128);
    }
}

/// No varint is the start of another: where two of them, each followed by
/// more bytes, give the same bytes, they are the varints of one value and the
/// bytes that follow are the same.
pub proof fn lemma_varint_prefix_free(left: nat, left_tail: Seq<u8>, right: nat, right_tail: Seq<u8>)
    requires
        varint(left) + left_tail == varint(right) + right_tail,
    ensures
        left == right,
        left_tail == right_tail,
{
    let whole = varint(left) + left_tail;
    lemma_varint_terminator(left, left_tail);
    lemma_varint_terminator(right, right_tail);
    let len = varint(left).len() as int;
    assert(whole.take(len) =~= varint(left));
    assert(whole.take(len) =~= varint(right));
    lemma_varint_value(left);
    lemma_varint_value(right);
    assert(whole.skip(len) =~= left_tail);
    assert(whole.skip(len) =~= right_tail);
}

/// Reading back the varint of a 64-bit value gives that value and the length
/// of the varint, whatever bytes follow it.
pub proof fn lemma_parse_varint_of_varint(value: u64, tail: Seq<u8>)
    ensures
        1 <= varint(value as nat).len() <= MAX_VARINT_LEN,
        parse_varint(varint(value as nat) + tail) == Some((value, varint(value as nat).len())),
{
    let bytes = varint(value as nat);
    assert(pow128(10) == 0x40_0000_0000_0000_0000) by {
        reveal_with_fuel(pow128, 11);
    }
    lemma_varint_len(value as nat, 10);
    lemma_varint_terminator(value as nat, tail);
    lemma_varint_value(value as nat);
    assert((bytes + tail).take(bytes.len() as int) =~= bytes);
}

/// Reads the varint at the start of `bytes`, giving its value and how many
/// bytes it took.
pub fn decode_varint(bytes: &[u8]) -> (r: Option<(u64, usize)>)
    ensures
        match r {
            Some((value, used)) => parse_varint(bytes@) == Some((value, used as nat)),
            None => parse_varint(bytes@) is None,
        },
{
    let mut value: u64 = 0;
    let mut scale: u64 = 1;
    let mut i: usize = 0;
    proof {
        assert(bytes@.take(0) =~= Seq::<u8>::empty());
        reveal_with_fuel(pow128, 11);
    }
    while i < bytes.len() && i < MAX_VARINT_LEN
        invariant
            i <= bytes.len(),
            i <= MAX_VARINT_LEN,
            forall|j: int| 0 <= j < i ==> bytes@[j] >= 128,
            value == base128(bytes@.take(i as int)),
            i < MAX_VARINT_LEN ==> scale == pow128(i as nat),
        decreases bytes.len() - i,
    {
        let byte = bytes[i];
        let digit: u64 = (byte % 128) as u64;
        proof {
            reveal_with_fuel(pow128, 11);
            lemma_base128_bound(bytes@.take(i as int));
            lemma_base128_push(bytes@.take(i as int), byte);
            assert(bytes@.take(i as int).push(byte) =~= bytes@.take(i + 1));
            lemma_terminator_after(bytes@, i as nat);
            assert(bytes@.skip(i as int)[0] == byte);
            if byte >= 128 {
                assert(bytes@.skip(i as int).drop_first() =~= bytes@.skip(i + 1));
                if i + 1 < bytes.len() {
                    lemma_terminator_after(bytes@, (i + 1) as nat);
                }
            }
        }
        if i == MAX_VARINT_LEN - 1 && digit > 1 {
            assert(base128(bytes@.take(i + 1)) > u64::MAX) by (nonlinear_arith)
                requires
                    base128(bytes@.take(i + 1)) == value + digit * pow128(9),
                    pow128(9) == 0x8000_0000_0000_0000,
                    digit > 1,
            ;
            return None;
        }
        assert(value + digit * scale <= u64::MAX && digit * scale <= u64::MAX) by (nonlinear_arith)
            requires
                value < scale,
                scale <= 0x8000_0000_0000_0000,
                scale == 0x8000_0000_0000_0000 ==> digit <= 1,
                scale < 0x8000_0000_0000_0000 ==> scale <= 0x0100_0000_0000_0000,
                digit < 128,
        ;
        value = value + digit * scale;
        if byte < 128 {
            return Some((value, i + 1));
        }
        i = i + 1;
        if i < MAX_VARINT_LEN {
            scale = scale * 128;
        }
    }
    proof {
        lemma_terminator_after(bytes@, i as nat);
        if i == bytes.len() {
            assert(bytes@.skip(i as int).len() == 0);
        }
    }
    None
}

/// Writes the varint of `value` with `prost::encoding::encode_varint`, into a
/// buffer that is empty before the call. That function puts out seven bits of
/// the value at a time, least significant first, with the high bit set on
/// every byte but the last: the bytes of [`varint`].
#[verifier::external_body]
pub(crate) fn encode_varint(value: u64) -> (bytes: Vec<u8>)
    ensures
        bytes@ == varint(value as nat),
{
    let mut buf: Vec<u8> = Vec::new();
    prost::encoding::encode_varint(value, &mut buf);
    buf
}

/// The error of `prost` for a buffer too small to encode into.
#[verifier::external_type_specification]
#[verifier::external_body]
pub struct ExEncodeError(prost::EncodeError);

/// Writes `length` as a length delimiter with `prost::encode_length_delimiter`,
/// into a buffer that is empty before the call. That function fails only where
/// the buffer has less room left than the delimiter takes, and a vector can
/// still grow by far more than the ten bytes of the longest delimiter; it then
/// writes the varint of `length`. So the call succeeds and gives the bytes of
/// [`varint`].
#[verifier::external_body]
pub(crate) fn encode_length_delimiter(length: usize) -> (r: Result<Vec<u8>, prost::EncodeError>)
    ensures
        r is Ok,
        r matches Ok(bytes) ==> bytes@ == varint(length as nat),
{
    let mut buf: Vec<u8> = Vec::new();
    match prost::encode_length_delimiter(length, &mut buf) {
        Ok(()) => Ok(buf),
        Err(e) => Err(e),
    }
}

} // verus!
