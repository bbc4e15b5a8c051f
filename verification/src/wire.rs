//! The wire format: what bytes a list of frames becomes, and what frames a
//! run of bytes holds.

use vstd::prelude::*;

verus! {

/// Number of bytes in a frame header.
pub const HEADER_LEN: usize = 8;

/// 256 to the power `n`.
pub open spec fn radix_pow(n: nat) -> nat
    decreases n,
{
    if n == 0 {
        1
    } else {
        256 * radix_pow((n - 1) as nat)
    }
}

/// The number that `bytes` spell in base 256, most significant byte first.
pub open spec fn be_value(bytes: Seq<u8>) -> nat
    decreases bytes.len(),
{
    if bytes.len() == 0 {
        0
    } else {
        be_value(bytes.drop_last()) * 256 + bytes.last() as nat
    }
}

/// The `width` low-order base-256 digits of `value`, most significant first.
pub open spec fn be_digits(value: nat, width: nat) -> Seq<u8>
    decreases width,
{
    if width == 0 {
        Seq::empty()
    } else {
        be_digits(value / 256, (width - 1) as nat).push((value % 256) as u8)
    }
}

/// The header that announces a payload of `len` bytes.
pub open spec fn header(len: nat) -> Seq<u8> {
    be_digits(len, HEADER_LEN as nat)
}

/// One frame on the wire: its header, then its payload.
pub open spec fn encode_frame(payload: Seq<u8>) -> Seq<u8> {
    header(payload.len()) + payload
}

/// The frames of `payloads` on the wire, in order, with nothing between them.
pub open spec fn encode_frames(payloads: Seq<Seq<u8>>) -> Seq<u8>
    decreases payloads.len(),
{
    if payloads.len() == 0 {
        Seq::empty()
    } else {
        encode_frame(payloads.first()) + encode_frames(payloads.drop_first())
    }
}

/// The payload length that the first eight bytes of `bytes` announce.
pub open spec fn announced_len(bytes: Seq<u8>) -> nat
    recommends
        bytes.len() >= HEADER_LEN,
{
    be_value(bytes.take(HEADER_LEN as int))
}

/// Whether `bytes` start with a complete frame.
pub open spec fn has_frame(bytes: Seq<u8>) -> bool {
    bytes.len() >= HEADER_LEN && bytes.len() - HEADER_LEN >= announced_len(bytes)
}

/// The payload of the frame that `bytes` start with.
pub open spec fn first_payload(bytes: Seq<u8>) -> Seq<u8>
    recommends
        has_frame(bytes),
{
    bytes.subrange(HEADER_LEN as int, HEADER_LEN + announced_len(bytes))
}

/// What follows the frame that `bytes` start with.
pub open spec fn after_first(bytes: Seq<u8>) -> Seq<u8>
    recommends
        has_frame(bytes),
{
    bytes.skip(HEADER_LEN + announced_len(bytes))
}

/// 256 to the power `n` does not decrease as `n` grows.
pub proof fn lemma_radix_pow_monotonic(a: nat, b: nat)
    requires
        a <= b,
    ensures
        radix_pow(a) <= radix_pow(b),
    decreases b,
{
    if a < b {
        lemma_radix_pow_monotonic(a, (b - 1) as nat);
    }
}

/// A byte string of `n` bytes spells a number below 256 to the `n`.
pub proof fn lemma_be_value_bound(bytes: Seq<u8>)
    ensures
        be_value(bytes) < radix_pow(bytes.len()),
    decreases bytes.len(),
{
    if bytes.len() > 0 {
        lemma_be_value_bound(bytes.drop_last());
    }
}

/// Reading back the `width` digits of a number below 256 to the `width` gives
/// the number.
pub proof fn lemma_digits_value(value: nat, width: nat)
    requires
        value < radix_pow(width),
    ensures
        be_digits(value, width).len() == width,
        be_value(be_digits(value, width)) == value,
    decreases width,
{
    if width > 0 {
        let high = be_digits(value / 256, (width - 1) as nat);
        lemma_digits_value(value / 256, (width - 1) as nat);
        assert(be_digits(value, width).drop_last() == high);
    }
}

/// Writing out the value of a byte string in as many digits gives the byte
/// string.
pub proof fn lemma_value_digits(bytes: Seq<u8>)
    ensures
        be_digits(be_value(bytes), bytes.len()) == bytes,
    decreases bytes.len(),
{
    if bytes.len() > 0 {
        lemma_value_digits(bytes.drop_last());
        assert(bytes.drop_last().push(bytes.last()) == bytes);
    }
}

/// The header of a length that fits in a `u64` announces that length.
pub proof fn lemma_header_round_trip(len: nat)
    requires
        len <= u64::MAX,
    ensures
        header(len).len() == HEADER_LEN,
        be_value(header(len)) == len,
{
    reveal_with_fuel(radix_pow, 9);
    lemma_digits_value(len, HEADER_LEN as nat);
}

/// A frame that was encoded is found again at the front of any byte string
/// that starts with it, whatever follows.
pub proof fn lemma_frame_boundary(payload: Seq<u8>, rest: Seq<u8>)
    requires
        payload.len() <= u64::MAX,
    ensures
        has_frame(encode_frame(payload) + rest),
        announced_len(encode_frame(payload) + rest) == payload.len(),
        first_payload(encode_frame(payload) + rest) == payload,
        after_first(encode_frame(payload) + rest) == rest,
{
    let bytes = encode_frame(payload) + rest;
    lemma_header_round_trip(payload.len());
    assert(bytes.take(HEADER_LEN as int) == header(payload.len()));
    assert(first_payload(bytes) == payload);
    assert(after_first(bytes) == rest);
}

/// Frames go on the wire in the order of submission: a frame added last is
/// encoded after all the others, and no byte of it sooner.
pub proof fn lemma_encode_frames_push(payloads: Seq<Seq<u8>>, payload: Seq<u8>)
    ensures
        encode_frames(payloads.push(payload)) == encode_frames(payloads) + encode_frame(payload),
    decreases payloads.len(),
{
    let more = payloads.push(payload);
    if payloads.len() == 0 {
        assert(more.drop_first() == Seq::<Seq<u8>>::empty());
        assert(encode_frames(more.drop_first()) == Seq::<u8>::empty());
        assert(encode_frames(more) == encode_frame(payload) + Seq::<u8>::empty());
        assert(encode_frame(payload) + Seq::<u8>::empty() == Seq::<u8>::empty() + encode_frame(
            payload,
        ));
    } else {
        lemma_encode_frames_push(payloads.drop_first(), payload);
        assert(more.drop_first() == payloads.drop_first().push(payload));
        assert(encode_frame(payloads.first()) + (encode_frames(payloads.drop_first())
            + encode_frame(payload)) == (encode_frame(payloads.first()) + encode_frames(
            payloads.drop_first(),
        )) + encode_frame(payload));
    }
}

/// A byte string that starts with a complete frame still starts with that
/// frame when more bytes follow it.
pub proof fn lemma_frame_stays(bytes: Seq<u8>, more: Seq<u8>)
    requires
        bytes.len() >= HEADER_LEN,
    ensures
        announced_len(bytes + more) == announced_len(bytes),
        has_frame(bytes) ==> has_frame(bytes + more),
        has_frame(bytes) ==> first_payload(bytes + more) == first_payload(bytes),
        has_frame(bytes) ==> after_first(bytes + more) == after_first(bytes) + more,
{
    assert((bytes + more).take(HEADER_LEN as int) == bytes.take(HEADER_LEN as int));
    if has_frame(bytes) {
        assert(first_payload(bytes + more) == first_payload(bytes));
        assert(after_first(bytes + more) == after_first(bytes) + more);
    }
}

/// Appends the header for a payload of `len` bytes to `out`.
pub fn put_header(out: &mut Vec<u8>, len: u64)
    ensures
        final(out)@ == old(out)@ + header(len as nat),
{
    let mut digits: [u8; 8] = [0u8; 8];
    let mut rest: u64 = len;
    let mut i: usize = 0;
    while i < 8
        invariant
            i <= 8,
            digits@.len() == 8,
            header(len as nat) == be_digits(rest as nat, (8 - i) as nat) + digits@.skip(8 - i),
        decreases 8 - i,
    {
        let ghost before = digits@;
        digits[7 - i] = (rest % 256) as u8;
        proof {
            let w = (8 - i) as nat;
            assert(be_digits(rest as nat, w) == be_digits(rest as nat / 256, (w - 1) as nat).push(
                (rest as nat % 256) as u8,
            ));
            assert(digits@.skip(7 - i) == seq![(rest as nat % 256) as u8] + before.skip(8 - i));
            assert(be_digits(rest as nat, w) + before.skip(8 - i) == be_digits(
                rest as nat / 256,
                (w - 1) as nat,
            ) + digits@.skip(7 - i));
        }
        rest = rest / 256;
        i += 1;
    }
    assert(be_digits(rest as nat, 0) + digits@.skip(0) == digits@);
    out.extend_from_slice(digits.as_slice());
    assert(final(out)@ == old(out)@ + digits@);
}

/// Reads the payload length that the first eight bytes of `bytes` announce.
pub fn header_value(bytes: &[u8]) -> (len: u64)
    requires
        bytes@.len() >= HEADER_LEN,
    ensures
        len == announced_len(bytes@),
{
    let mut value: u64 = 0;
    let mut i: usize = 0;
    while i < 8
        invariant
            i <= 8,
            bytes@.len() >= 8,
            value == be_value(bytes@.take(i as int)),
        decreases 8 - i,
    {
        proof {
            let next = bytes@.take(i + 1);
            assert(next.drop_last() == bytes@.take(i as int));
            assert(next.last() == bytes@[i as int]);
            lemma_be_value_bound(next);
            reveal_with_fuel(radix_pow, 9);
            assert(radix_pow(next.len()) <= radix_pow(8)) by {
                lemma_radix_pow_monotonic(next.len(), 8);
            }
        }
        value = value * 256 + bytes[i] as u64;
        i += 1;
    }
    value
}

} // verus!
