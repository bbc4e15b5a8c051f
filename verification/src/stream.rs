//! Whole streams: what a decoder hands out when its source delivers the bytes
//! in pieces, and what reaches a sink that accepts the bytes in pieces.

use crate::decoder::{end_of_stream, oversized, DecodeError};
use crate::encoder::{flush_step, EncodeError, EncodeStep, SinkReply};
use crate::wire::{
    after_first, announced_len, encode_frame, encode_frames, first_payload, has_frame, header,
    lemma_frame_boundary, lemma_frame_stays, lemma_header_round_trip, HEADER_LEN,
};
use vstd::prelude::*;

verus! {

/// The frames that a decoder hands out and the way its sequence ends (`None`
/// for a clean end) when all of `bytes` is buffered and the source has ended.
pub open spec fn decode_all<E>(bytes: Seq<u8>) -> (Seq<Seq<u8>>, Option<DecodeError<E>>)
    decreases bytes.len(),
{
    if oversized(bytes) {
        (Seq::empty(), Some(DecodeError::FrameTooLarge { len: announced_len(bytes) as u64 }))
    } else if has_frame(bytes) {
        let (frames, end) = decode_all::<E>(after_first(bytes));
        (seq![first_payload(bytes)] + frames, end)
    } else {
        (Seq::empty(), end_of_stream(bytes))
    }
}

/// The bytes that a source delivers before it ends, when its reads return
/// `reads` one after the other: a read that returns nothing is the end.
pub open spec fn delivered(reads: Seq<Seq<u8>>) -> Seq<u8>
    decreases reads.len(),
{
    if reads.len() == 0 || reads.first().len() == 0 {
        Seq::empty()
    } else {
        reads.first() + delivered(reads.drop_first())
    }
}

/// The frames that a decoder hands out and the way its sequence ends when it
/// holds `pending` and is driven step by step: a frame whenever one is
/// complete, a read whenever none is, until the source ends or decoding
/// fails.
pub open spec fn decode_run<E>(pending: Seq<u8>, reads: Seq<Seq<u8>>) -> (
    Seq<Seq<u8>>,
    Option<DecodeError<E>>,
)
    decreases reads.len(), pending.len(),
{
    if oversized(pending) {
        (Seq::empty(), Some(DecodeError::FrameTooLarge { len: announced_len(pending) as u64 }))
    } else if has_frame(pending) {
        let (frames, end) = decode_run::<E>(after_first(pending), reads);
        (seq![first_payload(pending)] + frames, end)
    } else if reads.len() == 0 || reads.first().len() == 0 {
        (Seq::empty(), end_of_stream(pending))
    } else {
        decode_run(pending + reads.first(), reads.drop_first())
    }
}

/// Where the reads cut the stream does not matter: a decoder driven step by
/// step hands out what it would if all the bytes had come at once.
pub proof fn lemma_pieces_do_not_matter<E>(pending: Seq<u8>, reads: Seq<Seq<u8>>)
    ensures
        decode_run::<E>(pending, reads) == decode_all::<E>(pending + delivered(reads)),
    decreases reads.len(), pending.len(),
{
    let more = delivered(reads);
    if pending.len() >= HEADER_LEN {
        lemma_frame_stays(pending, more);
    }
    if oversized(pending) {
    } else if has_frame(pending) {
        lemma_pieces_do_not_matter::<E>(after_first(pending), reads);
    } else if reads.len() == 0 || reads.first().len() == 0 {
        assert(pending + more == pending);
    } else {
        lemma_pieces_do_not_matter::<E>(pending + reads.first(), reads.drop_first());
        assert((pending + reads.first()) + delivered(reads.drop_first()) == pending + more);
    }
}

/// Decoding what was encoded gives the payloads back, in order, and then a
/// clean end.
pub proof fn lemma_round_trip<E>(payloads: Seq<Seq<u8>>)
    requires
        forall|i: int| 0 <= i < payloads.len() ==> (#[trigger] payloads[i]).len() <= isize::MAX,
    ensures
        decode_all::<E>(encode_frames(payloads)) == (payloads, None::<DecodeError<E>>),
    decreases payloads.len(),
{
    if payloads.len() > 0 {
        let rest = encode_frames(payloads.drop_first());
        lemma_frame_boundary(payloads.first(), rest);
        lemma_round_trip::<E>(payloads.drop_first());
        assert(seq![payloads.first()] + payloads.drop_first() == payloads);
    }
}

/// The round trip holds however the source cuts the encoded bytes into reads.
pub proof fn lemma_round_trip_in_pieces<E>(payloads: Seq<Seq<u8>>, reads: Seq<Seq<u8>>)
    requires
        forall|i: int| 0 <= i < payloads.len() ==> (#[trigger] payloads[i]).len() <= isize::MAX,
        delivered(reads) == encode_frames(payloads),
    ensures
        decode_run::<E>(Seq::empty(), reads) == (payloads, None::<DecodeError<E>>),
{
    lemma_pieces_do_not_matter::<E>(Seq::empty(), reads);
    lemma_round_trip::<E>(payloads);
    assert(Seq::<u8>::empty() + delivered(reads) == delivered(reads));
}

/// A source that ends at once, with nothing buffered, gives no frame and no
/// error.
pub proof fn lemma_empty_source<E>()
    ensures
        decode_run::<E>(Seq::empty(), Seq::empty()) == (
            Seq::<Seq<u8>>::empty(),
            None::<DecodeError<E>>,
        ),
{
}

/// How a frame that is cut short is reported, by the number of its bytes
/// that came.
pub open spec fn cut_short<E>(payload_len: nat, came: nat) -> DecodeError<E> {
    if came < HEADER_LEN {
        DecodeError::IncompleteHeader { missing: (HEADER_LEN - came) as u8 }
    } else if came == HEADER_LEN {
        DecodeError::NoPayloadData
    } else {
        DecodeError::IncompletePayload { missing: (payload_len - (came - HEADER_LEN)) as u64 }
    }
}

/// A stream that ends inside a frame gives every frame before it, and then
/// the error that says how much of the last one is missing.
pub proof fn lemma_truncated<E>(payloads: Seq<Seq<u8>>, last: Seq<u8>, came: nat)
    requires
        forall|i: int| 0 <= i < payloads.len() ==> (#[trigger] payloads[i]).len() <= isize::MAX,
        last.len() <= isize::MAX,
        0 < came < HEADER_LEN + last.len(),
    ensures
        decode_all::<E>(encode_frames(payloads) + encode_frame(last).take(came as int)) == (
            payloads,
            Some(cut_short::<E>(last.len(), came)),
        ),
    decreases payloads.len(),
{
    let tail = encode_frame(last).take(came as int);
    lemma_header_round_trip(last.len());
    if payloads.len() == 0 {
        assert(encode_frames(payloads) + tail == tail);
        if came >= HEADER_LEN {
            assert(tail.take(HEADER_LEN as int) == header(last.len()));
        }
    } else {
        let rest = encode_frames(payloads.drop_first()) + tail;
        lemma_frame_boundary(payloads.first(), rest);
        lemma_truncated::<E>(payloads.drop_first(), last, came);
        assert(encode_frames(payloads) + tail == encode_frame(payloads.first()) + rest);
        assert(seq![payloads.first()] + payloads.drop_first() == payloads);
    }
}

/// The sum of the numbers in `accepted`.
pub open spec fn total(accepted: Seq<usize>) -> nat
    decreases accepted.len(),
{
    if accepted.len() == 0 {
        0
    } else {
        accepted.first() as nat + total(accepted.drop_first())
    }
}

/// What reaches the sink, the step at which the writing stops, and the bytes
/// then still unwritten, when a flush is driven step by step and the sink
/// accepts `accepted[i]` bytes of the `i`-th write (never more than it is
/// offered). The writing stops when a step asks for no write, or when
/// `accepted` runs out.
pub open spec fn flush_run<E>(
    pending: Seq<u8>,
    reply: Option<SinkReply<E>>,
    accepted: Seq<usize>,
) -> (Seq<u8>, EncodeStep<E>, Seq<u8>)
    decreases accepted.len(),
{
    let (rest, step) = flush_step(pending, reply);
    if step is Write && accepted.len() > 0 {
        let n = if accepted.first() <= rest.len() {
            accepted.first()
        } else {
            rest.len() as usize
        };
        let (sent, last, left) = flush_run::<E>(
            rest,
            Some(SinkReply::Wrote(Ok(n))),
            accepted.drop_first(),
        );
        (rest.take(n as int) + sent, last, left)
    } else {
        (Seq::empty(), step, rest)
    }
}

/// Whatever the sink accepts, the bytes that reached it followed by the bytes
/// still unwritten are the bytes that were to be written: none is lost,
/// repeated or out of place.
pub proof fn lemma_flush_keeps_order<E>(
    pending: Seq<u8>,
    reply: Option<SinkReply<E>>,
    accepted: Seq<usize>,
)
    ensures
        flush_run(pending, reply, accepted).0 + flush_run(pending, reply, accepted).2
            == flush_step(pending, reply).0,
        flush_run(pending, reply, accepted).1 is Flush ==> flush_run(pending, reply, accepted).2
            == Seq::<u8>::empty(),
    decreases accepted.len(),
{
    let (rest, step) = flush_step(pending, reply);
    if step is Write && accepted.len() > 0 {
        let n = if accepted.first() <= rest.len() {
            accepted.first()
        } else {
            rest.len() as usize
        };
        let next = Some(SinkReply::<E>::Wrote(Ok(n)));
        lemma_flush_keeps_order(rest, next, accepted.drop_first());
        let (sent, last, left) = flush_run::<E>(rest, next, accepted.drop_first());
        if n > 0 {
            assert(rest.take(n as int) + rest.skip(n as int) == rest);
            assert((rest.take(n as int) + sent) + left == rest.take(n as int) + (sent + left));
        } else {
            assert(rest.take(0) + sent + left == sent + left);
        }
    } else {
        assert(Seq::<u8>::empty() + rest == rest);
    }
}

/// A flush that resumes after a write of `n` bytes goes on as a fresh flush
/// of what is left.
proof fn lemma_flush_resumes<E>(pending: Seq<u8>, n: usize, accepted: Seq<usize>)
    requires
        0 < n <= pending.len(),
    ensures
        flush_run::<E>(pending, Some(SinkReply::Wrote(Ok(n))), accepted) == flush_run::<E>(
            pending.skip(n as int),
            None,
            accepted,
        ),
{
}

/// A sink that accepts the bytes in pieces of any size, none of them empty,
/// has received all of them, in order, when the writing is done; the sink's
/// own flush is the next step.
pub proof fn lemma_flush_completes<E>(pending: Seq<u8>, accepted: Seq<usize>)
    requires
        forall|i: int| 0 <= i < accepted.len() ==> accepted[i] > 0,
        total(accepted) == pending.len(),
    ensures
        flush_run::<E>(pending, None, accepted) == (
            pending,
            EncodeStep::<E>::Flush,
            Seq::<u8>::empty(),
        ),
    decreases accepted.len(),
{
    if accepted.len() > 0 {
        let n = accepted.first();
        assert(n == accepted[0]);
        let rest = pending.skip(n as int);
        assert forall|i: int| 0 <= i < accepted.drop_first().len() implies accepted.drop_first()[i]
            > 0 by {
            assert(accepted.drop_first()[i] == accepted[i + 1]);
        }
        lemma_flush_resumes::<E>(pending, n, accepted.drop_first());
        lemma_flush_completes::<E>(rest, accepted.drop_first());
        assert(pending.take(n as int) + rest == pending);
    }
}

/// A sink that accepts nothing of a write stops the flush with `WriteZero`:
/// what it accepted before has reached it, and nothing is written after.
pub proof fn lemma_write_zero_halts<E>(pending: Seq<u8>, accepted: Seq<usize>, k: int)
    requires
        0 <= k < accepted.len(),
        forall|i: int| 0 <= i < k ==> accepted[i] > 0,
        accepted[k] == 0,
        total(accepted.take(k)) < pending.len(),
    ensures
        flush_run::<E>(pending, None, accepted) == (
            pending.take(total(accepted.take(k)) as int),
            EncodeStep::<E>::Failed(EncodeError::WriteZero),
            pending.skip(total(accepted.take(k)) as int),
        ),
    decreases k,
{
    let written = total(accepted.take(k));
    if k == 0 {
        assert(accepted.first() == accepted[0]);
        assert(accepted.take(0).len() == 0);
        assert(written == 0);
        let stopped = flush_run::<E>(
            pending,
            Some(SinkReply::Wrote(Ok(0usize))),
            accepted.drop_first(),
        );
        assert(stopped == (
            Seq::<u8>::empty(),
            EncodeStep::<E>::Failed(EncodeError::WriteZero),
            pending,
        ));
        assert(pending.take(0) + Seq::<u8>::empty() == pending.take(0));
        assert(pending.skip(0) == pending);
    } else {
        let n = accepted.first();
        assert(n == accepted[0]);
        let rest = pending.skip(n as int);
        assert(accepted.take(k).first() == n);
        assert(accepted.take(k).drop_first() == accepted.drop_first().take(k - 1));
        assert forall|i: int| 0 <= i < k - 1 implies accepted.drop_first()[i] > 0 by {
            assert(accepted.drop_first()[i] == accepted[i + 1]);
        }
        assert(written == n + total(accepted.drop_first().take(k - 1)));
        lemma_flush_resumes::<E>(pending, n, accepted.drop_first());
        lemma_write_zero_halts::<E>(rest, accepted.drop_first(), k - 1);
        assert(pending.take(n as int) + rest.take(written - n) == pending.take(written as int));
        assert(rest.skip(written - n) == pending.skip(written as int));
    }
}

/// From one end to the other: frames submitted in order, flushed to a sink
/// that accepts them in pieces, and read back in pieces, come out as they
/// went in, followed by a clean end.
pub proof fn lemma_end_to_end<E, F>(
    payloads: Seq<Seq<u8>>,
    accepted: Seq<usize>,
    reads: Seq<Seq<u8>>,
)
    requires
        forall|i: int| 0 <= i < payloads.len() ==> (#[trigger] payloads[i]).len() <= isize::MAX,
        forall|i: int| 0 <= i < accepted.len() ==> accepted[i] > 0,
        total(accepted) == encode_frames(payloads).len(),
        delivered(reads) == flush_run::<F>(encode_frames(payloads), None, accepted).0,
    ensures
        decode_run::<E>(Seq::empty(), reads) == (payloads, None::<DecodeError<E>>),
{
    lemma_flush_completes::<F>(encode_frames(payloads), accepted);
    lemma_round_trip_in_pieces::<E>(payloads, reads);
}

} // verus!
