//! Serialising frames and handing them to a sink that takes them in pieces.

use crate::wire::{encode_frame, put_header};
use vstd::prelude::*;
use vstd::slice::slice_subrange;

verus! {

/// Capacity of the buffer that [`Encoder::new`] allocates.
pub const DEFAULT_CAPACITY: usize = 1024;

/// Why an encoder gave up.
#[derive(Debug, PartialEq, Eq)]
pub enum EncodeError<E> {
    /// The sink accepted none of the bytes it was offered.
    WriteZero,
    /// The sink itself failed; its error is handed on unchanged.
    SinkIoError(E),
}

/// How an operation on the sink ended.
#[derive(Debug, PartialEq, Eq)]
pub enum SinkReply<E> {
    /// A write of the unwritten bytes accepted this many of them.
    Wrote(Result<usize, E>),
    /// The sink was flushed.
    Flushed(Result<(), E>),
    /// The sink was closed.
    Closed(Result<(), E>),
}

/// What the driver of an encoder does next.
#[derive(Debug, PartialEq, Eq)]
pub enum EncodeStep<E> {
    /// Write the unwritten bytes to the sink, and report how many it took.
    Write,
    /// Flush the sink, and report how that ended.
    Flush,
    /// Close the sink, and report how that ended.
    Close,
    /// The operation is complete.
    Done,
    /// The operation failed; nothing more is written for it.
    Failed(EncodeError<E>),
}

/// What is left to do once a write has ended, or before the first one: the
/// bytes still unwritten, and the next step.
pub open spec fn after_write<E>(pending: Seq<u8>, wrote: Option<Result<usize, E>>) -> (
    Seq<u8>,
    EncodeStep<E>,
) {
    match wrote {
        Some(Err(err)) => (pending, EncodeStep::Failed(EncodeError::SinkIoError(err))),
        Some(Ok(n)) if n == 0 => (pending, EncodeStep::Failed(EncodeError::WriteZero)),
        _ => {
            let rest = match wrote {
                Some(Ok(n)) => pending.skip(n as int),
                _ => pending,
            };
            (
                rest,
                if rest.len() > 0 {
                    EncodeStep::Write
                } else {
                    EncodeStep::Flush
                },
            )
        },
    }
}

/// The step that ends an operation on the sink's own reply: done, or failed
/// with the sink's error.
pub open spec fn settled<E>(reply: Result<(), E>) -> EncodeStep<E> {
    match reply {
        Ok(_) => EncodeStep::Done,
        Err(err) => EncodeStep::Failed(EncodeError::SinkIoError(err)),
    }
}

/// One step of a flush: the bytes still unwritten after it, and what the
/// driver does next.
pub open spec fn flush_step<E>(pending: Seq<u8>, reply: Option<SinkReply<E>>) -> (
    Seq<u8>,
    EncodeStep<E>,
) {
    match reply {
        None => after_write(pending, None),
        Some(SinkReply::Wrote(wrote)) => after_write(pending, Some(wrote)),
        Some(SinkReply::Flushed(flushed)) => (pending, settled(flushed)),
        Some(SinkReply::Closed(closed)) => (pending, settled(closed)),
    }
}

/// One step of a close: a flush, and the sink is closed once that is done.
pub open spec fn close_step<E>(pending: Seq<u8>, reply: Option<SinkReply<E>>) -> (
    Seq<u8>,
    EncodeStep<E>,
) {
    match reply {
        Some(SinkReply::Flushed(Ok(_))) => (pending, EncodeStep::Close),
        _ => flush_step(pending, reply),
    }
}

/// One step of getting ready for the next frame: nothing to do while no byte
/// is unwritten, a flush otherwise.
pub open spec fn ready_step<E>(pending: Seq<u8>, reply: Option<SinkReply<E>>) -> (
    Seq<u8>,
    EncodeStep<E>,
) {
    if reply is None && pending.len() == 0 {
        (pending, EncodeStep::Done)
    } else {
        flush_step(pending, reply)
    }
}

/// Frames messages for a sink.
#[derive(Debug)]
pub struct Encoder<W> {
    inner: W,
    buf: Vec<u8>,
    n_write: usize,
}

impl<W> Encoder<W> {
    /// What holds of every encoder that this module hands out: the bytes
    /// counted as written lie inside the buffer.
    pub closed spec fn well_formed(self) -> bool {
        self.n_write <= self.buf@.len()
    }

    /// The sink that this encoder writes to.
    pub closed spec fn sink(self) -> W {
        self.inner
    }

    /// The serialised bytes that the sink has not yet accepted, in the order
    /// of submission.
    pub closed spec fn pending(self) -> Seq<u8> {
        self.buf@.skip(self.n_write as int)
    }

    /// An encoder over `inner` with room for [`DEFAULT_CAPACITY`] bytes.
    pub fn new(inner: W) -> (encoder: Self)
        ensures
            encoder.well_formed(),
            encoder.sink() == inner,
            encoder.pending() == Seq::<u8>::empty(),
    {
        Self::with_capacity(DEFAULT_CAPACITY, inner)
    }

    /// An encoder over `inner` with room for `cap` bytes.
    pub fn with_capacity(cap: usize, inner: W) -> (encoder: Self)
        ensures
            encoder.well_formed(),
            encoder.sink() == inner,
            encoder.pending() == Seq::<u8>::empty(),
    {
        Self { inner, buf: Vec::with_capacity(cap), n_write: 0 }
    }

    /// The sink.
    pub fn get_ref(&self) -> (inner: &W)
        ensures
            *inner == self.sink(),
    {
        &self.inner
    }

    /// The sink, for the caller to use or replace; the unwritten bytes stay.
    pub fn get_mut(&mut self) -> (inner: &mut W)
        ensures
            *inner == old(self).sink(),
            final(self).sink() == *final(inner),
            final(self).pending() == old(self).pending(),
            final(self).well_formed() == old(self).well_formed(),
    {
        &mut self.inner
    }

    /// Gives the sink back and drops the unwritten bytes.
    pub fn into_inner(self) -> (inner: W)
        ensures
            inner == self.sink(),
    {
        self.inner
    }

    /// Whether every submitted byte has been accepted by the sink.
    fn is_empty(&self) -> (empty: bool)
        requires
            self.well_formed(),
        ensures
            empty == (self.pending().len() == 0),
    {
        self.n_write == self.buf.len()
    }

    /// Submits a frame: its header and payload join the unwritten bytes.
    pub fn start_send(&mut self, item: &[u8])
        requires
            old(self).well_formed(),
        ensures
            final(self).well_formed(),
            final(self).sink() == old(self).sink(),
            final(self).pending() == old(self).pending() + encode_frame(item@),
    {
        let ghost before = self.buf@;
        put_header(&mut self.buf, item.len() as u64);
        self.buf.extend_from_slice(item);
        proof {
            assert(self.buf@ == before + encode_frame(item@));
            assert((before + encode_frame(item@)).skip(self.n_write as int) == before.skip(
                self.n_write as int,
            ) + encode_frame(item@));
        }
    }

    /// The sink together with the bytes that it has not yet accepted.
    pub fn write_parts(&mut self) -> (parts: (&mut W, &[u8]))
        requires
            old(self).well_formed(),
        ensures
            *parts.0 == old(self).sink(),
            parts.1@ == old(self).pending(),
            final(self).sink() == *final(parts.0),
            final(self).pending() == old(self).pending(),
            final(self).well_formed(),
    {
        let end: usize = self.buf.len();
        (&mut self.inner, slice_subrange(self.buf.as_slice(), self.n_write, end))
    }

    /// Takes note of a write, or of none, and says whether more is to be
    /// written.
    fn advance<E>(&mut self, wrote: Option<Result<usize, E>>) -> (step: EncodeStep<E>)
        requires
            old(self).well_formed(),
            wrote matches Some(Ok(n)) ==> n <= old(self).pending().len(),
        ensures
            final(self).well_formed(),
            final(self).sink() == old(self).sink(),
            (final(self).pending(), step) == after_write(old(self).pending(), wrote),
    {
        match wrote {
            Some(Err(err)) => {
                return EncodeStep::Failed(EncodeError::SinkIoError(err));
            },
            Some(Ok(n)) => {
                if n == 0 {
                    return EncodeStep::Failed(EncodeError::WriteZero);
                }
                let end: usize = self.buf.len();
                assert(self.pending().len() == end - self.n_write);
                assert(self.buf@.skip(self.n_write as int).skip(n as int) == self.buf@.skip(
                    self.n_write + n,
                ));
                self.n_write += n;
            },
            None => {},
        }
        if self.n_write < self.buf.len() {
            EncodeStep::Write
        } else {
            self.buf.clear();
            self.n_write = 0;
            assert(self.pending() == Seq::<u8>::empty());
            EncodeStep::Flush
        }
    }

    /// One step of flushing: every unwritten byte goes to the sink, then the
    /// sink itself is flushed. `reply` is `None` when the flush is asked for,
    /// and the outcome of the last step's operation otherwise.
    pub fn poll_flush<E>(&mut self, reply: Option<SinkReply<E>>) -> (step: EncodeStep<E>)
        requires
            old(self).well_formed(),
            reply matches Some(SinkReply::Wrote(Ok(n))) ==> n <= old(self).pending().len(),
        ensures
            final(self).well_formed(),
            final(self).sink() == old(self).sink(),
            (final(self).pending(), step) == flush_step(old(self).pending(), reply),
    {
        match reply {
            None => self.advance(None),
            Some(SinkReply::Wrote(wrote)) => self.advance(Some(wrote)),
            Some(SinkReply::Flushed(Ok(_))) => EncodeStep::Done,
            Some(SinkReply::Flushed(Err(err))) => EncodeStep::Failed(EncodeError::SinkIoError(err)),
            Some(SinkReply::Closed(Ok(_))) => EncodeStep::Done,
            Some(SinkReply::Closed(Err(err))) => EncodeStep::Failed(EncodeError::SinkIoError(err)),
        }
    }

    /// One step of closing: a flush, then the sink is closed. A flush that
    /// fails leaves the sink unclosed.
    pub fn poll_close<E>(&mut self, reply: Option<SinkReply<E>>) -> (step: EncodeStep<E>)
        requires
            old(self).well_formed(),
            reply matches Some(SinkReply::Wrote(Ok(n))) ==> n <= old(self).pending().len(),
        ensures
            final(self).well_formed(),
            final(self).sink() == old(self).sink(),
            (final(self).pending(), step) == close_step(old(self).pending(), reply),
    {
        match reply {
            Some(SinkReply::Flushed(Ok(_))) => EncodeStep::Close,
            _ => self.poll_flush(reply),
        }
    }

    /// One step of getting ready for the next frame: while bytes are
    /// unwritten they are flushed first.
    pub fn poll_ready<E>(&mut self, reply: Option<SinkReply<E>>) -> (step: EncodeStep<E>)
        requires
            old(self).well_formed(),
            reply matches Some(SinkReply::Wrote(Ok(n))) ==> n <= old(self).pending().len(),
        ensures
            final(self).well_formed(),
            final(self).sink() == old(self).sink(),
            (final(self).pending(), step) == ready_step(old(self).pending(), reply),
    {
        if reply.is_none() && self.is_empty() {
            EncodeStep::Done
        } else {
            self.poll_flush(reply)
        }
    }
}

} // verus!
