//! Rebuilding frames from bytes that arrive in pieces.

use crate::text::{decimal, push_decimal};
use crate::wire::{
    after_first, announced_len, first_payload, has_frame, header, header_value,
    lemma_header_round_trip, lemma_value_digits, HEADER_LEN,
};
use vstd::prelude::*;
use vstd::slice::{slice_subrange, slice_to_vec};
use vstd::string::StringExecFns;

verus! {

/// Capacity of the buffer that [`Decoder::new`] allocates.
pub const DEFAULT_CAPACITY: usize = 1024;

/// Why a decoder gave up.
#[derive(Debug, PartialEq, Eq)]
#[allow(inconsistent_fields)]
pub enum DecodeError<E> {
    /// The source ended inside a header; `missing` header bytes never came.
    IncompleteHeader { missing: u8 },
    /// The source ended inside a payload; `missing` payload bytes never came.
    IncompletePayload { missing: u64 },
    /// The source ended right after a header that announced a payload.
    NoPayloadData,
    /// A header announced `len` bytes, more than a buffer can hold here.
    FrameTooLarge { len: u64 },
    /// The source itself failed; its error is handed on unchanged.
    SourceIoError(E),
}

impl<E> DecodeError<E> {
    /// The words for an error of the framing itself; an error of the source
    /// has its own.
    pub open spec fn message_text(self) -> Option<Seq<char>> {
        match self {
            DecodeError::IncompleteHeader { missing } => Some(
                "need more head, n:"@ + decimal(missing as nat),
            ),
            DecodeError::IncompletePayload { missing } => Some(
                "need more data, n:"@ + decimal(missing as nat),
            ),
            DecodeError::NoPayloadData => Some("no data"@),
            DecodeError::FrameTooLarge { len } => Some("frame too large, n:"@ + decimal(len as nat)),
            DecodeError::SourceIoError(_) => None,
        }
    }

    /// Describes an error of the framing itself in words.
    pub fn message(&self) -> (text: Option<String>)
        ensures
            match text {
                Some(words) => self.message_text() == Some(words@),
                None => self.message_text().is_none(),
            },
    {
        match self {
            DecodeError::IncompleteHeader { missing } => {
                let mut words = String::from_str("need more head, n:");
                push_decimal(&mut words, *missing as u64);
                Some(words)
            },
            DecodeError::IncompletePayload { missing } => {
                let mut words = String::from_str("need more data, n:");
                push_decimal(&mut words, *missing);
                Some(words)
            },
            DecodeError::NoPayloadData => Some(String::from_str("no data")),
            DecodeError::FrameTooLarge { len } => {
                let mut words = String::from_str("frame too large, n:");
                push_decimal(&mut words, *len);
                Some(words)
            },
            DecodeError::SourceIoError(_) => None,
        }
    }
}

/// What the driver of a decoder does next.
#[derive(Debug, PartialEq, Eq)]
pub enum DecodeStep<E> {
    /// Hand this payload to the consumer.
    Frame(Vec<u8>),
    /// The source ended between two frames: there are no more.
    End,
    /// Decoding failed; the decoder is of no further use.
    Failed(DecodeError<E>),
    /// Read from the source into the spare part of the buffer, and report how
    /// the read ended.
    Read,
}

/// How a source that ends with `pending` undelivered bytes, none of them a
/// complete frame, has ended: cleanly, or inside a frame.
pub open spec fn end_of_stream<E>(pending: Seq<u8>) -> Option<DecodeError<E>> {
    if pending.len() == 0 {
        None
    } else if pending.len() < HEADER_LEN {
        Some(DecodeError::IncompleteHeader { missing: (HEADER_LEN - pending.len()) as u8 })
    } else if pending.len() == HEADER_LEN {
        Some(DecodeError::NoPayloadData)
    } else {
        Some(
            DecodeError::IncompletePayload {
                missing: (announced_len(pending) - (pending.len() - HEADER_LEN)) as u64,
            },
        )
    }
}

/// Whether `bytes` start with a header that announces more bytes than a
/// buffer can hold on this machine.
pub open spec fn oversized(bytes: Seq<u8>) -> bool {
    bytes.len() >= HEADER_LEN && announced_len(bytes) > isize::MAX
}

/// The length of the buffer after a step that found `bytes` undelivered in a
/// buffer of `capacity` bytes. A buffer too short for the payload that a
/// header announces grows to exactly that length; a full buffer too short
/// for a header grows to the length of a header before a read; no buffer
/// shrinks.
pub open spec fn capacity_after(capacity: nat, bytes: Seq<u8>, reads_next: bool) -> nat {
    if oversized(bytes) {
        capacity
    } else if bytes.len() >= HEADER_LEN {
        if capacity < announced_len(bytes) {
            announced_len(bytes)
        } else {
            capacity
        }
    } else if reads_next && capacity == bytes.len() {
        HEADER_LEN as nat
    } else {
        capacity
    }
}

/// The bytes that a read put into `spare`, going by what it reported.
pub open spec fn arrived<E>(spare: Seq<u8>, event: Option<Result<usize, E>>) -> Seq<u8> {
    match event {
        Some(Ok(n)) => spare.take(n as int),
        _ => Seq::empty(),
    }
}

/// Moves `buf[from..filled]` to the front of `buf`.
fn shift_front(buf: &mut Vec<u8>, from: usize, filled: usize)
    requires
        from <= filled <= old(buf)@.len(),
    ensures
        final(buf)@.len() == old(buf)@.len(),
        final(buf)@.take(filled - from) == old(buf)@.subrange(from as int, filled as int),
{
    let kept: usize = filled - from;
    let mut i: usize = 0;
    while i < kept
        invariant
            kept == filled - from,
            from <= filled <= buf@.len(),
            buf@.len() == old(buf)@.len(),
            i <= kept,
            buf@.take(i as int) == old(buf)@.subrange(from as int, from + i),
            buf@.skip(i as int) == old(buf)@.skip(i as int),
        decreases kept - i,
    {
        let ghost before = buf@;
        let byte: u8 = buf[i + from];
        assert(byte == old(buf)@[from + i]) by {
            assert(before.skip(i as int)[from as int] == old(buf)@.skip(i as int)[from as int]);
        }
        buf[i] = byte;
        proof {
            assert(buf@.take(i + 1) == before.take(i as int).push(byte));
            assert(old(buf)@.subrange(from as int, from + i + 1) == old(buf)@.subrange(
                from as int,
                from + i,
            ).push(byte));
            assert(buf@.skip(i + 1) == before.skip(i as int).skip(1));
            assert(old(buf)@.skip(i + 1) == old(buf)@.skip(i as int).skip(1));
        }
        i += 1;
    }
}

/// Where the decoder stands between two frames.
#[derive(Debug, Clone, Copy)]
enum DecodeState {
    /// Collecting the eight header bytes.
    Head,
    /// Header consumed; collecting a payload of the given length.
    Data(usize),
}

/// Splits the bytes of a source into frames.
#[derive(Debug)]
pub struct Decoder<R> {
    inner: R,
    buf: Vec<u8>,
    n_read: usize,
    state: DecodeState,
}

impl<R> Decoder<R> {
    /// What holds of every decoder that this module hands out: the valid bytes
    /// lie inside the buffer, and while a payload is collected the buffer can
    /// hold all of it, which is no more than any buffer can hold.
    pub closed spec fn well_formed(self) -> bool {
        &&& self.n_read <= self.buf@.len()
        &&& match self.state {
            DecodeState::Head => true,
            DecodeState::Data(len) => len <= self.buf@.len() && len <= isize::MAX,
        }
    }

    /// The source that this decoder reads from.
    pub closed spec fn source(self) -> R {
        self.inner
    }

    /// The bytes received and not yet handed out in a frame, as they came off
    /// the wire.
    pub closed spec fn pending(self) -> Seq<u8> {
        match self.state {
            DecodeState::Head => self.buf@.take(self.n_read as int),
            DecodeState::Data(len) => header(len as nat) + self.buf@.take(self.n_read as int),
        }
    }

    /// The part of the buffer that the next read may fill.
    pub closed spec fn spare(self) -> Seq<u8> {
        self.buf@.skip(self.n_read as int)
    }

    /// The length of the buffer: the bytes that it holds of the frame in
    /// hand, and the spare part.
    pub closed spec fn capacity(self) -> nat {
        self.buf@.len()
    }

    /// A decoder over `inner` with a buffer of [`DEFAULT_CAPACITY`] bytes.
    pub fn new(inner: R) -> (decoder: Self)
        ensures
            decoder.well_formed(),
            decoder.source() == inner,
            decoder.pending() == Seq::<u8>::empty(),
            decoder.spare().len() == DEFAULT_CAPACITY,
            decoder.capacity() == DEFAULT_CAPACITY,
    {
        Self::with_capacity(DEFAULT_CAPACITY, inner)
    }

    /// A decoder over `inner` with a buffer of `cap` bytes.
    pub fn with_capacity(cap: usize, inner: R) -> (decoder: Self)
        ensures
            decoder.well_formed(),
            decoder.source() == inner,
            decoder.pending() == Seq::<u8>::empty(),
            decoder.spare().len() == cap,
            decoder.capacity() == cap,
    {
        Self { inner, buf: vec![0u8; cap], n_read: 0, state: DecodeState::Head }
    }

    /// The source.
    pub fn get_ref(&self) -> (inner: &R)
        ensures
            *inner == self.source(),
    {
        &self.inner
    }

    /// The source, for the caller to use or replace; the buffered bytes stay.
    pub fn get_mut(&mut self) -> (inner: &mut R)
        ensures
            *inner == old(self).source(),
            final(self).source() == *final(inner),
            final(self).pending() == old(self).pending(),
            final(self).spare() == old(self).spare(),
            final(self).capacity() == old(self).capacity(),
            final(self).well_formed() == old(self).well_formed(),
    {
        &mut self.inner
    }

    /// Gives the source back and drops the buffered bytes.
    pub fn into_inner(self) -> (inner: R)
        ensures
            inner == self.source(),
    {
        self.inner
    }

    /// One step of decoding. `event` is `None` when the consumer asks for the
    /// next frame, and the outcome of the read when the last step asked for
    /// one: how many bytes it put at the front of the spare part of the
    /// buffer (zero when the source has ended), or why it failed.
    pub fn poll_next<E>(&mut self, event: Option<Result<usize, E>>) -> (next: DecodeStep<E>)
        requires
            old(self).well_formed(),
            event matches Some(Ok(n)) ==> n <= old(self).spare().len(),
        ensures
            final(self).well_formed(),
            final(self).source() == old(self).source(),
            final(self).capacity() >= old(self).capacity(),
            match event {
                Some(Err(err)) => {
                    &&& next == DecodeStep::Failed(DecodeError::SourceIoError(err))
                    &&& final(self).pending() == old(self).pending()
                    &&& final(self).spare() == old(self).spare()
                },
                _ => {
                    let bytes = old(self).pending() + arrived(old(self).spare(), event);
                    &&& final(self).capacity() == capacity_after(
                        old(self).capacity(),
                        bytes,
                        next is Read,
                    )
                    &&& if oversized(bytes) {
                        &&& next == DecodeStep::<E>::Failed(
                            DecodeError::FrameTooLarge { len: announced_len(bytes) as u64 },
                        )
                        &&& final(self).pending() == bytes
                    } else if has_frame(bytes) {
                        &&& next matches DecodeStep::Frame(data)
                        &&& data@ == first_payload(bytes)
                        &&& final(self).pending() == after_first(bytes)
                    } else if event == Some(Ok::<usize, E>(0)) {
                        &&& next == match end_of_stream::<E>(bytes) {
                            None => DecodeStep::End,
                            Some(err) => DecodeStep::Failed(err),
                        }
                        &&& final(self).pending() == bytes
                    } else {
                        &&& next == DecodeStep::<E>::Read
                        &&& final(self).pending() == bytes
                        &&& final(self).spare().len() > 0
                    }
                },
            },
    {
        let ghost bytes = self.pending() + arrived(self.spare(), event);
        match event {
            Some(Err(err)) => {
                return DecodeStep::Failed(DecodeError::SourceIoError(err));
            },
            Some(Ok(n)) => {
                self.fill(n);
            },
            None => {
                assert(bytes == self.pending());
            },
        }
        assert(self.pending() == bytes);
        if let Some(len) = self.parse_header() {
            return DecodeStep::Failed(DecodeError::FrameTooLarge { len });
        }
        if let Some(data) = self.take_payload() {
            return DecodeStep::Frame(data);
        }
        if let Some(Ok(0)) = event {
            return match self.truncation() {
                None => DecodeStep::End,
                Some(err) => DecodeStep::Failed(err),
            };
        }
        self.make_room();
        DecodeStep::Read
    }

    /// Whether the header of the next frame is still being collected.
    closed spec fn in_head(self) -> bool {
        self.state is Head
    }

    /// Counts the first `n` spare bytes as received.
    fn fill(&mut self, n: usize)
        requires
            old(self).well_formed(),
            n <= old(self).spare().len(),
        ensures
            final(self).well_formed(),
            final(self).source() == old(self).source(),
            final(self).capacity() == old(self).capacity(),
            final(self).pending() == old(self).pending() + old(self).spare().take(n as int),
    {
        let cap: usize = self.buf.len();
        assert(self.spare().len() == cap - self.n_read);
        assert(self.buf@.take(self.n_read + n) == self.buf@.take(self.n_read as int)
            + self.buf@.skip(self.n_read as int).take(n as int));
        self.n_read += n;
    }

    /// Consumes a header once all of it is buffered, growing the buffer to
    /// hold the payload. Returns the announced length where no buffer can
    /// hold that much, and then changes nothing.
    fn parse_header(&mut self) -> (too_large: Option<u64>)
        requires
            old(self).well_formed(),
        ensures
            final(self).well_formed(),
            final(self).source() == old(self).source(),
            final(self).pending() == old(self).pending(),
            !final(self).in_head() ==> final(self).capacity() == capacity_after(
                old(self).capacity(),
                old(self).pending(),
                false,
            ),
            too_large matches Some(len) ==> final(self).in_head(),
            final(self).in_head() ==> *final(self) == *old(self),
            final(self).in_head() && final(self).pending().len() >= HEADER_LEN ==> too_large
                == Some(announced_len(final(self).pending()) as u64),
            too_large matches Some(len) ==> final(self).pending().len() >= HEADER_LEN && len
                == announced_len(final(self).pending()) && len > isize::MAX,
    {
        let ghost bytes = self.pending();
        match self.state {
            DecodeState::Head => {
                if self.n_read < HEADER_LEN {
                    return None;
                }
            },
            DecodeState::Data(data_len) => {
                proof {
                    lemma_header_round_trip(data_len as nat);
                    assert(bytes.take(HEADER_LEN as int) == header(data_len as nat));
                }
                return None;
            },
        }
        let announced: u64 = header_value(self.buf.as_slice());
        proof {
            assert(self.buf@.take(HEADER_LEN as int) == bytes.take(HEADER_LEN as int));
        }
        if announced > isize::MAX as u64 {
            return Some(announced);
        }
        let data_len: usize = announced as usize;
        if self.buf.len() < data_len {
            self.buf.resize(data_len, 0);
        }
        assert(self.buf@.take(self.n_read as int) == bytes);
        shift_front(&mut self.buf, HEADER_LEN, self.n_read);
        self.n_read -= HEADER_LEN;
        self.state = DecodeState::Data(data_len);
        proof {
            lemma_value_digits(bytes.take(HEADER_LEN as int));
            assert(self.buf@.take(self.n_read as int) == bytes.skip(HEADER_LEN as int));
            assert(bytes.take(HEADER_LEN as int) + bytes.skip(HEADER_LEN as int) == bytes);
        }
        None
    }

    /// Takes the payload out once its header is consumed and all of it is
    /// buffered.
    fn take_payload(&mut self) -> (payload: Option<Vec<u8>>)
        requires
            old(self).well_formed(),
            old(self).in_head() ==> old(self).pending().len() < HEADER_LEN,
        ensures
            final(self).well_formed(),
            final(self).source() == old(self).source(),
            final(self).capacity() == old(self).capacity(),
            match payload {
                Some(data) => {
                    &&& has_frame(old(self).pending())
                    &&& !oversized(old(self).pending())
                    &&& data@ == first_payload(old(self).pending())
                    &&& final(self).pending() == after_first(old(self).pending())
                },
                None => {
                    &&& !has_frame(old(self).pending())
                    &&& *final(self) == *old(self)
                    &&& !old(self).in_head() ==> !oversized(old(self).pending())
                },
            },
    {
        let ghost bytes = self.pending();
        match self.state {
            DecodeState::Head => None,
            DecodeState::Data(data_len) => {
                proof {
                    lemma_header_round_trip(data_len as nat);
                    assert(bytes.take(HEADER_LEN as int) == header(data_len as nat));
                }
                if self.n_read < data_len {
                    return None;
                }
                let data = slice_to_vec(slice_subrange(self.buf.as_slice(), 0, data_len));
                assert(data@ == first_payload(bytes));
                shift_front(&mut self.buf, data_len, self.n_read);
                self.n_read -= data_len;
                self.state = DecodeState::Head;
                assert(self.buf@.take(self.n_read as int) == after_first(bytes));
                Some(data)
            },
        }
    }

    /// How the stream has ended, if the source ends now.
    fn truncation<E>(&self) -> (end: Option<DecodeError<E>>)
        requires
            self.well_formed(),
            !has_frame(self.pending()),
            self.in_head() ==> self.pending().len() < HEADER_LEN,
        ensures
            end == end_of_stream::<E>(self.pending()),
    {
        match self.state {
            DecodeState::Head => {
                if self.n_read == 0 {
                    None
                } else {
                    Some(DecodeError::IncompleteHeader { missing: (HEADER_LEN - self.n_read) as u8 })
                }
            },
            DecodeState::Data(data_len) => {
                proof {
                    lemma_header_round_trip(data_len as nat);
                    assert(self.pending().take(HEADER_LEN as int) == header(data_len as nat));
                }
                if self.n_read == 0 {
                    Some(DecodeError::NoPayloadData)
                } else {
                    Some(DecodeError::IncompletePayload { missing: (data_len - self.n_read) as u64 })
                }
            },
        }
    }

    /// Grows a buffer that is too short for a header, so that a read has room.
    fn make_room(&mut self)
        requires
            old(self).well_formed(),
            !has_frame(old(self).pending()),
            old(self).in_head() ==> old(self).pending().len() < HEADER_LEN,
        ensures
            final(self).well_formed(),
            final(self).source() == old(self).source(),
            final(self).pending() == old(self).pending(),
            final(self).capacity() == capacity_after(
                old(self).capacity(),
                old(self).pending(),
                true,
            ),
            final(self).spare().len() > 0,
    {
        let ghost bytes = self.pending();
        if let DecodeState::Data(data_len) = self.state {
            proof {
                lemma_header_round_trip(data_len as nat);
                assert(bytes.take(HEADER_LEN as int) == header(data_len as nat));
            }
        }
        if self.n_read == self.buf.len() {
            self.buf.resize(HEADER_LEN, 0);
            assert(self.buf@.take(self.n_read as int) == bytes);
        }
    }

    /// The source together with the part of the buffer that a read may fill.
    pub fn read_parts(&mut self) -> (parts: (&mut R, &mut [u8]))
        requires
            old(self).well_formed(),
        ensures
            *parts.0 == old(self).source(),
            parts.1@ == old(self).spare(),
            final(self).source() == *final(parts.0),
            final(self).spare() == final(parts.1)@,
            final(self).pending() == old(self).pending(),
            final(parts.1)@.len() == parts.1@.len() ==> final(self).well_formed()
                && final(self).capacity() == old(self).capacity(),
    {
        let n: usize = self.n_read;
        let (_, tail) = self.buf.as_mut_slice().split_at_mut(n);
        (&mut self.inner, tail)
    }
}

} // verus!
