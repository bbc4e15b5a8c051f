use futures_length_delimited_frame::text::push_decimal;
use futures_length_delimited_frame::wire::{header_value, put_header, HEADER_LEN};
use futures_length_delimited_frame::{
    DecodeError, DecodeStep, Decoder, EncodeError, EncodeStep, Encoder, SinkReply,
};

/// A source that hands out its bytes at most `per_read` at a time.
struct Pieces {
    bytes: Vec<u8>,
    at: usize,
    per_read: usize,
    reads: usize,
}

impl Pieces {
    fn new(bytes: Vec<u8>, per_read: usize) -> Self {
        Pieces { bytes, at: 0, per_read, reads: 0 }
    }

    fn read(&mut self, into: &mut [u8]) -> usize {
        self.reads += 1;
        let n = into.len().min(self.per_read).min(self.bytes.len() - self.at);
        into[..n].copy_from_slice(&self.bytes[self.at..self.at + n]);
        self.at += n;
        n
    }
}

/// A sink that takes what `takes` says, write by write, and then everything.
struct Trickle {
    got: Vec<u8>,
    takes: Vec<usize>,
    writes: usize,
    flushes: usize,
    closes: usize,
    fail_flush: bool,
}

impl Trickle {
    fn new(takes: Vec<usize>) -> Self {
        Trickle { got: Vec::new(), takes, writes: 0, flushes: 0, closes: 0, fail_flush: false }
    }

    fn write(&mut self, bytes: &[u8]) -> usize {
        let n = match self.takes.get(self.writes) {
            Some(n) => bytes.len().min(*n),
            None => bytes.len(),
        };
        self.writes += 1;
        self.got.extend_from_slice(&bytes[..n]);
        n
    }
}

fn next(decoder: &mut Decoder<Pieces>) -> DecodeStep<&'static str> {
    let mut event = None;
    loop {
        match decoder.poll_next(event) {
            DecodeStep::Read => {
                let (source, spare) = decoder.read_parts();
                assert!(!spare.is_empty());
                event = Some(Ok(source.read(spare)));
            }
            other => return other,
        }
    }
}

fn frames(decoder: &mut Decoder<Pieces>) -> (Vec<Vec<u8>>, DecodeStep<&'static str>) {
    let mut out = Vec::new();
    loop {
        match next(decoder) {
            DecodeStep::Frame(data) => out.push(data),
            last => return (out, last),
        }
    }
}

type Step = fn(&mut Encoder<Trickle>, Option<SinkReply<&'static str>>) -> EncodeStep<&'static str>;

fn drive(encoder: &mut Encoder<Trickle>, step: Step) -> Result<(), EncodeError<&'static str>> {
    let mut reply = None;
    loop {
        match step(encoder, reply) {
            EncodeStep::Write => {
                let (sink, bytes) = encoder.write_parts();
                assert!(!bytes.is_empty());
                reply = Some(SinkReply::Wrote(Ok(sink.write(bytes))));
            }
            EncodeStep::Flush => {
                let sink = encoder.get_mut();
                sink.flushes += 1;
                let flushed = if sink.fail_flush { Err("flush failed") } else { Ok(()) };
                reply = Some(SinkReply::Flushed(flushed));
            }
            EncodeStep::Close => {
                encoder.get_mut().closes += 1;
                reply = Some(SinkReply::Closed(Ok(())));
            }
            EncodeStep::Done => return Ok(()),
            EncodeStep::Failed(err) => return Err(err),
        }
    }
}

fn wire(payloads: &[&[u8]]) -> Vec<u8> {
    let mut encoder = Encoder::new(Trickle::new(vec![]));
    for payload in payloads {
        encoder.start_send(payload);
    }
    drive(&mut encoder, Encoder::poll_flush).unwrap();
    encoder.into_inner().got
}

#[test]
fn header_is_eight_bytes_most_significant_first() {
    assert_eq!(HEADER_LEN, 8);
    let mut out = vec![0xAA];
    put_header(&mut out, 0);
    assert_eq!(out, vec![0xAA, 0, 0, 0, 0, 0, 0, 0, 0]);

    let mut out = Vec::new();
    put_header(&mut out, 258);
    assert_eq!(out, vec![0, 0, 0, 0, 0, 0, 1, 2]);

    let mut out = Vec::new();
    put_header(&mut out, 0x0102_0304_0506_0708);
    assert_eq!(out, vec![1, 2, 3, 4, 5, 6, 7, 8]);

    let mut out = Vec::new();
    put_header(&mut out, u64::MAX);
    assert_eq!(out, vec![255; 8]);
}

#[test]
fn header_value_reads_the_first_eight_bytes() {
    assert_eq!(header_value(&[0, 0, 0, 0, 0, 0, 0, 0]), 0);
    assert_eq!(header_value(&[0, 0, 0, 0, 0, 0, 1, 2]), 258);
    assert_eq!(header_value(&[1, 2, 3, 4, 5, 6, 7, 8, 99, 99]), 0x0102_0304_0506_0708);
    assert_eq!(header_value(&[255; 8]), u64::MAX);
    for len in [0u64, 1, 255, 256, 65_535, 65_536, 1 << 32, (1 << 63) + 5, u64::MAX] {
        let mut out = Vec::new();
        put_header(&mut out, len);
        assert_eq!(out, len.to_be_bytes());
        assert_eq!(header_value(&out), len);
    }
}

#[test]
fn decimal_text_has_no_leading_zeros() {
    for n in [0u64, 5, 9, 10, 11, 99, 100, 101, 1024, 9_999_999, u64::MAX] {
        let mut out = String::from("n:");
        push_decimal(&mut out, n);
        assert_eq!(out, format!("n:{}", n));
    }
}

#[test]
fn messages_name_what_is_missing() {
    let head: DecodeError<()> = DecodeError::IncompleteHeader { missing: 5 };
    assert_eq!(head.message().unwrap(), "need more head, n:5");
    let data: DecodeError<()> = DecodeError::IncompletePayload { missing: 1234 };
    assert_eq!(data.message().unwrap(), "need more data, n:1234");
    let none: DecodeError<()> = DecodeError::NoPayloadData;
    assert_eq!(none.message().unwrap(), "no data");
    let large: DecodeError<()> = DecodeError::FrameTooLarge { len: u64::MAX };
    assert_eq!(large.message().unwrap(), "frame too large, n:18446744073709551615");
    let source: DecodeError<()> = DecodeError::SourceIoError(());
    assert_eq!(source.message(), None);
}

#[test]
fn round_trip_whatever_the_pieces() {
    let payloads: Vec<Vec<u8>> = vec![
        vec![],
        b"abc".to_vec(),
        vec![],
        (0..=255).collect(),
        vec![0; 3000],
        vec![7],
    ];
    let refs: Vec<&[u8]> = payloads.iter().map(|p| p.as_slice()).collect();
    let bytes = wire(&refs);
    assert_eq!(bytes.len(), 8 * 6 + 3 + 256 + 3000 + 1);
    for cap in [0usize, 1, 7, 8, 9, 64, 1024, 8192] {
        for per_read in [1usize, 2, 3, 7, 8, 9, 100, 10_000] {
            let mut decoder = Decoder::with_capacity(cap, Pieces::new(bytes.clone(), per_read));
            let (got, last) = frames(&mut decoder);
            assert_eq!(got, payloads);
            assert_eq!(last, DecodeStep::End);
        }
    }
}

#[test]
fn empty_source_ends_at_once() {
    let mut decoder = Decoder::new(Pieces::new(vec![], 16));
    assert_eq!(next(&mut decoder), DecodeStep::End);
    assert_eq!(decoder.get_ref().reads, 1);
}

#[test]
fn stray_bytes_after_a_frame_are_an_incomplete_header() {
    let bytes = vec![0, 0, 0, 0, 0, 0, 0, 3, 97, 98, 99, 0, 0, 0];
    for per_read in [1usize, 4, 14, 100] {
        let mut decoder = Decoder::new(Pieces::new(bytes.clone(), per_read));
        assert_eq!(next(&mut decoder), DecodeStep::Frame(b"abc".to_vec()));
        assert_eq!(
            next(&mut decoder),
            DecodeStep::Failed(DecodeError::IncompleteHeader { missing: 5 })
        );
    }
}

#[test]
fn every_cut_inside_a_header_counts_the_missing_bytes() {
    for came in 1..8usize {
        let bytes = vec![0u8; came];
        let mut decoder = Decoder::with_capacity(2, Pieces::new(bytes, 3));
        assert_eq!(
            next(&mut decoder),
            DecodeStep::Failed(DecodeError::IncompleteHeader { missing: (8 - came) as u8 })
        );
    }
}

#[test]
fn header_without_payload_is_no_data() {
    let mut decoder = Decoder::new(Pieces::new(vec![0, 0, 0, 0, 0, 0, 0, 5], 100));
    assert_eq!(next(&mut decoder), DecodeStep::Failed(DecodeError::NoPayloadData));
}

#[test]
fn payload_cut_short_counts_the_missing_bytes() {
    for buffered in 1..5usize {
        let mut bytes = vec![0, 0, 0, 0, 0, 0, 0, 5];
        bytes.extend_from_slice(&[9, 9, 9, 9][..buffered]);
        for per_read in [1usize, 8, 100] {
            let mut decoder = Decoder::new(Pieces::new(bytes.clone(), per_read));
            assert_eq!(
                next(&mut decoder),
                DecodeStep::Failed(DecodeError::IncompletePayload { missing: (5 - buffered) as u64 })
            );
        }
    }
}

#[test]
fn frames_of_varying_length_come_out_in_order() {
    let bytes = vec![
        0, 0, 0, 0, 0, 0, 0, 2, 1, 2, //
        0, 0, 0, 0, 0, 0, 0, 1, 3, //
        0, 0, 0, 0, 0, 0, 0, 3, 4, 5, 6,
    ];
    let mut decoder = Decoder::new(Pieces::new(bytes, 1024));
    assert_eq!(next(&mut decoder), DecodeStep::Frame(vec![1, 2]));
    assert_eq!(next(&mut decoder), DecodeStep::Frame(vec![3]));
    assert_eq!(next(&mut decoder), DecodeStep::Frame(vec![4, 5, 6]));
    assert_eq!(next(&mut decoder), DecodeStep::End);
    assert_eq!(decoder.get_ref().reads, 2);
}

#[test]
fn empty_frame_needs_no_payload_read() {
    let mut decoder = Decoder::new(Pieces::new(vec![0; 8], 8));
    assert_eq!(next(&mut decoder), DecodeStep::Frame(vec![]));
    assert_eq!(decoder.get_ref().reads, 1);
    assert_eq!(next(&mut decoder), DecodeStep::End);
}

#[test]
fn frame_longer_than_the_buffer_grows_it() {
    let payload: Vec<u8> = (0..5000u32).map(|i| (i % 251) as u8).collect();
    let bytes = wire(&[&payload, b"tail"]);
    let mut decoder = Decoder::with_capacity(16, Pieces::new(bytes, 4096));
    assert_eq!(next(&mut decoder), DecodeStep::Frame(payload));
    assert_eq!(next(&mut decoder), DecodeStep::Frame(b"tail".to_vec()));
    assert_eq!(next(&mut decoder), DecodeStep::End);
}

#[test]
fn header_beyond_what_a_buffer_holds_is_rejected() {
    let mut bytes = vec![255u8; 8];
    bytes.extend_from_slice(&[1, 2, 3]);
    let mut decoder = Decoder::new(Pieces::new(bytes, 100));
    let failed = DecodeStep::Failed(DecodeError::FrameTooLarge { len: u64::MAX });
    assert_eq!(next(&mut decoder), failed);
    assert_eq!(decoder.poll_next::<&'static str>(None), failed);

    let mut bytes = (isize::MAX as u64 + 1).to_be_bytes().to_vec();
    bytes.push(0);
    let mut decoder = Decoder::new(Pieces::new(bytes, 3));
    assert_eq!(
        next(&mut decoder),
        DecodeStep::Failed(DecodeError::FrameTooLarge { len: isize::MAX as u64 + 1 })
    );
}

#[test]
fn source_error_is_passed_through() {
    let mut decoder = Decoder::new(Pieces::new(vec![0, 0, 0], 100));
    assert_eq!(decoder.poll_next::<&'static str>(None), DecodeStep::Read);
    assert_eq!(
        decoder.poll_next(Some(Err("reset"))),
        DecodeStep::Failed(DecodeError::SourceIoError("reset"))
    );
}

#[test]
fn read_is_asked_for_only_when_no_frame_is_buffered() {
    let bytes = wire(&[b"a", b"bc"]);
    let mut decoder = Decoder::new(Pieces::new(vec![], 1));
    assert_eq!(decoder.poll_next::<&'static str>(None), DecodeStep::Read);
    let (_, spare) = decoder.read_parts();
    assert_eq!(spare.len(), 1024);
    spare[..bytes.len()].copy_from_slice(&bytes);
    assert_eq!(
        decoder.poll_next::<&'static str>(Some(Ok(bytes.len()))),
        DecodeStep::Frame(b"a".to_vec())
    );
    assert_eq!(decoder.poll_next::<&'static str>(None), DecodeStep::Frame(b"bc".to_vec()));
    assert_eq!(decoder.poll_next::<&'static str>(None), DecodeStep::Read);
    assert_eq!(decoder.poll_next::<&'static str>(Some(Ok(0))), DecodeStep::End);
}

#[test]
fn encoder_writes_header_then_payload_for_each_frame() {
    assert_eq!(
        wire(&[&[1, 2], &[3], &[4, 5, 6]]),
        vec![
            0x00, 0x00, 0x00, 0x00, 0x00, 0x00, 0x00, 0x02, 0x01, 0x02, //
            0x00, 0x00, 0x00, 0x00, 0x00, 0x00, 0x00, 0x01, 0x03, //
            0x00, 0x00, 0x00, 0x00, 0x00, 0x00, 0x00, 0x03, 0x04, 0x05, 0x06,
        ]
    );
    assert_eq!(wire(&[&[]]), vec![0; 8]);
    assert_eq!(wire(&[]), Vec::<u8>::new());
}

#[test]
fn small_writes_still_deliver_everything_in_order() {
    let whole = wire(&[&[1, 2], &[3], &[4, 5, 6]]);
    for takes in [vec![1; 64], vec![3, 1, 4, 1, 5, 9, 2, 6], vec![29], vec![7, 7, 7, 7, 7]] {
        let mut encoder = Encoder::new(Trickle::new(takes));
        encoder.start_send(&[1, 2]);
        encoder.start_send(&[3]);
        encoder.start_send(&[4, 5, 6]);
        drive(&mut encoder, Encoder::poll_flush).unwrap();
        let sink = encoder.into_inner();
        assert_eq!(sink.got, whole);
        assert_eq!(sink.flushes, 1);
    }
}

#[test]
fn zero_byte_write_stops_the_flush() {
    let mut encoder = Encoder::new(Trickle::new(vec![4, 3, 0, 5]));
    encoder.start_send(&[1, 2]);
    encoder.start_send(&[3]);
    assert_eq!(drive(&mut encoder, Encoder::poll_flush), Err(EncodeError::WriteZero));
    let sink = encoder.get_ref();
    assert_eq!(sink.got, vec![0, 0, 0, 0, 0, 0, 0]);
    assert_eq!(sink.writes, 3);
    assert_eq!(sink.flushes, 0);
}

#[test]
fn flush_resumes_where_the_sink_stopped() {
    let mut encoder = Encoder::new(Trickle::new(vec![]));
    encoder.start_send(&[1, 2, 3]);
    assert_eq!(encoder.poll_flush::<&'static str>(None), EncodeStep::Write);
    assert_eq!(encoder.write_parts().1, &[0, 0, 0, 0, 0, 0, 0, 3, 1, 2, 3]);
    assert_eq!(
        encoder.poll_flush::<&'static str>(Some(SinkReply::Wrote(Ok(9)))),
        EncodeStep::Write
    );
    assert_eq!(encoder.poll_flush::<&'static str>(None), EncodeStep::Write);
    assert_eq!(encoder.write_parts().1, &[2, 3]);
    encoder.start_send(&[4]);
    assert_eq!(encoder.write_parts().1, &[2, 3, 0, 0, 0, 0, 0, 0, 0, 1, 4]);
    assert_eq!(
        encoder.poll_flush::<&'static str>(Some(SinkReply::Wrote(Ok(11)))),
        EncodeStep::Flush
    );
    assert_eq!(encoder.write_parts().1, &[] as &[u8]);
    assert_eq!(
        encoder.poll_flush::<&'static str>(Some(SinkReply::Flushed(Ok(())))),
        EncodeStep::Done
    );
}

#[test]
fn sink_errors_are_passed_through() {
    let mut encoder = Encoder::new(Trickle::new(vec![]));
    encoder.start_send(&[1]);
    assert_eq!(
        encoder.poll_flush(Some(SinkReply::Wrote(Err("broken pipe")))),
        EncodeStep::Failed(EncodeError::SinkIoError("broken pipe"))
    );
    assert_eq!(encoder.write_parts().1.len(), 9);
    assert_eq!(
        encoder.poll_flush(Some(SinkReply::Flushed(Err("no space")))),
        EncodeStep::Failed(EncodeError::SinkIoError("no space"))
    );
    assert_eq!(
        encoder.poll_close(Some(SinkReply::Closed(Err("gone")))),
        EncodeStep::Failed(EncodeError::SinkIoError("gone"))
    );
}

#[test]
fn ready_only_once_everything_is_written() {
    let mut encoder = Encoder::with_capacity(0, Trickle::new(vec![2]));
    assert_eq!(encoder.poll_ready::<&'static str>(None), EncodeStep::Done);
    assert_eq!(encoder.get_ref().flushes, 0);
    encoder.start_send(&[1]);
    assert_eq!(encoder.poll_ready::<&'static str>(None), EncodeStep::Write);
    drive(&mut encoder, Encoder::poll_ready).unwrap();
    assert_eq!(encoder.get_ref().writes, 2);
    assert_eq!(encoder.get_ref().flushes, 1);
    assert_eq!(encoder.poll_ready::<&'static str>(None), EncodeStep::Done);
}

#[test]
fn close_comes_after_a_flush_that_worked() {
    let mut encoder = Encoder::new(Trickle::new(vec![1, 1]));
    encoder.start_send(&[1]);
    drive(&mut encoder, Encoder::poll_close).unwrap();
    let sink = encoder.get_ref();
    assert_eq!(sink.got, vec![0, 0, 0, 0, 0, 0, 0, 1, 1]);
    assert_eq!((sink.flushes, sink.closes), (1, 1));

    let mut encoder = Encoder::new(Trickle::new(vec![]));
    encoder.get_mut().fail_flush = true;
    encoder.start_send(&[1]);
    assert_eq!(
        drive(&mut encoder, Encoder::poll_close),
        Err(EncodeError::SinkIoError("flush failed"))
    );
    let sink = encoder.into_inner();
    assert_eq!((sink.flushes, sink.closes), (1, 0));
}

#[test]
fn buffer_grows_to_exactly_what_is_needed() {
    let mut decoder = Decoder::with_capacity(0, Pieces::new(vec![], 1));
    assert_eq!(decoder.read_parts().1.len(), 0);
    assert_eq!(decoder.poll_next::<&'static str>(None), DecodeStep::Read);
    let (_, spare) = decoder.read_parts();
    assert_eq!(spare.len(), 8);
    spare.copy_from_slice(&[0, 0, 0, 0, 0, 0, 0, 100]);
    assert_eq!(decoder.poll_next::<&'static str>(Some(Ok(8))), DecodeStep::Read);
    assert_eq!(decoder.read_parts().1.len(), 100);

    let mut decoder = Decoder::with_capacity(16, Pieces::new(vec![], 1));
    let (_, spare) = decoder.read_parts();
    spare[..11].copy_from_slice(&[0, 0, 0, 0, 0, 0, 0, 20, 1, 2, 3]);
    assert_eq!(decoder.poll_next::<&'static str>(Some(Ok(11))), DecodeStep::Read);
    assert_eq!(decoder.read_parts().1.len(), 17);
    assert_eq!(&decoder.read_parts().1[..0], &[] as &[u8]);

    let mut decoder = Decoder::with_capacity(64, Pieces::new(vec![], 1));
    let (_, spare) = decoder.read_parts();
    spare[..9].copy_from_slice(&[0, 0, 0, 0, 0, 0, 0, 20, 1]);
    assert_eq!(decoder.poll_next::<&'static str>(Some(Ok(9))), DecodeStep::Read);
    assert_eq!(decoder.read_parts().1.len(), 63);
}
