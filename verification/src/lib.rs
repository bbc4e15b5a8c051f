//! Length-delimited framing over a byte transport.
//!
//! A frame on the wire is an 8-byte big-endian length followed by that many
//! payload bytes. [`Decoder`] rebuilds frames from bytes that arrive in pieces
//! of any size; [`Encoder`] serialises frames and hands them to a sink that may
//! accept them in pieces of any size. Neither performs I/O: each is a state
//! machine that tells its driver which transport operation to perform next and
//! is told how that operation ended.

pub mod decoder;
pub mod encoder;
pub mod stream;
pub mod text;
pub mod wire;

pub use decoder::{DecodeError, DecodeStep, Decoder};
pub use encoder::{EncodeError, EncodeStep, Encoder, SinkReply};
