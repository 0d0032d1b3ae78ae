//! Reverse zero-suppressing COBS framing.
//!
//! A variable-length, self-delimiting byte-stuffing codec for framing binary
//! messages over a byte stream that reserves `0x00` as a message separator.
//! Control bytes describing a run are emitted *after* the run's data, which
//! lets the encoder run as a single-pass streaming transform with two bytes of
//! internal state; the decoder consumes the encoded stream in reverse.

pub mod decoder;
pub mod encoder;
pub mod laws;
pub mod model;

pub use decoder::DecodeError;
pub use decoder::MalformedError;
pub use decoder::decode;
pub use decoder::decode_to_slice;
pub use encoder::Encoder;
pub use encoder::Write;
pub use encoder::encode;
