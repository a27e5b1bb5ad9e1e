//! Encoding and decoding of RSV data: rows of optional strings, framed by
//! three reserved byte values that never occur in UTF-8 text.
//!
//! `format` states the byte layout over mathematical values, `codec` holds
//! the encoder and the decoder with contracts over that layout, and `laws`
//! proves what holds of the two together.
pub mod codec;
pub mod format;
pub mod laws;

pub use codec::{decode_rsv, encode_rsv, DecodeRSVErrors};
pub use format::{NULL_VALUE, ROW_TERMINATOR, VALUE_TERMINATOR};
