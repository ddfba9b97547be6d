//! Streaming transcoders between UTF-8 and a family of legacy byte encodings.
//!
//! Every codec module exposes two functions over caller-supplied buffers:
//!
//! * `encode_from_str`: turns UTF-8 bytes into the module's encoding.
//! * `decode_to_str`: turns bytes in the module's encoding into UTF-8.
//!
//! Both take an input slice and an output buffer, write as much as fits, and
//! return the number of output bytes written together with the number of
//! input bytes consumed, or an error describing the first offending span.
//! The consumed count always falls on a scalar boundary of the stream, so a
//! caller may feed a long stream through a small buffer by calling again
//! with the input advanced by the consumed count.  Codecs that must know
//! whether a truncated sequence at the end of the input is an error or a
//! chunk boundary take an `is_end` flag; no state is kept between calls.
//!
//! The contract of each function is stated against a specification-level
//! run of the codec over the input (see the `stream` module): the bytes
//! written, the bytes consumed, and the error reported are all pinned to
//! that run, and the run itself is a direct restatement of the encoding's
//! rules.

use vstd::prelude::*;

pub mod big5_whatwg;
pub mod scalars;
pub mod shiftjis_whatwg;
pub mod single_byte;
pub mod stream;
pub mod tables;
pub mod utf16;
pub mod utf16_be;
pub mod utf16_le;
pub mod utf32_be;
pub mod utf32_le;

verus! {

/// Result type for encoding from UTF-8 to a target encoding.
///
/// The `Ok` variant carries the number of output bytes written and the
/// number of input bytes consumed, in that order.
pub type EncodeResult = Result<(usize, usize), EncodeError>;

/// Result type for decoding from a source encoding to UTF-8.
///
/// The `Ok` variant carries the number of output bytes written and the
/// number of input bytes consumed, in that order.
pub type DecodeResult = Result<(usize, usize), DecodeError>;

/// An error when encoding from UTF-8 to some other encoding.
///
/// Since the input is valid UTF-8, the only possible error is a scalar
/// with no representation in the target encoding.  The offending
/// character, the byte range of that character in the input, and the
/// count of output bytes already written are provided.  Everything
/// before the offending character has already been written to the
/// output buffer.
#[derive(Debug, Copy, Clone, PartialEq)]
pub struct EncodeError {
    pub character: char,
    pub error_range: (usize, usize),
    pub output_bytes_written: usize,
}

/// An error when decoding from some other encoding to UTF-8.
///
/// The byte range of the invalid input span and the count of output
/// bytes already written are provided.  Everything before the invalid
/// span has already been decoded and written to the output buffer.
#[derive(Debug, Copy, Clone, PartialEq)]
pub struct DecodeError {
    pub cause: DecodeErrorCause,
    pub error_range: (usize, usize),
    pub output_bytes_written: usize,
}

/// What kind of failure a `DecodeError` reports.
#[derive(Debug, Copy, Clone, PartialEq)]
pub enum DecodeErrorCause {
    /// Invalid data was encountered: the bytes break the encoding's
    /// structural rules.
    InvalidData,
    /// Structurally valid data for which no reasonable conversion to
    /// Unicode is known.
    UnknownConversion,
}

} // verus!
