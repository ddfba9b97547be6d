//! Big-endian UTF-16.
//!
//! A thin wrapper binding the shared UTF-16 engine to big-endian
//! byte order.

use vstd::prelude::*;
use vstd::utf8::valid_utf8;

use crate::utf16::decode_post;
use crate::utf16::encode_post;
use crate::utf16::utf16_decode_to_str;
use crate::utf16::utf16_encode_from_str;
use crate::DecodeResult;
use crate::EncodeResult;

verus! {

/// Encodes UTF-8 input as big-endian UTF-16.
pub fn encode_from_str(input: &[u8], out_buffer: &mut [u8]) -> (r: EncodeResult)
    requires
        valid_utf8(input@),
    ensures
        encode_post(input@, true, old(out_buffer)@, final(out_buffer)@, r),
{
    utf16_encode_from_str(true, input, out_buffer)
}

/// Decodes big-endian UTF-16 input to UTF-8.
pub fn decode_to_str(input: &[u8], out_buffer: &mut [u8], is_end: bool) -> (r: DecodeResult)
    ensures
        decode_post(input@, true, is_end, old(out_buffer)@, final(out_buffer)@, r),
{
    utf16_decode_to_str(true, input, out_buffer, is_end)
}

} // verus!
