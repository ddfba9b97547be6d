//! US ASCII.
//!
//! The degenerate single-byte codec: the decode table is all holes in
//! the upper half and the encode table is empty.

use vstd::prelude::*;
use vstd::utf8::valid_utf8;

use crate::single_byte::ascii_ext_decode_to_str;
use crate::single_byte::ascii_ext_encode_from_str;
use crate::single_byte::lemma_sb_round_trip;
use crate::single_byte::sb_decode_post;
use crate::single_byte::sb_decode_run;
use crate::single_byte::sb_encode_post;
use crate::single_byte::sb_encode_run;
use crate::tables::sorted;
use crate::DecodeResult;
use crate::EncodeResult;

verus! {

/// ASCII's encode table: no scalar above 0x7F is representable.
pub open spec fn encode_table() -> Seq<(char, u8)> {
    Seq::empty()
}

/// ASCII's decode table: every byte at or above 0x80 is a hole.
pub open spec fn decode_table() -> Seq<char> {
    Seq::new(128, |i: int| '\u{FFFD}')
}

/// Encodes UTF-8 input as ASCII; any scalar above 0x7F is an error.
pub fn encode_from_str(input: &[u8], out_buffer: &mut [u8]) -> (r: EncodeResult)
    requires
        valid_utf8(input@),
    ensures
        sb_encode_post(encode_table(), input@, old(out_buffer)@, final(out_buffer)@, r),
{
    let table: Vec<(char, u8)> = Vec::new();
    proof {
        assert(table@ =~= encode_table());
        assert(sorted(table@));
    }
    ascii_ext_encode_from_str(table.as_slice(), input, out_buffer)
}

/// Decodes ASCII input to UTF-8; any byte at or above 0x80 is an
/// invalid-data error.
pub fn decode_to_str(input: &[u8], out_buffer: &mut [u8]) -> (r: DecodeResult)
    ensures
        sb_decode_post(decode_table(), input@, old(out_buffer)@, final(out_buffer)@, r),
{
    let table: [char; 128] = ['\u{FFFD}'; 128];
    proof {
        broadcast use vstd::array::group_array_axioms;

        assert(table@ =~= decode_table());
    }
    ascii_ext_decode_to_str(&table, input, out_buffer)
}

/// Round trip: the bytes ASCII decodes without error re-encode to the
/// original stream exactly.
pub proof fn lemma_round_trip(s: Seq<u8>, cap_d: int, cap_e: int)
    requires
        ({
            let d = sb_decode_run(decode_table(), s, 0, cap_d);
            d.err is None && d.used == s.len()
        }),
        cap_e >= s.len(),
    ensures
        ({
            let d = sb_decode_run(decode_table(), s, 0, cap_d);
            let e = sb_encode_run(encode_table(), d.out, 0, cap_e);
            &&& vstd::utf8::valid_utf8(d.out)
            &&& e.err is None
            &&& e.used == d.out.len()
            &&& e.out == s
        }),
{
    lemma_sb_round_trip(decode_table(), encode_table(), s, cap_d, cap_e);
}

} // verus!
