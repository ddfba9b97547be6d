//! ISO/IEC 8859-1, also known as Latin-1.
//!
//! This encoding maps 1-to-1 to the first 256 Unicode scalar values, so
//! its decode table has no holes and its encode table carries all 128
//! upper-half bytes.

use vstd::prelude::*;
use vstd::utf8::valid_utf8;

use crate::scalars::char_of_scalar;
use crate::single_byte::ascii_ext_decode_to_str;
use crate::single_byte::ascii_ext_encode_from_str;
use crate::single_byte::lemma_sb_round_trip;
use crate::single_byte::sb_decode_post;
use crate::single_byte::sb_decode_run;
use crate::single_byte::sb_encode_post;
use crate::single_byte::sb_encode_run;
use crate::tables::assoc;
use crate::tables::lemma_assoc_found;
use crate::tables::sorted;
use crate::DecodeResult;
use crate::EncodeResult;

verus! {

/// Latin-1's decode table: byte `0x80 + i` is the scalar `0x80 + i`.
pub open spec fn decode_table() -> Seq<char> {
    Seq::new(128, |i: int| ((0x80 + i) as u32) as char)
}

/// Latin-1's encode table: the inverse of the decode table, already in
/// scalar order.
pub open spec fn encode_table() -> Seq<(char, u8)> {
    Seq::new(128, |k: int| (((0x80 + k) as u32) as char, (0x80 + k) as u8))
}

/// Encodes UTF-8 input as Latin-1; any scalar above 0xFF is an error.
pub fn encode_from_str(input: &[u8], out_buffer: &mut [u8]) -> (r: EncodeResult)
    requires
        valid_utf8(input@),
    ensures
        sb_encode_post(encode_table(), input@, old(out_buffer)@, final(out_buffer)@, r),
{
    let mut table: Vec<(char, u8)> = Vec::new();
    let mut k: usize = 0;
    while k < 128
        invariant
            k <= 128,
            table@.len() == k,
            forall|j: int| 0 <= j < k ==> table@[j] == encode_table()[j],
        decreases 128 - k,
    {
        let c = char_of_scalar(0x80 + k as u32);
        proof {
            vstd::utf8::char_u32_cast(c, (0x80 + k) as u32);
        }
        table.push((c, (0x80 + k) as u8));
        k = k + 1;
    }
    proof {
        assert(table@ =~= encode_table());
        assert forall|i: int, j: int| 0 <= i < j < table@.len() implies ((#[trigger] table@[i]).0
            as u32) < ((#[trigger] table@[j]).0 as u32) by {
            assert(table@[i].0 as u32 == 0x80 + i);
            assert(table@[j].0 as u32 == 0x80 + j);
        }
        assert(sorted(table@));
    }
    ascii_ext_encode_from_str(table.as_slice(), input, out_buffer)
}

/// Decodes Latin-1 input to UTF-8; every byte sequence is valid.
pub fn decode_to_str(input: &[u8], out_buffer: &mut [u8]) -> (r: DecodeResult)
    ensures
        sb_decode_post(decode_table(), input@, old(out_buffer)@, final(out_buffer)@, r),
{
    let mut table: [char; 128] = ['\u{FFFD}'; 128];
    let mut k: usize = 0;
    proof {
        broadcast use vstd::array::group_array_axioms;

    }
    while k < 128
        invariant
            k <= 128,
            table@.len() == 128,
            forall|j: int| 0 <= j < k ==> table@[j] == decode_table()[j],
        decreases 128 - k,
    {
        let c = char_of_scalar(0x80 + k as u32);
        proof {
            vstd::utf8::char_u32_cast(c, (0x80 + k) as u32);
        }
        table[k] = c;
        k = k + 1;
    }
    proof {
        assert(table@ =~= decode_table());
    }
    ascii_ext_decode_to_str(&table, input, out_buffer)
}

/// The encode table's keys are strictly increasing.
proof fn lemma_enc_sorted()
    ensures
        sorted(encode_table()),
{
    assert forall|i: int, j: int| 0 <= i < j < encode_table().len() implies ((
    #[trigger] encode_table()[i]).0 as u32) < ((#[trigger] encode_table()[j]).0 as u32) by {
        assert(encode_table()[i].0 as u32 == 0x80 + i);
        assert(encode_table()[j].0 as u32 == 0x80 + j);
    }
}

/// Round trip: Latin-1 decodes every byte stream, and re-encoding the
/// result reproduces the original bytes exactly.
pub proof fn lemma_round_trip(s: Seq<u8>, cap_d: int, cap_e: int)
    requires
        ({
            let d = sb_decode_run(decode_table(), s, 0, cap_d);
            d.err is None && d.used == s.len()
        }),
        cap_e >= s.len(),
    ensures
        ({
            let d = sb_decode_run(decode_table(), s, 0, cap_d);
            let e = sb_encode_run(encode_table(), d.out, 0, cap_e);
            &&& vstd::utf8::valid_utf8(d.out)
            &&& e.err is None
            &&& e.used == d.out.len()
            &&& e.out == s
        }),
{
    lemma_enc_sorted();
    assert forall|b: int|
        0 <= b < 128 && (#[trigger] decode_table()[b]) != '\u{FFFD}' implies (decode_table()[b]
        as u32) > 127 && assoc(encode_table(), decode_table()[b] as u32) == Some(
        ((b + 128) as u8),
    ) by {
        assert(decode_table()[b] as u32 == 0x80 + b);
        assert(encode_table()[b].0 as u32 == 0x80 + b);
        lemma_assoc_found(encode_table(), (0x80 + b) as u32, b);
    }
    lemma_sb_round_trip(decode_table(), encode_table(), s, cap_d, cap_e);
}

} // verus!
