//! ISO/IEC 8859-7, the Greek alphabet, in its WHATWG form.
//!
//! The upper half passes the C1 controls through, keeps a handful of
//! Latin-1 punctuation, and maps the long contiguous run 0xC0..0xFE to
//! the Greek block starting at U+0390.  Three bytes are holes: 0xAE,
//! 0xD2 and 0xFF.

use vstd::prelude::*;
use vstd::utf8::valid_utf8;

use crate::scalars::char_of_scalar;
use crate::single_byte::ascii_ext_decode_to_str;
use crate::single_byte::ascii_ext_encode_from_str;
use crate::single_byte::sb_decode_post;
use crate::single_byte::sb_encode_post;
use crate::tables::sorted;
use crate::DecodeResult;
use crate::EncodeResult;

verus! {

/// The character that byte `0x80 + i` decodes to, with U+FFFD marking
/// the three holes.
pub open spec fn dec_char(i: int) -> char {
    let b = 0x80 + i;
    if b <= 0x9F || b == 0xA0 || b == 0xA3 || b == 0xA6 || b == 0xA7 || b == 0xA8 || b == 0xA9
        || b == 0xAB || b == 0xAC || b == 0xAD || b == 0xB0 || b == 0xB1 || b == 0xB2 || b == 0xB3
        || b == 0xB7 || b == 0xBB || b == 0xBD {
        (b as u32) as char
    } else if b == 0xA1 {
        '\u{2018}'
    } else if b == 0xA2 {
        '\u{2019}'
    } else if b == 0xA4 {
        '\u{20AC}'
    } else if b == 0xA5 {
        '\u{20AF}'
    } else if b == 0xAA {
        '\u{037A}'
    } else if b == 0xAF {
        '\u{2015}'
    } else if b == 0xB4 {
        '\u{0384}'
    } else if b == 0xB5 {
        '\u{0385}'
    } else if b == 0xB6 {
        '\u{0386}'
    } else if b == 0xB8 {
        '\u{0388}'
    } else if b == 0xB9 {
        '\u{0389}'
    } else if b == 0xBA {
        '\u{038A}'
    } else if b == 0xBC {
        '\u{038C}'
    } else if b == 0xBE {
        '\u{038E}'
    } else if b == 0xBF {
        '\u{038F}'
    } else if b == 0xAE || b == 0xD2 || b == 0xFF {
        '\u{FFFD}'
    } else {
        ((0x0390 + (b - 0xC0)) as u32) as char
    }
}

/// ISO-8859-7's decode table.
pub open spec fn decode_table() -> Seq<char> {
    Seq::new(128, |i: int| dec_char(i))
}

/// Entry `k` of the encode table: the 125 non-hole pairs of the decode
/// table, in scalar order.
pub open spec fn enc_entry(k: int) -> (char, u8) {
    if k < 32 {
        (((0x80 + k) as u32) as char, (0x80 + k) as u8)
    } else if k < 48 {
        enc_scatter(k - 32)
    } else if k == 48 {
        ('\u{037A}', 0xAA)
    } else if k < 52 {
        (((0x0384 + (k - 49)) as u32) as char, (0xB4 + (k - 49)) as u8)
    } else if k < 55 {
        (((0x0388 + (k - 52)) as u32) as char, (0xB8 + (k - 52)) as u8)
    } else if k == 55 {
        ('\u{038C}', 0xBC)
    } else if k < 58 {
        (((0x038E + (k - 56)) as u32) as char, (0xBE + (k - 56)) as u8)
    } else if k < 76 {
        (((0x0390 + (k - 58)) as u32) as char, (0xC0 + (k - 58)) as u8)
    } else if k < 120 {
        (((0x03A3 + (k - 76)) as u32) as char, (0xD3 + (k - 76)) as u8)
    } else if k == 120 {
        ('\u{2015}', 0xAF)
    } else if k == 121 {
        ('\u{2018}', 0xA1)
    } else if k == 122 {
        ('\u{2019}', 0xA2)
    } else if k == 123 {
        ('\u{20AC}', 0xA4)
    } else {
        ('\u{20AF}', 0xA5)
    }
}

/// The Latin-1 punctuation kept by ISO-8859-7, in scalar order.
pub open spec fn enc_scatter(j: int) -> (char, u8) {
    if j == 0 {
        ('\u{00A0}', 0xA0)
    } else if j == 1 {
        ('\u{00A3}', 0xA3)
    } else if j == 2 {
        ('\u{00A6}', 0xA6)
    } else if j == 3 {
        ('\u{00A7}', 0xA7)
    } else if j == 4 {
        ('\u{00A8}', 0xA8)
    } else if j == 5 {
        ('\u{00A9}', 0xA9)
    } else if j == 6 {
        ('\u{00AB}', 0xAB)
    } else if j == 7 {
        ('\u{00AC}', 0xAC)
    } else if j == 8 {
        ('\u{00AD}', 0xAD)
    } else if j == 9 {
        ('\u{00B0}', 0xB0)
    } else if j == 10 {
        ('\u{00B1}', 0xB1)
    } else if j == 11 {
        ('\u{00B2}', 0xB2)
    } else if j == 12 {
        ('\u{00B3}', 0xB3)
    } else if j == 13 {
        ('\u{00B7}', 0xB7)
    } else if j == 14 {
        ('\u{00BB}', 0xBB)
    } else {
        ('\u{00BD}', 0xBD)
    }
}

/// ISO-8859-7's encode table.
pub open spec fn encode_table() -> Seq<(char, u8)> {
    Seq::new(125, |k: int| enc_entry(k))
}

/// The scalar keys of the encode table are strictly increasing.
proof fn lemma_enc_key_increases(k: int)
    requires
        0 <= k < 124,
    ensures
        (enc_entry(k).0 as u32) < (enc_entry(k + 1).0 as u32),
{
}

proof fn lemma_enc_sorted()
    ensures
        sorted(encode_table()),
{
    assert forall|i: int, j: int| 0 <= i < j < encode_table().len() implies ((
    #[trigger] encode_table()[i]).0 as u32) < ((#[trigger] encode_table()[j]).0 as u32) by {
        lemma_enc_key_chain(i, j);
    }
}

proof fn lemma_enc_key_chain(i: int, j: int)
    requires
        0 <= i < j < 125,
    ensures
        (enc_entry(i).0 as u32) < (enc_entry(j).0 as u32),
    decreases j - i,
{
    lemma_enc_key_increases(j - 1);
    if i < j - 1 {
        lemma_enc_key_chain(i, j - 1);
    }
}

/// Builds the decode table.
fn build_decode_table() -> (t: [char; 128])
    ensures
        t@ == decode_table(),
{
    let mut table: [char; 128] = ['\u{FFFD}'; 128];
    proof {
        broadcast use vstd::array::group_array_axioms;

    }
    let mut k: usize = 0;
    while k < 128
        invariant
            k <= 128,
            table@.len() == 128,
            forall|j: int| 0 <= j < k ==> table@[j] == decode_table()[j],
        decreases 128 - k,
    {
        let b: u32 = 0x80 + k as u32;
        let c: char = if b <= 0x9F || b == 0xA0 || b == 0xA3 || b == 0xA6 || b == 0xA7 || b
            == 0xA8 || b == 0xA9 || b == 0xAB || b == 0xAC || b == 0xAD || b == 0xB0 || b == 0xB1
            || b == 0xB2 || b == 0xB3 || b == 0xB7 || b == 0xBB || b == 0xBD {
            let c = char_of_scalar(b);
            proof {
                vstd::utf8::char_u32_cast(c, b);
            }
            c
        } else if b == 0xA1 {
            '\u{2018}'
        } else if b == 0xA2 {
            '\u{2019}'
        } else if b == 0xA4 {
            '\u{20AC}'
        } else if b == 0xA5 {
            '\u{20AF}'
        } else if b == 0xAA {
            '\u{037A}'
        } else if b == 0xAF {
            '\u{2015}'
        } else if b == 0xB4 {
            '\u{0384}'
        } else if b == 0xB5 {
            '\u{0385}'
        } else if b == 0xB6 {
            '\u{0386}'
        } else if b == 0xB8 {
            '\u{0388}'
        } else if b == 0xB9 {
            '\u{0389}'
        } else if b == 0xBA {
            '\u{038A}'
        } else if b == 0xBC {
            '\u{038C}'
        } else if b == 0xBE {
            '\u{038E}'
        } else if b == 0xBF {
            '\u{038F}'
        } else if b == 0xAE || b == 0xD2 || b == 0xFF {
            '\u{FFFD}'
        } else {
            let c = char_of_scalar(0x0390 + (b - 0xC0));
            proof {
                vstd::utf8::char_u32_cast(c, (0x0390 + (b - 0xC0)) as u32);
            }
            c
        };
        table[k] = c;
        k = k + 1;
    }
    proof {
        assert(table@ =~= decode_table());
    }
    table
}

/// Builds the encode table.
fn build_encode_table() -> (t: Vec<(char, u8)>)
    ensures
        t@ == encode_table(),
        sorted(t@),
{
    let mut table: Vec<(char, u8)> = Vec::new();
    let mut k: usize = 0;
    while k < 125
        invariant
            k <= 125,
            table@.len() == k,
            forall|j: int| 0 <= j < k ==> table@[j] == encode_table()[j],
        decreases 125 - k,
    {
        let e: (char, u8) = if k < 32 {
            let c = char_of_scalar(0x80 + k as u32);
            proof {
                vstd::utf8::char_u32_cast(c, (0x80 + k) as u32);
            }
            (c, (0x80 + k) as u8)
        } else if k < 48 {
            let j = k - 32;
            if j == 0 {
                ('\u{00A0}', 0xA0)
            } else if j == 1 {
                ('\u{00A3}', 0xA3)
            } else if j == 2 {
                ('\u{00A6}', 0xA6)
            } else if j == 3 {
                ('\u{00A7}', 0xA7)
            } else if j == 4 {
                ('\u{00A8}', 0xA8)
            } else if j == 5 {
                ('\u{00A9}', 0xA9)
            } else if j == 6 {
                ('\u{00AB}', 0xAB)
            } else if j == 7 {
                ('\u{00AC}', 0xAC)
            } else if j == 8 {
                ('\u{00AD}', 0xAD)
            } else if j == 9 {
                ('\u{00B0}', 0xB0)
            } else if j == 10 {
                ('\u{00B1}', 0xB1)
            } else if j == 11 {
                ('\u{00B2}', 0xB2)
            } else if j == 12 {
                ('\u{00B3}', 0xB3)
            } else if j == 13 {
                ('\u{00B7}', 0xB7)
            } else if j == 14 {
                ('\u{00BB}', 0xBB)
            } else {
                ('\u{00BD}', 0xBD)
            }
        } else if k == 48 {
            ('\u{037A}', 0xAA)
        } else if k < 52 {
            let c = char_of_scalar(0x0384 + (k as u32 - 49));
            proof {
                vstd::utf8::char_u32_cast(c, (0x0384 + (k - 49)) as u32);
            }
            (c, (0xB4 + (k - 49)) as u8)
        } else if k < 55 {
            let c = char_of_scalar(0x0388 + (k as u32 - 52));
            proof {
                vstd::utf8::char_u32_cast(c, (0x0388 + (k - 52)) as u32);
            }
            (c, (0xB8 + (k - 52)) as u8)
        } else if k == 55 {
            ('\u{038C}', 0xBC)
        } else if k < 58 {
            let c = char_of_scalar(0x038E + (k as u32 - 56));
            proof {
                vstd::utf8::char_u32_cast(c, (0x038E + (k - 56)) as u32);
            }
            (c, (0xBE + (k - 56)) as u8)
        } else if k < 76 {
            let c = char_of_scalar(0x0390 + (k as u32 - 58));
            proof {
                vstd::utf8::char_u32_cast(c, (0x0390 + (k - 58)) as u32);
            }
            (c, (0xC0 + (k - 58)) as u8)
        } else if k < 120 {
            let c = char_of_scalar(0x03A3 + (k as u32 - 76));
            proof {
                vstd::utf8::char_u32_cast(c, (0x03A3 + (k - 76)) as u32);
            }
            (c, (0xD3 + (k - 76)) as u8)
        } else if k == 120 {
            ('\u{2015}', 0xAF)
        } else if k == 121 {
            ('\u{2018}', 0xA1)
        } else if k == 122 {
            ('\u{2019}', 0xA2)
        } else if k == 123 {
            ('\u{20AC}', 0xA4)
        } else {
            ('\u{20AF}', 0xA5)
        };
        table.push(e);
        k = k + 1;
    }
    proof {
        assert(table@ =~= encode_table());
        lemma_enc_sorted();
    }
    table
}

/// The index in the encode table of the entry for byte `0x80 + i`,
/// for the non-hole indices of the decode table.
pub open spec fn enc_index(i: int) -> int {
    let b = 0x80 + i;
    if b <= 0x9F {
        i
    } else if b == 0xA0 {
        32
    } else if b == 0xA3 {
        33
    } else if b == 0xA6 {
        34
    } else if b == 0xA7 {
        35
    } else if b == 0xA8 {
        36
    } else if b == 0xA9 {
        37
    } else if b == 0xAB {
        38
    } else if b == 0xAC {
        39
    } else if b == 0xAD {
        40
    } else if b == 0xB0 {
        41
    } else if b == 0xB1 {
        42
    } else if b == 0xB2 {
        43
    } else if b == 0xB3 {
        44
    } else if b == 0xB7 {
        45
    } else if b == 0xBB {
        46
    } else if b == 0xBD {
        47
    } else if b == 0xAA {
        48
    } else if b == 0xB4 {
        49
    } else if b == 0xB5 {
        50
    } else if b == 0xB6 {
        51
    } else if b == 0xB8 {
        52
    } else if b == 0xB9 {
        53
    } else if b == 0xBA {
        54
    } else if b == 0xBC {
        55
    } else if b == 0xBE {
        56
    } else if b == 0xBF {
        57
    } else if b == 0xA1 {
        121
    } else if b == 0xA2 {
        122
    } else if b == 0xA4 {
        123
    } else if b == 0xA5 {
        124
    } else if b == 0xAF {
        120
    } else if 0xC0 <= b <= 0xD1 {
        58 + (b - 0xC0)
    } else if 0xD3 <= b <= 0xFE {
        76 + (b - 0xD3)
    } else {
        0
    }
}

/// Round trip: the bytes ISO-8859-7 decodes without error re-encode to
/// the original stream exactly, since its encode table is the inverse
/// of its decode table.
#[verifier::rlimit(100)]
pub proof fn lemma_round_trip(s: Seq<u8>, cap_d: int, cap_e: int)
    requires
        ({
            let d = crate::single_byte::sb_decode_run(decode_table(), s, 0, cap_d);
            d.err is None && d.used == s.len()
        }),
        cap_e >= s.len(),
    ensures
        ({
            let d = crate::single_byte::sb_decode_run(decode_table(), s, 0, cap_d);
            let e = crate::single_byte::sb_encode_run(encode_table(), d.out, 0, cap_e);
            &&& vstd::utf8::valid_utf8(d.out)
            &&& e.err is None
            &&& e.used == d.out.len()
            &&& e.out == s
        }),
{
    lemma_enc_sorted();
    assert forall|b: int|
        0 <= b < 128 && (#[trigger] decode_table()[b]) != '\u{FFFD}' implies (decode_table()[b]
        as u32) > 127 && crate::tables::assoc(encode_table(), decode_table()[b] as u32) == Some(
        ((b + 128) as u8),
    ) by {
        let k = enc_index(b);
        assert(0 <= k < 125);
        assert(encode_table()[k].0 == dec_char(b));
        assert(encode_table()[k].1 == (b + 128) as u8);
        assert((dec_char(b) as u32) > 127);
        crate::tables::lemma_assoc_found(encode_table(), dec_char(b) as u32, k);
    }
    crate::single_byte::lemma_sb_round_trip(decode_table(), encode_table(), s, cap_d, cap_e);
}

/// Encodes UTF-8 input as ISO-8859-7; a scalar outside the encoding is
/// an error.
pub fn encode_from_str(input: &[u8], out_buffer: &mut [u8]) -> (r: EncodeResult)
    requires
        valid_utf8(input@),
    ensures
        sb_encode_post(encode_table(), input@, old(out_buffer)@, final(out_buffer)@, r),
{
    let table = build_encode_table();
    ascii_ext_encode_from_str(table.as_slice(), input, out_buffer)
}

/// Decodes ISO-8859-7 input to UTF-8; the three hole bytes are
/// invalid-data errors.
pub fn decode_to_str(input: &[u8], out_buffer: &mut [u8]) -> (r: DecodeResult)
    ensures
        sb_decode_post(decode_table(), input@, old(out_buffer)@, final(out_buffer)@, r),
{
    let table = build_decode_table();
    ascii_ext_decode_to_str(&table, input, out_buffer)
}

} // verus!
