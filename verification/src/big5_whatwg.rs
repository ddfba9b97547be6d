//! The WHATWG variant of BIG5.
//!
//! A two-byte codec: a lead byte in 0x81..0xFE and a trail byte in
//! 0x40..0x7E or 0xA1..0xFE form a pointer `(lead - 0x81) * 157 +
//! (trail - (trail < 0x7F ? 0x40 : 0x62))` into the decode table.  Four
//! pointers stand for two-scalar grapheme clusters rather than single
//! scalars, and the encoder peeks one scalar ahead to reunite such
//! pairs.  When a double-byte sequence is invalid or unmapped and its
//! trail byte is ASCII, the reported error spans only the lead byte, so
//! the ASCII byte stays in the stream.
//!
//! The table data carried here is an excerpt of the WHATWG Big5 index,
//! which is generated data of several thousand rows; a pointer absent
//! from the excerpt decodes as a hole, and a scalar absent from it does
//! not encode.

use vstd::prelude::*;
use vstd::utf8::decode_first_scalar;
use vstd::utf8::encode_scalar;
use vstd::utf8::is_char_boundary;
use vstd::utf8::length_of_first_scalar;
use vstd::utf8::valid_first_scalar;
use vstd::utf8::valid_utf8;

use crate::scalars::char_of_scalar;
use crate::scalars::lemma_encode_scalar_valid_utf8;
use crate::scalars::read_scalar;
use crate::scalars::utf8_width;
use crate::scalars::write_scalar;
use crate::stream::Run;
use crate::stream::Step;
use crate::tables::assoc;
use crate::tables::lookup;
use crate::tables::passoc;
use crate::tables::plookup;
use crate::tables::psorted;
use crate::tables::sorted;
use crate::DecodeError;
use crate::DecodeErrorCause;
use crate::DecodeResult;
use crate::EncodeError;
use crate::EncodeResult;

verus! {

/// The pointer formed by a valid lead and trail byte.
pub open spec fn big5_ptr(b1: u8, b2: u8) -> u32 {
    (((b1 - 0x81) * 157) + (if b2 < 0x7F {
        b2 - 0x40
    } else {
        b2 - 0x62
    })) as u32
}

/// The two BIG5 bytes of the four grapheme-cluster scalar pairs.
pub open spec fn grapheme_bytes(a: u32, b: u32) -> Option<(u8, u8)> {
    if a == 0xCA && b == 0x304 {
        Some((0x88, 0x62))
    } else if a == 0xCA && b == 0x30C {
        Some((0x88, 0x64))
    } else if a == 0xEA && b == 0x304 {
        Some((0x88, 0xA3))
    } else if a == 0xEA && b == 0x30C {
        Some((0x88, 0xA5))
    } else {
        None
    }
}

/// The two scalars of the four grapheme-cluster pointers.
pub open spec fn grapheme_scalars(ptr: u32) -> Option<(u32, u32)> {
    if ptr == 1133 {
        Some((0xCA, 0x304))
    } else if ptr == 1135 {
        Some((0xCA, 0x30C))
    } else if ptr == 1164 {
        Some((0xEA, 0x304))
    } else if ptr == 1166 {
        Some((0xEA, 0x30C))
    } else {
        None
    }
}

/// Entry `k` of the decode table: a pointer and the scalar it maps to,
/// in pointer order.
pub open spec fn dec_entry(k: int) -> (u32, char) {
    if k == 0 {
        (942, '\u{43F0}')
    } else if k == 1 {
        (1137, '\u{00CA}')
    } else if k == 2 {
        (1168, '\u{00EA}')
    } else if k == 3 {
        (3882, '\u{8991}')
    } else if k == 4 {
        (3883, '\u{27967}')
    } else if k == 5 {
        (3884, '\u{8A29}')
    } else if k == 6 {
        (5033, '\u{FF01}')
    } else if k == 7 {
        (5578, '\u{4ECA}')
    } else if k == 8 {
        (5630, '\u{65E5}')
    } else if k == 9 {
        (10969, '\u{3044}')
    } else if k == 10 {
        (11012, '\u{306F}')
    } else if k == 11 {
        (11037, '\u{3088}')
    } else if k == 12 {
        (19780, '\u{2910D}')
    } else {
        (19781, '\u{79D4}')
    }
}

/// The decode table, sorted by pointer.
pub open spec fn decode_table() -> Seq<(u32, char)> {
    Seq::new(14, |k: int| dec_entry(k))
}

/// Entry `k` of the encode table: a scalar and its two BIG5 bytes, in
/// scalar order.
pub open spec fn enc_entry(k: int) -> (char, (u8, u8)) {
    if k == 0 {
        ('\u{00CA}', (0x88, 0x66))
    } else if k == 1 {
        ('\u{00EA}', (0x88, 0xA7))
    } else if k == 2 {
        ('\u{3044}', (0xC6, 0xEA))
    } else if k == 3 {
        ('\u{306F}', (0xC7, 0x56))
    } else if k == 4 {
        ('\u{3088}', (0xC7, 0x6F))
    } else if k == 5 {
        ('\u{43F0}', (0x87, 0x40))
    } else if k == 6 {
        ('\u{4ECA}', (0xA4, 0xB5))
    } else if k == 7 {
        ('\u{65E5}', (0xA4, 0xE9))
    } else if k == 8 {
        ('\u{79D4}', (0xFE, 0xFE))
    } else if k == 9 {
        ('\u{8991}', (0x99, 0xD4))
    } else if k == 10 {
        ('\u{8A29}', (0x99, 0xD6))
    } else if k == 11 {
        ('\u{FF01}', (0xA1, 0x49))
    } else if k == 12 {
        ('\u{27967}', (0x99, 0xD5))
    } else {
        ('\u{2910D}', (0xFE, 0xFD))
    }
}

/// The encode table, sorted by scalar.
pub open spec fn encode_table() -> Seq<(char, (u8, u8))> {
    Seq::new(14, |k: int| enc_entry(k))
}

/// What the encoder does at input position `i` of the UTF-8 input `s`,
/// with `cap` output bytes of room left.
pub open spec fn encode_step(s: Seq<u8>, is_end: bool, i: int, cap: int) -> Step {
    if cap <= 0 {
        Step::Stop
    } else if i == s.len() {
        Step::Stop
    } else {
        let rest = s.subrange(i, s.len() as int);
        let c = decode_first_scalar(rest);
        let l = length_of_first_scalar(rest);
        if c <= 127 {
            Step::Put { used: i + l, out: seq![c as u8] }
        } else {
            match assoc(encode_table(), c) {
                None => Step::Fail { span: l },
                Some(bytes) => {
                    if c == 0xCA || c == 0xEA {
                        if i + l == s.len() {
                            if !is_end {
                                Step::Stop
                            } else {
                                Step::Put { used: i + l, out: seq![bytes.0, bytes.1] }
                            }
                        } else {
                            let rest2 = s.subrange(i + l, s.len() as int);
                            let c2 = decode_first_scalar(rest2);
                            let l2 = length_of_first_scalar(rest2);
                            match grapheme_bytes(c, c2) {
                                Some(gb) => Step::Put {
                                    used: i + l + l2,
                                    out: seq![gb.0, gb.1],
                                },
                                None => Step::Put { used: i + l, out: seq![bytes.0, bytes.1] },
                            }
                        }
                    } else {
                        Step::Put { used: i + l, out: seq![bytes.0, bytes.1] }
                    }
                },
            }
        }
    }
}

/// The encoder's run over `s` from position `i` with `cap` output
/// bytes of room left.
pub open spec fn encode_run(s: Seq<u8>, is_end: bool, i: int, cap: int) -> Run
    decreases s.len() - i,
    when 0 <= i <= s.len()
{
    match encode_step(s, is_end, i, cap) {
        Step::Stop => Run::stop(i),
        Step::Fail { span } => Run::fail(i, span),
        Step::Put { used, out } => {
            if out.len() > cap || !(i < used <= s.len()) {
                Run::stop(i)
            } else {
                Run::after(out, encode_run(s, is_end, used, cap - out.len()))
            }
        },
    }
}

/// What the decoder does at input position `i`, with `cap` output
/// bytes of room left.
pub open spec fn decode_step(s: Seq<u8>, is_end: bool, i: int, cap: int) -> Step {
    if cap <= 0 {
        Step::Stop
    } else if i == s.len() {
        Step::Stop
    } else {
        let b1 = s[i];
        if b1 <= 127 {
            Step::Put { used: i + 1, out: seq![b1] }
        } else if b1 == 0x80 || b1 == 0xFF {
            Step::Fail { span: 1 }
        } else if i + 1 == s.len() {
            if !is_end {
                Step::Stop
            } else {
                Step::Fail { span: 1 }
            }
        } else {
            let b2 = s[i + 1];
            if b2 < 0x40 || b2 > 0xFE || (b2 > 0x7E && b2 < 0xA1) {
                Step::Fail {
                    span: if b2 <= 127 {
                        1
                    } else {
                        2
                    },
                }
            } else {
                let ptr = big5_ptr(b1, b2);
                match passoc(decode_table(), ptr) {
                    Some(code) => Step::Put { used: i + 2, out: encode_scalar(code as u32) },
                    None => match grapheme_scalars(ptr) {
                        Some(pair) => Step::Put {
                            used: i + 2,
                            out: encode_scalar(pair.0) + encode_scalar(pair.1),
                        },
                        None => Step::Fail {
                            span: if b2 <= 127 {
                                1
                            } else {
                                2
                            },
                        },
                    },
                }
            }
        }
    }
}

/// The decoder's run over `s` from position `i` with `cap` output
/// bytes of room left.
pub open spec fn decode_run(s: Seq<u8>, is_end: bool, i: int, cap: int) -> Run
    decreases s.len() - i,
    when 0 <= i <= s.len()
{
    match decode_step(s, is_end, i, cap) {
        Step::Stop => Run::stop(i),
        Step::Fail { span } => Run::fail(i, span),
        Step::Put { used, out } => {
            if out.len() > cap || !(i < used <= s.len()) {
                Run::stop(i)
            } else {
                Run::after(out, decode_run(s, is_end, used, cap - out.len()))
            }
        },
    }
}

/// Everything the encoder promises, relative to its run.
pub open spec fn encode_post(
    s: Seq<u8>,
    is_end: bool,
    old_out: Seq<u8>,
    new_out: Seq<u8>,
    r: EncodeResult,
) -> bool {
    let run = encode_run(s, is_end, 0, old_out.len() as int);
    &&& new_out.len() == old_out.len()
    &&& 0 <= run.used <= s.len()
    &&& run.out.len() <= old_out.len()
    &&& is_char_boundary(s, run.used)
    &&& new_out.subrange(0, run.out.len() as int) == run.out
    &&& new_out.subrange(run.out.len() as int, old_out.len() as int) == old_out.subrange(
        run.out.len() as int,
        old_out.len() as int,
    )
    &&& match r {
        Ok((written, consumed)) => {
            &&& run.err is None
            &&& written == run.out.len()
            &&& consumed == run.used
        },
        Err(e) => match run.err {
            Some(span) => {
                let rest = s.subrange(run.used, s.len() as int);
                &&& e.character as u32 == decode_first_scalar(rest)
                &&& span == length_of_first_scalar(rest)
                &&& e.error_range.0 == run.used
                &&& e.error_range.1 == run.used + span
                &&& e.output_bytes_written == run.out.len()
            },
            None => false,
        },
    }
}

/// Everything the decoder promises, relative to its run.
pub open spec fn decode_post(
    s: Seq<u8>,
    is_end: bool,
    old_out: Seq<u8>,
    new_out: Seq<u8>,
    r: DecodeResult,
) -> bool {
    let run = decode_run(s, is_end, 0, old_out.len() as int);
    &&& new_out.len() == old_out.len()
    &&& 0 <= run.used <= s.len()
    &&& run.out.len() <= old_out.len()
    &&& valid_utf8(run.out)
    &&& new_out.subrange(0, run.out.len() as int) == run.out
    &&& new_out.subrange(run.out.len() as int, old_out.len() as int) == old_out.subrange(
        run.out.len() as int,
        old_out.len() as int,
    )
    &&& match r {
        Ok((written, consumed)) => {
            &&& run.err is None
            &&& written == run.out.len()
            &&& consumed == run.used
        },
        Err(e) => match run.err {
            Some(span) => {
                &&& e.cause == DecodeErrorCause::InvalidData
                &&& e.error_range.0 == run.used
                &&& e.error_range.1 == run.used + span
                &&& e.output_bytes_written == run.out.len()
            },
            None => false,
        },
    }
}

/// Maps a two-scalar grapheme cluster to its BIG5 byte pair.
pub fn map_grapheme(a: u32, b: u32) -> (r: Option<[u8; 2]>)
    ensures
        match r {
            Some(gb) => {
                &&& gb@.len() == 2
                &&& grapheme_bytes(a, b) == Some((gb@[0], gb@[1]))
            },
            None => grapheme_bytes(a, b) is None,
        },
{
    if a == 0xCA && b == 0x304 {
        Some([0x88, 0x62])
    } else if a == 0xCA && b == 0x30C {
        Some([0x88, 0x64])
    } else if a == 0xEA && b == 0x304 {
        Some([0x88, 0xA3])
    } else if a == 0xEA && b == 0x30C {
        Some([0x88, 0xA5])
    } else {
        None
    }
}

proof fn lemma_enc_sorted()
    ensures
        sorted(encode_table()),
{
    assert forall|i: int, j: int| 0 <= i < j < encode_table().len() implies ((
    #[trigger] encode_table()[i]).0 as u32) < ((#[trigger] encode_table()[j]).0 as u32) by {
        assert((enc_entry(i).0 as u32) < (enc_entry(j).0 as u32));
    }
}

proof fn lemma_dec_sorted()
    ensures
        psorted(decode_table()),
{
    assert forall|i: int, j: int| 0 <= i < j < decode_table().len() implies ((
    #[trigger] decode_table()[i]).0) < ((#[trigger] decode_table()[j]).0) by {
        assert(dec_entry(i).0 < dec_entry(j).0);
    }
}

/// Builds the encode table.
fn build_encode_table() -> (t: Vec<(char, (u8, u8))>)
    ensures
        t@ == encode_table(),
        sorted(t@),
{
    let mut table: Vec<(char, (u8, u8))> = Vec::new();
    table.push(('\u{00CA}', (0x88, 0x66)));
    table.push(('\u{00EA}', (0x88, 0xA7)));
    table.push(('\u{3044}', (0xC6, 0xEA)));
    table.push(('\u{306F}', (0xC7, 0x56)));
    table.push(('\u{3088}', (0xC7, 0x6F)));
    table.push(('\u{43F0}', (0x87, 0x40)));
    table.push(('\u{4ECA}', (0xA4, 0xB5)));
    table.push(('\u{65E5}', (0xA4, 0xE9)));
    table.push(('\u{79D4}', (0xFE, 0xFE)));
    table.push(('\u{8991}', (0x99, 0xD4)));
    table.push(('\u{8A29}', (0x99, 0xD6)));
    table.push(('\u{FF01}', (0xA1, 0x49)));
    table.push(('\u{27967}', (0x99, 0xD5)));
    table.push(('\u{2910D}', (0xFE, 0xFD)));
    proof {
        assert(table@ =~= encode_table());
        lemma_enc_sorted();
    }
    table
}

/// Builds the decode table.
fn build_decode_table() -> (t: Vec<(u32, char)>)
    ensures
        t@ == decode_table(),
        psorted(t@),
{
    let mut table: Vec<(u32, char)> = Vec::new();
    table.push((942, '\u{43F0}'));
    table.push((1137, '\u{00CA}'));
    table.push((1168, '\u{00EA}'));
    table.push((3882, '\u{8991}'));
    table.push((3883, '\u{27967}'));
    table.push((3884, '\u{8A29}'));
    table.push((5033, '\u{FF01}'));
    table.push((5578, '\u{4ECA}'));
    table.push((5630, '\u{65E5}'));
    table.push((10969, '\u{3044}'));
    table.push((11012, '\u{306F}'));
    table.push((11037, '\u{3088}'));
    table.push((19780, '\u{2910D}'));
    table.push((19781, '\u{79D4}'));
    proof {
        assert(table@ =~= decode_table());
        lemma_dec_sorted();
    }
    table
}

/// Encodes UTF-8 input as BIG5.  With `is_end` false, a trailing U+00CA
/// or U+00EA is left unconsumed, since only the next chunk can tell
/// whether it heads a grapheme cluster.
#[verifier::rlimit(100)]
pub fn encode_from_str(input: &[u8], out_buffer: &mut [u8], is_end: bool) -> (r: EncodeResult)
    requires
        valid_utf8(input@),
    ensures
        encode_post(input@, is_end, old(out_buffer)@, final(out_buffer)@, r),
{
    let table = build_encode_table();
    let ghost s = input@;
    let ghost cap0 = old(out_buffer)@.len() as int;
    let mut input_i: usize = 0;
    let mut output_i: usize = 0;
    while input_i < input.len()
        invariant
            valid_utf8(s),
            s == input@,
            table@ == encode_table(),
            sorted(table@),
            input_i <= input.len(),
            is_char_boundary(s, input_i as int),
            output_i <= out_buffer@.len(),
            out_buffer@.len() == cap0,
            cap0 == old(out_buffer)@.len(),
            out_buffer@.subrange(output_i as int, cap0) == old(out_buffer)@.subrange(
                output_i as int,
                cap0,
            ),
            ({
                let whole = encode_run(s, is_end, 0, cap0);
                let rest = encode_run(s, is_end, input_i as int, cap0 - output_i);
                &&& whole.out == out_buffer@.subrange(0, output_i as int) + rest.out
                &&& whole.used == rest.used
                &&& whole.err == rest.err
            }),
        decreases input.len() - input_i,
    {
        let ghost rest_run = encode_run(s, is_end, input_i as int, cap0 - output_i);
        if output_i >= out_buffer.len() {
            proof {
                assert(rest_run == Run::stop(input_i as int));
            }
            return Ok((output_i, input_i));
        }
        let (c, l) = read_scalar(input, input_i);
        if c <= 127 {
            let ghost prev = out_buffer@;
            out_buffer[output_i] = c as u8;
            proof {
                assert(out_buffer@.subrange(0, output_i as int) =~= prev.subrange(
                    0,
                    output_i as int,
                ));
                assert(out_buffer@.subrange(output_i as int, output_i + 1) =~= seq![c as u8]);
                assert(out_buffer@.subrange(output_i + 1, cap0) =~= prev.subrange(
                    output_i + 1,
                    cap0,
                ));
                assert forall|j: int| output_i <= j < cap0 implies prev[j] == old(out_buffer)@[j]
                    by {
                    assert(prev.subrange(output_i as int, cap0)[j - output_i] == old(
                        out_buffer,
                    )@.subrange(output_i as int, cap0)[j - output_i]);
                }
                assert(prev.subrange(output_i + 1, cap0) =~= old(out_buffer)@.subrange(
                    output_i + 1,
                    cap0,
                ));
                assert(rest_run == Run::after(
                    seq![c as u8],
                    encode_run(s, is_end, input_i + l, cap0 - output_i - 1),
                ));
                assert(out_buffer@.subrange(0, output_i + 1) =~= out_buffer@.subrange(
                    0,
                    output_i as int,
                ) + seq![c as u8]);
                assert(encode_run(s, is_end, 0, cap0).out =~= out_buffer@.subrange(
                    0,
                    output_i + 1,
                ) + encode_run(s, is_end, input_i + l, cap0 - output_i - 1).out);
            }
            output_i = output_i + 1;
            input_i = input_i + l;
            continue ;
        }
        let found = lookup(table.as_slice(), c);
        if found.is_none() {
            proof {
                assert(rest_run == Run::fail(input_i as int, l as int));
            }
            let character = char_of_scalar(c);
            return Err(EncodeError {
                character,
                error_range: (input_i, input_i + l),
                output_bytes_written: output_i,
            });
        }
        let bytes = found.unwrap();
        let b0: u8;
        let b1: u8;
        let used: usize;
        if c == 0xCA || c == 0xEA {
            if input_i + l == input.len() {
                if !is_end {
                    proof {
                        assert(rest_run == Run::stop(input_i as int));
                    }
                    return Ok((output_i, input_i));
                }
                b0 = bytes.0;
                b1 = bytes.1;
                used = input_i + l;
            } else {
                let (c2, l2) = read_scalar(input, input_i + l);
                match map_grapheme(c, c2) {
                    Some(gb) => {
                        b0 = gb[0];
                        b1 = gb[1];
                        used = input_i + l + l2;
                    },
                    None => {
                        b0 = bytes.0;
                        b1 = bytes.1;
                        used = input_i + l;
                    },
                }
            }
        } else {
            b0 = bytes.0;
            b1 = bytes.1;
            used = input_i + l;
        }
        proof {
            assert(encode_step(s, is_end, input_i as int, cap0 - output_i) == Step::Put {
                used: used as int,
                out: seq![b0, b1],
            });
        }
        if 2 > out_buffer.len() - output_i {
            proof {
                assert(rest_run == Run::stop(input_i as int));
            }
            return Ok((output_i, input_i));
        }
        let ghost prev = out_buffer@;
        out_buffer[output_i] = b0;
        out_buffer[output_i + 1] = b1;
        proof {
            assert(out_buffer@.subrange(0, output_i as int) =~= prev.subrange(
                0,
                output_i as int,
            ));
            assert(out_buffer@.subrange(output_i as int, output_i + 2) =~= seq![b0, b1]);
            assert(out_buffer@.subrange(output_i + 2, cap0) =~= prev.subrange(
                output_i + 2,
                cap0,
            ));
            assert forall|j: int| output_i <= j < cap0 implies prev[j] == old(out_buffer)@[j] by {
                assert(prev.subrange(output_i as int, cap0)[j - output_i] == old(
                    out_buffer,
                )@.subrange(output_i as int, cap0)[j - output_i]);
            }
            assert(prev.subrange(output_i + 2, cap0) =~= old(out_buffer)@.subrange(
                output_i + 2,
                cap0,
            ));
            assert(rest_run == Run::after(
                seq![b0, b1],
                encode_run(s, is_end, used as int, cap0 - output_i - 2),
            ));
            assert(out_buffer@.subrange(0, output_i + 2) =~= out_buffer@.subrange(
                0,
                output_i as int,
            ) + seq![b0, b1]);
            assert(encode_run(s, is_end, 0, cap0).out =~= out_buffer@.subrange(0, output_i + 2)
                + encode_run(s, is_end, used as int, cap0 - output_i - 2).out);
        }
        output_i = output_i + 2;
        input_i = used;
    }
    proof {
        assert(encode_run(s, is_end, input_i as int, cap0 - output_i) == Run::stop(
            input_i as int,
        ));
    }
    Ok((output_i, input_i))
}

/// Decodes BIG5 input to UTF-8.  A lead byte with no trail at the end
/// of the input is left unconsumed when `is_end` is false and is an
/// invalid-data error when `is_end` is true; the bytes written are
/// always valid UTF-8.
#[verifier::rlimit(100)]
pub fn decode_to_str(input: &[u8], out_buffer: &mut [u8], is_end: bool) -> (r: DecodeResult)
    ensures
        decode_post(input@, is_end, old(out_buffer)@, final(out_buffer)@, r),
{
    let table = build_decode_table();
    let ghost s = input@;
    let ghost cap0 = old(out_buffer)@.len() as int;
    let mut input_i: usize = 0;
    let mut output_i: usize = 0;
    while input_i < input.len()
        invariant
            s == input@,
            table@ == decode_table(),
            psorted(table@),
            input_i <= input.len(),
            output_i <= out_buffer@.len(),
            out_buffer@.len() == cap0,
            cap0 == old(out_buffer)@.len(),
            valid_utf8(out_buffer@.subrange(0, output_i as int)),
            out_buffer@.subrange(output_i as int, cap0) == old(out_buffer)@.subrange(
                output_i as int,
                cap0,
            ),
            ({
                let whole = decode_run(s, is_end, 0, cap0);
                let rest = decode_run(s, is_end, input_i as int, cap0 - output_i);
                &&& whole.out == out_buffer@.subrange(0, output_i as int) + rest.out
                &&& whole.used == rest.used
                &&& whole.err == rest.err
            }),
        decreases input.len() - input_i,
    {
        let ghost rest_run = decode_run(s, is_end, input_i as int, cap0 - output_i);
        if output_i >= out_buffer.len() {
            proof {
                assert(rest_run == Run::stop(input_i as int));
            }
            return Ok((output_i, input_i));
        }
        let b1 = input[input_i];
        if b1 <= 127 {
            proof {
                assert(b1 as u32 & 0x7F == b1 as u32) by (bit_vector)
                    requires
                        b1 <= 127,
                ;
                assert(seq![b1] =~= encode_scalar(b1 as u32));
                lemma_encode_scalar_valid_utf8(b1 as u32);
            }
            let ghost prev = out_buffer@;
            let written = write_scalar(out_buffer, output_i, b1 as u32);
            proof {
                lemma_decode_advance(
                    s,
                    is_end,
                    cap0,
                    input_i as int,
                    output_i as int,
                    1,
                    input_i + 1,
                    encode_scalar(b1 as u32),
                    prev,
                    out_buffer@,
                    old(out_buffer)@,
                );
            }
            output_i = output_i + written;
            input_i = input_i + 1;
            continue ;
        }
        if b1 == 0x80 || b1 == 0xFF {
            proof {
                assert(rest_run == Run::fail(input_i as int, 1));
            }
            return Err(DecodeError {
                cause: DecodeErrorCause::InvalidData,
                error_range: (input_i, input_i + 1),
                output_bytes_written: output_i,
            });
        }
        if input_i + 1 == input.len() {
            if !is_end {
                proof {
                    assert(rest_run == Run::stop(input_i as int));
                }
                return Ok((output_i, input_i));
            }
            proof {
                assert(rest_run == Run::fail(input_i as int, 1));
            }
            return Err(DecodeError {
                cause: DecodeErrorCause::InvalidData,
                error_range: (input_i, input_i + 1),
                output_bytes_written: output_i,
            });
        }
        let b2 = input[input_i + 1];
        if b2 < 0x40 || b2 > 0xFE || (b2 > 0x7E && b2 < 0xA1) {
            let span: usize = if b2 <= 127 {
                1
            } else {
                2
            };
            proof {
                assert(rest_run == Run::fail(input_i as int, span as int));
            }
            return Err(DecodeError {
                cause: DecodeErrorCause::InvalidData,
                error_range: (input_i, input_i + span),
                output_bytes_written: output_i,
            });
        }
        let ptr: u32 = ((b1 - 0x81) as u32) * 157 + (if b2 < 0x7F {
            (b2 - 0x40) as u32
        } else {
            (b2 - 0x62) as u32
        });
        assert(ptr == big5_ptr(b1, b2));
        match plookup(table.as_slice(), ptr) {
            Some(code) => {
                let scalar = code as u32;
                proof {
                    vstd::utf8::char_is_scalar(code);
                }
                let l = utf8_width(scalar);
                if l > out_buffer.len() - output_i {
                    proof {
                        assert(rest_run == Run::stop(input_i as int));
                    }
                    return Ok((output_i, input_i));
                }
                let ghost prev = out_buffer@;
                let written = write_scalar(out_buffer, output_i, scalar);
                proof {
                    lemma_encode_scalar_valid_utf8(scalar);
                    lemma_decode_advance(
                        s,
                        is_end,
                        cap0,
                        input_i as int,
                        output_i as int,
                        l as int,
                        input_i + 2,
                        encode_scalar(scalar),
                        prev,
                        out_buffer@,
                        old(out_buffer)@,
                    );
                }
                output_i = output_i + written;
                input_i = input_i + 2;
            },
            None => {
                let pair: (u32, u32);
                if ptr == 1133 {
                    pair = (0xCA, 0x304);
                } else if ptr == 1135 {
                    pair = (0xCA, 0x30C);
                } else if ptr == 1164 {
                    pair = (0xEA, 0x304);
                } else if ptr == 1166 {
                    pair = (0xEA, 0x30C);
                } else {
                    let span: usize = if b2 <= 127 {
                        1
                    } else {
                        2
                    };
                    proof {
                        assert(rest_run == Run::fail(input_i as int, span as int));
                    }
                    return Err(DecodeError {
                        cause: DecodeErrorCause::InvalidData,
                        error_range: (input_i, input_i + span),
                        output_bytes_written: output_i,
                    });
                }
                let la = utf8_width(pair.0);
                let lb = utf8_width(pair.1);
                if la + lb > out_buffer.len() - output_i {
                    proof {
                        assert(rest_run == Run::stop(input_i as int));
                    }
                    return Ok((output_i, input_i));
                }
                let ghost prev = out_buffer@;
                let wa = write_scalar(out_buffer, output_i, pair.0);
                let ghost mid = out_buffer@;
                let wb = write_scalar(out_buffer, output_i + wa, pair.1);
                let ghost emitted = encode_scalar(pair.0) + encode_scalar(pair.1);
                proof {
                    assert forall|j: int|
                        0 <= j < cap0 && !(output_i <= j < output_i + la + lb) implies out_buffer@[j]
                        == prev[j] by {
                        assert(mid[j] == prev[j]);
                    }
                    assert forall|k: int| 0 <= k < la + lb implies out_buffer@[output_i + k]
                        == emitted[k] by {
                        if k < la {
                            assert(out_buffer@[output_i + k] == mid[output_i + k]);
                            assert(mid[output_i + k] == encode_scalar(pair.0)[k]);
                        } else {
                            assert(out_buffer@[output_i + la + (k - la)] == encode_scalar(
                                pair.1,
                            )[k - la]);
                        }
                    }
                    lemma_encode_scalar_valid_utf8(pair.0);
                    lemma_encode_scalar_valid_utf8(pair.1);
                    vstd::utf8::valid_utf8_concat(encode_scalar(pair.0), encode_scalar(pair.1));
                    lemma_decode_advance(
                        s,
                        is_end,
                        cap0,
                        input_i as int,
                        output_i as int,
                        (la + lb) as int,
                        input_i + 2,
                        emitted,
                        prev,
                        out_buffer@,
                        old(out_buffer)@,
                    );
                }
                output_i = output_i + wa + wb;
                input_i = input_i + 2;
            },
        }
    }
    proof {
        assert(decode_run(s, is_end, input_i as int, cap0 - output_i) == Run::stop(
            input_i as int,
        ));
    }
    Ok((output_i, input_i))
}

/// An encode run reads nothing before its current position: dropping an
/// already-encoded prefix of the input shifts the run.
pub proof fn lemma_encode_run_shift(s: Seq<u8>, is_end: bool, d: int, i: int, cap: int)
    requires
        0 <= d <= i <= s.len(),
        valid_utf8(s.subrange(i, s.len() as int)),
    ensures
        ({
            let r1 = encode_run(s, is_end, i, cap);
            let r2 = encode_run(s.subrange(d, s.len() as int), is_end, i - d, cap);
            &&& r1.out == r2.out
            &&& r1.used == r2.used + d
            &&& r1.err == r2.err
        }),
    decreases s.len() - i,
{
    let n = s.len() as int;
    let s2 = s.subrange(d, n);
    if cap <= 0 || i == n {
    } else {
        assert(s.subrange(i, n) =~= s2.subrange(i - d, s2.len() as int));
        let rest = s.subrange(i, n);
        let l = length_of_first_scalar(rest);
        assert(valid_first_scalar(rest));
        assert(1 <= l <= rest.len());
        assert(vstd::utf8::pop_first_scalar(rest) =~= s.subrange(i + l, n));
        assert(valid_utf8(s.subrange(i + l, n)));
        if i + l < n {
            assert(s.subrange(i + l, n) =~= s2.subrange(i - d + l, s2.len() as int));
            let rest2 = s.subrange(i + l, n);
            let l2 = length_of_first_scalar(rest2);
            assert(valid_first_scalar(rest2));
            assert(1 <= l2 <= rest2.len());
            assert(vstd::utf8::pop_first_scalar(rest2) =~= s.subrange(i + l + l2, n));
            assert(valid_utf8(s.subrange(i + l + l2, n)));
        }
        assert(i - d + l == s2.len() <==> i + l == n);
        match encode_step(s, is_end, i, cap) {
            Step::Stop => {},
            Step::Fail { span } => {},
            Step::Put { used, out } => {
                assert(encode_step(s2, is_end, i - d, cap) == Step::Put { used: used - d, out });
                if !(out.len() > cap) && i < used <= n {
                    lemma_encode_run_shift(s, is_end, d, used, cap - out.len());
                }
            },
        }
    }
}

/// Chunk invariance of encoding: when a first call with `is_end` false
/// ends without error, feeding the UTF-8 stream as that chunk and then
/// the unconsumed tail plus the rest gives exactly what one call over
/// the concatenation gives.  In particular a deferred U+00CA or U+00EA
/// at a chunk boundary is paired with its combining mark once the next
/// chunk arrives.
pub proof fn lemma_encode_chunks(s1: Seq<u8>, s2: Seq<u8>, is_end: bool, cap: int)
    requires
        valid_utf8(s1),
        valid_utf8(s2),
        ({
            let r1 = encode_run(s1, false, 0, cap);
            r1.err is None
        }),
    ensures
        ({
            let r1 = encode_run(s1, false, 0, cap);
            let rest = s1.subrange(r1.used, s1.len() as int) + s2;
            let r2 = encode_run(rest, is_end, 0, cap - r1.out.len());
            let whole = encode_run(s1 + s2, is_end, 0, cap);
            &&& whole.out == r1.out + r2.out
            &&& whole.used == r1.used + r2.used
            &&& whole.err == r2.err
        }),
{
    assert(s1.subrange(0, s1.len() as int) =~= s1);
    lemma_encode_chunks_from(s1, s2, is_end, 0, cap);
}

#[verifier::rlimit(100)]
proof fn lemma_encode_chunks_from(s1: Seq<u8>, s2: Seq<u8>, is_end: bool, i: int, cap: int)
    requires
        0 <= i <= s1.len(),
        valid_utf8(s1.subrange(i, s1.len() as int)),
        valid_utf8(s2),
        ({
            let r1 = encode_run(s1, false, i, cap);
            r1.err is None
        }),
    ensures
        ({
            let r1 = encode_run(s1, false, i, cap);
            let rest = s1.subrange(r1.used, s1.len() as int) + s2;
            let r2 = encode_run(rest, is_end, 0, cap - r1.out.len());
            let whole = encode_run(s1 + s2, is_end, i, cap);
            &&& whole.out == r1.out + r2.out
            &&& whole.used == r1.used + r2.used
            &&& whole.err == r2.err
        }),
    decreases s1.len() - i,
{
    let n1 = s1.len() as int;
    let nw = (s1 + s2).len() as int;
    let r1 = encode_run(s1, false, i, cap);
    let stopped = match encode_step(s1, false, i, cap) {
        Step::Stop => true,
        Step::Fail { span } => true,
        Step::Put { used, out } => out.len() > cap || !(i < used <= n1),
    };
    if stopped {
        assert(r1 == Run::stop(i));
        assert((s1 + s2).subrange(i, nw) =~= s1.subrange(i, n1) + s2);
        vstd::utf8::valid_utf8_concat(s1.subrange(i, n1), s2);
        lemma_encode_run_shift(s1 + s2, is_end, i, i, cap);
    } else {
        let suffix = s1.subrange(i, n1);
        let suffix_w = (s1 + s2).subrange(i, nw);
        assert(suffix_w =~= suffix + s2);
        crate::scalars::lemma_first_scalar_extend(suffix, s2);
        let c = decode_first_scalar(suffix);
        let l = length_of_first_scalar(suffix);
        assert(1 <= l <= suffix.len()) by {
            assert(valid_first_scalar(suffix));
        }
        assert(vstd::utf8::pop_first_scalar(suffix) =~= s1.subrange(i + l, n1));
        assert(valid_utf8(s1.subrange(i + l, n1)));
        if i + l < n1 {
            let suffix2 = s1.subrange(i + l, n1);
            let suffix2_w = (s1 + s2).subrange(i + l, nw);
            assert(suffix2_w =~= suffix2 + s2);
            crate::scalars::lemma_first_scalar_extend(suffix2, s2);
            let l2 = length_of_first_scalar(suffix2);
            assert(1 <= l2 <= suffix2.len()) by {
                assert(valid_first_scalar(suffix2));
            }
            assert(vstd::utf8::pop_first_scalar(suffix2) =~= s1.subrange(i + l + l2, n1));
        }
        match encode_step(s1, false, i, cap) {
            Step::Put { used, out } => {
                assert(encode_step(s1 + s2, is_end, i, cap) == Step::Put { used, out });
                assert(valid_utf8(s1.subrange(used, n1))) by {
                    if used == i + l {
                    } else {
                        assert(used == i + l + length_of_first_scalar(s1.subrange(i + l, n1)));
                    }
                }
                lemma_encode_chunks_from(s1, s2, is_end, used, cap - out.len());
                let rnext = encode_run(s1, false, used, cap - out.len());
                assert(r1 == Run::after(out, rnext));
                assert(encode_run(s1 + s2, is_end, i, cap) == Run::after(
                    out,
                    encode_run(s1 + s2, is_end, used, cap - out.len()),
                ));
                let rest = s1.subrange(r1.used, n1) + s2;
                let r2 = encode_run(rest, is_end, 0, cap - r1.out.len());
                assert(encode_run(s1 + s2, is_end, i, cap).out =~= r1.out + r2.out);
            },
            _ => {},
        }
    }
}

/// A decode run reads nothing before its current position: dropping an
/// already-decoded prefix of the input shifts the run.
pub proof fn lemma_decode_run_shift(s: Seq<u8>, is_end: bool, d: int, i: int, cap: int)
    requires
        0 <= d <= i <= s.len(),
    ensures
        ({
            let r1 = decode_run(s, is_end, i, cap);
            let r2 = decode_run(s.subrange(d, s.len() as int), is_end, i - d, cap);
            &&& r1.out == r2.out
            &&& r1.used == r2.used + d
            &&& r1.err == r2.err
        }),
    decreases s.len() - i,
{
    let n = s.len() as int;
    let s2 = s.subrange(d, n);
    if cap <= 0 || i == n {
    } else {
        assert(s2[i - d] == s[i]);
        if i + 1 < n {
            assert(s2[i - d + 1] == s[i + 1]);
        }
        assert(i - d + 1 == s2.len() <==> i + 1 == n);
        match decode_step(s, is_end, i, cap) {
            Step::Stop => {},
            Step::Fail { span } => {},
            Step::Put { used, out } => {
                assert(decode_step(s2, is_end, i - d, cap) == Step::Put { used: used - d, out });
                if !(out.len() > cap) && i < used <= n {
                    lemma_decode_run_shift(s, is_end, d, used, cap - out.len());
                }
            },
        }
    }
}

/// Chunk invariance of decoding: when a first call with `is_end` false
/// ends without error, feeding the stream as that chunk and then the
/// unconsumed tail plus the rest gives exactly what one call over the
/// concatenation gives.  In particular a lone lead byte at a chunk
/// boundary is decoded once its trail arrives.
pub proof fn lemma_decode_chunks(s1: Seq<u8>, s2: Seq<u8>, is_end: bool, cap: int)
    requires
        ({
            let r1 = decode_run(s1, false, 0, cap);
            r1.err is None
        }),
    ensures
        ({
            let r1 = decode_run(s1, false, 0, cap);
            let rest = s1.subrange(r1.used, s1.len() as int) + s2;
            let r2 = decode_run(rest, is_end, 0, cap - r1.out.len());
            let whole = decode_run(s1 + s2, is_end, 0, cap);
            &&& whole.out == r1.out + r2.out
            &&& whole.used == r1.used + r2.used
            &&& whole.err == r2.err
        }),
{
    lemma_decode_chunks_from(s1, s2, is_end, 0, cap);
}

proof fn lemma_decode_chunks_from(s1: Seq<u8>, s2: Seq<u8>, is_end: bool, i: int, cap: int)
    requires
        0 <= i <= s1.len(),
        ({
            let r1 = decode_run(s1, false, i, cap);
            r1.err is None
        }),
    ensures
        ({
            let r1 = decode_run(s1, false, i, cap);
            let rest = s1.subrange(r1.used, s1.len() as int) + s2;
            let r2 = decode_run(rest, is_end, 0, cap - r1.out.len());
            let whole = decode_run(s1 + s2, is_end, i, cap);
            &&& whole.out == r1.out + r2.out
            &&& whole.used == r1.used + r2.used
            &&& whole.err == r2.err
        }),
    decreases s1.len() - i,
{
    let n1 = s1.len() as int;
    let nw = (s1 + s2).len() as int;
    let r1 = decode_run(s1, false, i, cap);
    let stopped = match decode_step(s1, false, i, cap) {
        Step::Stop => true,
        Step::Fail { span } => true,
        Step::Put { used, out } => out.len() > cap || !(i < used <= n1),
    };
    if stopped {
        assert(r1 == Run::stop(i));
        lemma_decode_run_shift(s1 + s2, is_end, i, i, cap);
        assert((s1 + s2).subrange(i, nw) =~= s1.subrange(i, n1) + s2);
    } else {
        match decode_step(s1, false, i, cap) {
            Step::Put { used, out } => {
                assert((s1 + s2)[i] == s1[i]);
                if i + 1 < n1 {
                    assert((s1 + s2)[i + 1] == s1[i + 1]);
                }
                assert(decode_step(s1 + s2, is_end, i, cap) == Step::Put { used, out });
                lemma_decode_chunks_from(s1, s2, is_end, used, cap - out.len());
                let rnext = decode_run(s1, false, used, cap - out.len());
                assert(r1 == Run::after(out, rnext));
                assert(decode_run(s1 + s2, is_end, i, cap) == Run::after(
                    out,
                    decode_run(s1 + s2, is_end, used, cap - out.len()),
                ));
                let rest = s1.subrange(r1.used, n1) + s2;
                let r2 = decode_run(rest, is_end, 0, cap - r1.out.len());
                assert(decode_run(s1 + s2, is_end, i, cap).out =~= r1.out + r2.out);
            },
            _ => {},
        }
    }
}

/// One decoding step advances the loop's bookkeeping: the emitted bytes
/// land at the output position, everything around them is untouched,
/// and the run from the new position composes with what is written so
/// far.
proof fn lemma_decode_advance(
    s: Seq<u8>,
    is_end: bool,
    cap0: int,
    input_i: int,
    output_i: int,
    l: int,
    used: int,
    emitted: Seq<u8>,
    prev: Seq<u8>,
    cur: Seq<u8>,
    orig: Seq<u8>,
)
    requires
        0 <= input_i <= s.len(),
        0 <= output_i,
        output_i + l <= cap0,
        l == emitted.len(),
        prev.len() == cap0,
        cur.len() == cap0,
        orig.len() == cap0,
        forall|j: int| 0 <= j < cap0 && !(output_i <= j < output_i + l) ==> cur[j] == prev[j],
        forall|k: int| 0 <= k < l ==> cur[output_i + k] == emitted[k],
        prev.subrange(output_i, cap0) == orig.subrange(output_i, cap0),
        valid_utf8(prev.subrange(0, output_i)),
        valid_utf8(emitted),
        decode_step(s, is_end, input_i, cap0 - output_i) == (Step::Put { used, out: emitted }),
        input_i < used <= s.len(),
        decode_run(s, is_end, 0, cap0).out == prev.subrange(0, output_i) + decode_run(
            s,
            is_end,
            input_i,
            cap0 - output_i,
        ).out,
        decode_run(s, is_end, 0, cap0).used == decode_run(s, is_end, input_i, cap0 - output_i).used,
        decode_run(s, is_end, 0, cap0).err == decode_run(s, is_end, input_i, cap0 - output_i).err,
    ensures
        valid_utf8(cur.subrange(0, output_i + l)),
        cur.subrange(output_i + l, cap0) == orig.subrange(output_i + l, cap0),
        decode_run(s, is_end, 0, cap0).out == cur.subrange(0, output_i + l) + decode_run(
            s,
            is_end,
            used,
            cap0 - output_i - l,
        ).out,
        decode_run(s, is_end, 0, cap0).used == decode_run(s, is_end, used, cap0 - output_i - l).used,
        decode_run(s, is_end, 0, cap0).err == decode_run(s, is_end, used, cap0 - output_i - l).err,
{
    assert(cur.subrange(0, output_i) =~= prev.subrange(0, output_i));
    assert forall|j: int| output_i <= j < cap0 implies prev[j] == orig[j] by {
        let sp = prev.subrange(output_i, cap0);
        let so = orig.subrange(output_i, cap0);
        assert(sp[j - output_i] == prev[j]);
        assert(so[j - output_i] == orig[j]);
    }
    assert(cur.subrange(output_i + l, cap0) =~= orig.subrange(output_i + l, cap0));
    assert(cur.subrange(0, output_i + l) =~= cur.subrange(0, output_i) + emitted);
    vstd::utf8::valid_utf8_concat(cur.subrange(0, output_i), emitted);
    assert(decode_run(s, is_end, input_i, cap0 - output_i) == Run::after(
        emitted,
        decode_run(s, is_end, used, cap0 - output_i - l),
    ));
    assert(decode_run(s, is_end, 0, cap0).out =~= cur.subrange(0, output_i + l) + decode_run(
        s,
        is_end,
        used,
        cap0 - output_i - l,
    ).out);
}

} // verus!
