//! Encoding/decoding functions for the WHATWG variant of Shift JIS.
//!
//! A two-byte codec with overlapping lead ranges: a lead byte in
//! 0x81..0x9F or 0xE0..0xFC and a trail byte in 0x40..0x7E or
//! 0x80..0xFC form a pointer `(lead - (lead < 0xA0 ? 0x81 : 0xC1)) *
//! 188 + (trail - (trail < 0x7F ? 0x40 : 0x41))`.  Pointers in
//! 8836..10715 are the end-user-defined range and map to U+E000..U+E757
//! by arithmetic rather than table lookup.  Single bytes cover ASCII,
//! U+0080, and the half-width katakana 0xA1..0xDF; the encoder also
//! maps U+00A5 to 0x5C, U+203E to 0x7E, and substitutes U+FF0D for
//! U+2212.  The ASCII-preserving error-span rule of BIG5 applies here
//! too.
//!
//! The table data carried here is an excerpt of the WHATWG jis0208
//! index, which is generated data of several thousand rows; a pointer
//! absent from the excerpt decodes as a hole, and a scalar absent from
//! it does not encode.

use vstd::prelude::*;
use vstd::utf8::decode_first_scalar;
use vstd::utf8::encode_scalar;
use vstd::utf8::is_char_boundary;
use vstd::utf8::length_of_first_scalar;
use vstd::utf8::valid_utf8;

use crate::scalars::char_of_scalar;
use crate::scalars::lemma_encode_scalar_valid_utf8;
use crate::scalars::read_scalar;
use crate::scalars::utf8_width;
use crate::scalars::write_scalar;
use crate::stream::lemma_run_advance;
use crate::stream::Run;
use crate::stream::Step;
use crate::tables::assoc;
use crate::tables::lookup;
use crate::tables::passoc;
use crate::tables::plookup;
use crate::tables::psorted;
use crate::tables::sorted;
use crate::DecodeError;
use crate::DecodeErrorCause;
use crate::DecodeResult;
use crate::EncodeError;
use crate::EncodeResult;

verus! {

/// The pointer formed by a valid lead and trail byte.
pub open spec fn sjis_ptr(b1: u8, b2: u8) -> u32 {
    (((b1 - (if b1 < 0xA0 {
        0x81int
    } else {
        0xC1int
    })) * 188) + (b2 - (if b2 < 0x7F {
        0x40int
    } else {
        0x41int
    }))) as u32
}

/// The two bytes of an end-user-defined scalar in U+E000..U+E757.
pub open spec fn eudc_bytes(c: u32) -> (u8, u8) {
    let ptr = c - 0xE000 + 8836;
    let lead = ptr / 188;
    let lead_offset: int = if lead < 0x1F {
        0x81
    } else {
        0xC1
    };
    let trail = ptr % 188;
    let trail_offset: int = if trail < 0x3F {
        0x40
    } else {
        0x41
    };
    (((lead + lead_offset) as u8), ((trail + trail_offset) as u8))
}

/// Entry `k` of the decode table: a pointer and the scalar it maps to,
/// in pointer order.
pub open spec fn dec_entry(k: int) -> (u32, char) {
    if k == 0 {
        (0, '\u{3000}')
    } else if k == 1 {
        (9, '\u{FF01}')
    } else if k == 2 {
        (60, '\u{FF0D}')
    } else if k == 3 {
        (285, '\u{3044}')
    } else if k == 4 {
        (328, '\u{306F}')
    } else if k == 5 {
        (353, '\u{3088}')
    } else if k == 6 {
        (2352, '\u{4ECA}')
    } else if k == 7 {
        (3569, '\u{65E5}')
    } else if k == 8 {
        (8647, '\u{FF02}')
    } else if k == 9 {
        (10716, '\u{2170}')
    } else {
        (11103, '\u{9ED1}')
    }
}

/// The decode table, sorted by pointer.
pub open spec fn decode_table() -> Seq<(u32, char)> {
    Seq::new(11, |k: int| dec_entry(k))
}

/// Entry `k` of the encode table: a scalar and its two bytes, in
/// scalar order.
pub open spec fn enc_entry(k: int) -> (char, (u8, u8)) {
    if k == 0 {
        ('\u{3000}', (0x81, 0x40))
    } else if k == 1 {
        ('\u{3044}', (0x82, 0xA2))
    } else if k == 2 {
        ('\u{306F}', (0x82, 0xCD))
    } else if k == 3 {
        ('\u{3088}', (0x82, 0xE6))
    } else if k == 4 {
        ('\u{4ECA}', (0x8D, 0xA1))
    } else if k == 5 {
        ('\u{65E5}', (0x93, 0xFA))
    } else if k == 6 {
        ('\u{FF01}', (0x81, 0x49))
    } else {
        ('\u{FF0D}', (0x81, 0x7C))
    }
}

/// The encode table, sorted by scalar.
pub open spec fn encode_table() -> Seq<(char, (u8, u8))> {
    Seq::new(8, |k: int| enc_entry(k))
}

/// What the encoder does at input position `i` of the UTF-8 input `s`,
/// with `cap` output bytes of room left.
pub open spec fn encode_step(s: Seq<u8>, i: int, cap: int) -> Step {
    if cap <= 0 {
        Step::Stop
    } else if i == s.len() {
        Step::Stop
    } else {
        let rest = s.subrange(i, s.len() as int);
        let c = decode_first_scalar(rest);
        let l = length_of_first_scalar(rest);
        if c <= 128 {
            Step::Put { used: i + l, out: seq![c as u8] }
        } else if c == 0xA5 {
            Step::Put { used: i + l, out: seq![0x5C] }
        } else if c == 0x203E {
            Step::Put { used: i + l, out: seq![0x7E] }
        } else if 0xFF61 <= c <= 0xFF9F {
            Step::Put { used: i + l, out: seq![(c - 0xFF61 + 0xA1) as u8] }
        } else if cap < 2 {
            Step::Stop
        } else if 0xE000 <= c <= 0xE757 {
            Step::Put { used: i + l, out: seq![eudc_bytes(c).0, eudc_bytes(c).1] }
        } else {
            let c1: u32 = if c == 0x2212 {
                0xFF0D
            } else {
                c
            };
            match assoc(encode_table(), c1) {
                Some(bytes) => Step::Put { used: i + l, out: seq![bytes.0, bytes.1] },
                None => Step::Fail { span: l },
            }
        }
    }
}

/// The encoder's run over `s` from position `i` with `cap` output
/// bytes of room left.
pub open spec fn encode_run(s: Seq<u8>, i: int, cap: int) -> Run
    decreases s.len() - i,
    when 0 <= i <= s.len()
{
    match encode_step(s, i, cap) {
        Step::Stop => Run::stop(i),
        Step::Fail { span } => Run::fail(i, span),
        Step::Put { used, out } => {
            if out.len() > cap || !(i < used <= s.len()) {
                Run::stop(i)
            } else {
                Run::after(out, encode_run(s, used, cap - out.len()))
            }
        },
    }
}

/// What the decoder does at input position `i`, with `cap` output
/// bytes of room left.
pub open spec fn decode_step(s: Seq<u8>, is_end: bool, i: int, cap: int) -> Step {
    if cap <= 0 {
        Step::Stop
    } else if i == s.len() {
        Step::Stop
    } else {
        let b1 = s[i];
        if b1 <= 127 {
            Step::Put { used: i + 1, out: seq![b1] }
        } else if b1 == 128 {
            Step::Put { used: i + 1, out: encode_scalar(0x80) }
        } else if 0xA1 <= b1 <= 0xDF {
            Step::Put { used: i + 1, out: encode_scalar((0xFF61 + (b1 - 0xA1)) as u32) }
        } else if b1 == 0xA0 || b1 > 0xFC {
            Step::Fail { span: 1 }
        } else if i + 1 == s.len() {
            if !is_end {
                Step::Stop
            } else {
                Step::Fail { span: 1 }
            }
        } else {
            let b2 = s[i + 1];
            if b2 < 0x40 || b2 == 0x7F || b2 > 0xFC {
                Step::Fail {
                    span: if b2 <= 127 {
                        1
                    } else {
                        2
                    },
                }
            } else {
                let ptr = sjis_ptr(b1, b2);
                if 8836 <= ptr <= 10715 {
                    Step::Put { used: i + 2, out: encode_scalar((ptr - 8836 + 0xE000) as u32) }
                } else {
                    match passoc(decode_table(), ptr) {
                        Some(code) => Step::Put { used: i + 2, out: encode_scalar(code as u32) },
                        None => Step::Fail {
                            span: if b2 <= 127 {
                                1
                            } else {
                                2
                            },
                        },
                    }
                }
            }
        }
    }
}

/// The decoder's run over `s` from position `i` with `cap` output
/// bytes of room left.
pub open spec fn decode_run(s: Seq<u8>, is_end: bool, i: int, cap: int) -> Run
    decreases s.len() - i,
    when 0 <= i <= s.len()
{
    match decode_step(s, is_end, i, cap) {
        Step::Stop => Run::stop(i),
        Step::Fail { span } => Run::fail(i, span),
        Step::Put { used, out } => {
            if out.len() > cap || !(i < used <= s.len()) {
                Run::stop(i)
            } else {
                Run::after(out, decode_run(s, is_end, used, cap - out.len()))
            }
        },
    }
}

/// Everything the encoder promises, relative to its run.
pub open spec fn encode_post(s: Seq<u8>, old_out: Seq<u8>, new_out: Seq<u8>, r: EncodeResult) -> bool {
    let run = encode_run(s, 0, old_out.len() as int);
    &&& new_out.len() == old_out.len()
    &&& 0 <= run.used <= s.len()
    &&& run.out.len() <= old_out.len()
    &&& is_char_boundary(s, run.used)
    &&& new_out.subrange(0, run.out.len() as int) == run.out
    &&& new_out.subrange(run.out.len() as int, old_out.len() as int) == old_out.subrange(
        run.out.len() as int,
        old_out.len() as int,
    )
    &&& match r {
        Ok((written, consumed)) => {
            &&& run.err is None
            &&& written == run.out.len()
            &&& consumed == run.used
        },
        Err(e) => match run.err {
            Some(span) => {
                let rest = s.subrange(run.used, s.len() as int);
                &&& e.character as u32 == decode_first_scalar(rest)
                &&& span == length_of_first_scalar(rest)
                &&& e.error_range.0 == run.used
                &&& e.error_range.1 == run.used + span
                &&& e.output_bytes_written == run.out.len()
            },
            None => false,
        },
    }
}

/// Everything the decoder promises, relative to its run.
pub open spec fn decode_post(
    s: Seq<u8>,
    is_end: bool,
    old_out: Seq<u8>,
    new_out: Seq<u8>,
    r: DecodeResult,
) -> bool {
    let run = decode_run(s, is_end, 0, old_out.len() as int);
    &&& new_out.len() == old_out.len()
    &&& 0 <= run.used <= s.len()
    &&& run.out.len() <= old_out.len()
    &&& valid_utf8(run.out)
    &&& new_out.subrange(0, run.out.len() as int) == run.out
    &&& new_out.subrange(run.out.len() as int, old_out.len() as int) == old_out.subrange(
        run.out.len() as int,
        old_out.len() as int,
    )
    &&& match r {
        Ok((written, consumed)) => {
            &&& run.err is None
            &&& written == run.out.len()
            &&& consumed == run.used
        },
        Err(e) => match run.err {
            Some(span) => {
                &&& e.cause == DecodeErrorCause::InvalidData
                &&& e.error_range.0 == run.used
                &&& e.error_range.1 == run.used + span
                &&& e.output_bytes_written == run.out.len()
            },
            None => false,
        },
    }
}

proof fn lemma_enc_sorted()
    ensures
        sorted(encode_table()),
{
    assert forall|i: int, j: int| 0 <= i < j < encode_table().len() implies ((
    #[trigger] encode_table()[i]).0 as u32) < ((#[trigger] encode_table()[j]).0 as u32) by {
        assert((enc_entry(i).0 as u32) < (enc_entry(j).0 as u32));
    }
}

proof fn lemma_dec_sorted()
    ensures
        psorted(decode_table()),
{
    assert forall|i: int, j: int| 0 <= i < j < decode_table().len() implies ((
    #[trigger] decode_table()[i]).0) < ((#[trigger] decode_table()[j]).0) by {
        assert(dec_entry(i).0 < dec_entry(j).0);
    }
}

/// Builds the encode table.
fn build_encode_table() -> (t: Vec<(char, (u8, u8))>)
    ensures
        t@ == encode_table(),
        sorted(t@),
{
    let mut table: Vec<(char, (u8, u8))> = Vec::new();
    table.push(('\u{3000}', (0x81, 0x40)));
    table.push(('\u{3044}', (0x82, 0xA2)));
    table.push(('\u{306F}', (0x82, 0xCD)));
    table.push(('\u{3088}', (0x82, 0xE6)));
    table.push(('\u{4ECA}', (0x8D, 0xA1)));
    table.push(('\u{65E5}', (0x93, 0xFA)));
    table.push(('\u{FF01}', (0x81, 0x49)));
    table.push(('\u{FF0D}', (0x81, 0x7C)));
    proof {
        assert(table@ =~= encode_table());
        lemma_enc_sorted();
    }
    table
}

/// Builds the decode table.
fn build_decode_table() -> (t: Vec<(u32, char)>)
    ensures
        t@ == decode_table(),
        psorted(t@),
{
    let mut table: Vec<(u32, char)> = Vec::new();
    table.push((0, '\u{3000}'));
    table.push((9, '\u{FF01}'));
    table.push((60, '\u{FF0D}'));
    table.push((285, '\u{3044}'));
    table.push((328, '\u{306F}'));
    table.push((353, '\u{3088}'));
    table.push((2352, '\u{4ECA}'));
    table.push((3569, '\u{65E5}'));
    table.push((8647, '\u{FF02}'));
    table.push((10716, '\u{2170}'));
    table.push((11103, '\u{9ED1}'));
    proof {
        assert(table@ =~= decode_table());
        lemma_dec_sorted();
    }
    table
}

/// Encodes UTF-8 input as Shift JIS.  The encoder is stateless, so
/// there is no end-of-stream flag.
#[verifier::rlimit(100)]
pub fn encode_from_str(input: &[u8], out_buffer: &mut [u8]) -> (r: EncodeResult)
    requires
        valid_utf8(input@),
    ensures
        encode_post(input@, old(out_buffer)@, final(out_buffer)@, r),
{
    let table = build_encode_table();
    let ghost s = input@;
    let ghost cap0 = old(out_buffer)@.len() as int;
    let mut input_i: usize = 0;
    let mut output_i: usize = 0;
    while input_i < input.len()
        invariant
            valid_utf8(s),
            s == input@,
            table@ == encode_table(),
            sorted(table@),
            input_i <= input.len(),
            is_char_boundary(s, input_i as int),
            output_i <= out_buffer@.len(),
            out_buffer@.len() == cap0,
            cap0 == old(out_buffer)@.len(),
            out_buffer@.subrange(output_i as int, cap0) == old(out_buffer)@.subrange(
                output_i as int,
                cap0,
            ),
            ({
                let whole = encode_run(s, 0, cap0);
                let rest = encode_run(s, input_i as int, cap0 - output_i);
                &&& whole.out == out_buffer@.subrange(0, output_i as int) + rest.out
                &&& whole.used == rest.used
                &&& whole.err == rest.err
            }),
        decreases input.len() - input_i,
    {
        let ghost whole = encode_run(s, 0, cap0);
        let ghost rest_run = encode_run(s, input_i as int, cap0 - output_i);
        if output_i >= out_buffer.len() {
            proof {
                assert(rest_run == Run::stop(input_i as int));
            }
            return Ok((output_i, input_i));
        }
        let (c, l) = read_scalar(input, input_i);
        let single: Option<u8> = if c <= 128 {
            Some(c as u8)
        } else if c == 0xA5 {
            Some(0x5C)
        } else if c == 0x203E {
            Some(0x7E)
        } else if 0xFF61 <= c && c <= 0xFF9F {
            Some((c - 0xFF61 + 0xA1) as u8)
        } else {
            None
        };
        match single {
            Some(b) => {
                let ghost prev = out_buffer@;
                out_buffer[output_i] = b;
                proof {
                    assert(rest_run == Run::after(
                        seq![b],
                        encode_run(s, input_i + l, cap0 - output_i - 1),
                    ));
                    lemma_run_advance(
                        cap0,
                        output_i as int,
                        1,
                        seq![b],
                        prev,
                        out_buffer@,
                        old(out_buffer)@,
                        whole,
                        rest_run,
                        encode_run(s, input_i + l, cap0 - output_i - 1),
                    );
                }
                output_i = output_i + 1;
                input_i = input_i + l;
                continue ;
            },
            None => {},
        }
        if 2 > out_buffer.len() - output_i {
            proof {
                assert(rest_run == Run::stop(input_i as int));
            }
            return Ok((output_i, input_i));
        }
        let b0: u8;
        let b1: u8;
        if 0xE000 <= c && c <= 0xE757 {
            let ptr: u32 = c - 0xE000 + 8836;
            let lead: u32 = ptr / 188;
            let lead_offset: u32 = if lead < 0x1F {
                0x81
            } else {
                0xC1
            };
            let trail: u32 = ptr % 188;
            let trail_offset: u32 = if trail < 0x3F {
                0x40
            } else {
                0x41
            };
            b0 = (lead + lead_offset) as u8;
            b1 = (trail + trail_offset) as u8;
            proof {
                assert((b0, b1) == eudc_bytes(c));
            }
        } else {
            let c1: u32 = if c == 0x2212 {
                0xFF0D
            } else {
                c
            };
            match lookup(table.as_slice(), c1) {
                Some(bytes) => {
                    b0 = bytes.0;
                    b1 = bytes.1;
                },
                None => {
                    proof {
                        assert(rest_run == Run::fail(input_i as int, l as int));
                    }
                    let character = char_of_scalar(c);
                    return Err(EncodeError {
                        character,
                        error_range: (input_i, input_i + l),
                        output_bytes_written: output_i,
                    });
                },
            }
        }
        let ghost prev = out_buffer@;
        out_buffer[output_i] = b0;
        out_buffer[output_i + 1] = b1;
        proof {
            assert(rest_run == Run::after(
                seq![b0, b1],
                encode_run(s, input_i + l, cap0 - output_i - 2),
            ));
            lemma_run_advance(
                cap0,
                output_i as int,
                2,
                seq![b0, b1],
                prev,
                out_buffer@,
                old(out_buffer)@,
                whole,
                rest_run,
                encode_run(s, input_i + l, cap0 - output_i - 2),
            );
        }
        output_i = output_i + 2;
        input_i = input_i + l;
    }
    proof {
        assert(encode_run(s, input_i as int, cap0 - output_i) == Run::stop(input_i as int));
    }
    Ok((output_i, input_i))
}

/// Decodes Shift JIS input to UTF-8.  A lead byte with no trail at the
/// end of the input is left unconsumed when `is_end` is false and is an
/// invalid-data error when `is_end` is true; the bytes written are
/// always valid UTF-8.
#[verifier::rlimit(100)]
pub fn decode_to_str(input: &[u8], out_buffer: &mut [u8], is_end: bool) -> (r: DecodeResult)
    ensures
        decode_post(input@, is_end, old(out_buffer)@, final(out_buffer)@, r),
{
    let table = build_decode_table();
    let ghost s = input@;
    let ghost cap0 = old(out_buffer)@.len() as int;
    let mut input_i: usize = 0;
    let mut output_i: usize = 0;
    while input_i < input.len()
        invariant
            s == input@,
            table@ == decode_table(),
            psorted(table@),
            input_i <= input.len(),
            output_i <= out_buffer@.len(),
            out_buffer@.len() == cap0,
            cap0 == old(out_buffer)@.len(),
            valid_utf8(out_buffer@.subrange(0, output_i as int)),
            out_buffer@.subrange(output_i as int, cap0) == old(out_buffer)@.subrange(
                output_i as int,
                cap0,
            ),
            ({
                let whole = decode_run(s, is_end, 0, cap0);
                let rest = decode_run(s, is_end, input_i as int, cap0 - output_i);
                &&& whole.out == out_buffer@.subrange(0, output_i as int) + rest.out
                &&& whole.used == rest.used
                &&& whole.err == rest.err
            }),
        decreases input.len() - input_i,
    {
        let ghost whole = decode_run(s, is_end, 0, cap0);
        let ghost rest_run = decode_run(s, is_end, input_i as int, cap0 - output_i);
        if output_i >= out_buffer.len() {
            proof {
                assert(rest_run == Run::stop(input_i as int));
            }
            return Ok((output_i, input_i));
        }
        let b1 = input[input_i];
        let scalar: u32;
        let consumed: usize;
        if b1 <= 127 {
            proof {
                assert(b1 as u32 & 0x7F == b1 as u32) by (bit_vector)
                    requires
                        b1 <= 127,
                ;
                assert(seq![b1] =~= encode_scalar(b1 as u32));
            }
            scalar = b1 as u32;
            consumed = 1;
        } else if b1 == 128 {
            scalar = 0x80;
            consumed = 1;
        } else if 0xA1 <= b1 && b1 <= 0xDF {
            scalar = 0xFF61 + (b1 as u32 - 0xA1);
            consumed = 1;
        } else if b1 == 0xA0 || b1 > 0xFC {
            proof {
                assert(rest_run == Run::fail(input_i as int, 1));
            }
            return Err(DecodeError {
                cause: DecodeErrorCause::InvalidData,
                error_range: (input_i, input_i + 1),
                output_bytes_written: output_i,
            });
        } else if input_i + 1 == input.len() {
            if !is_end {
                proof {
                    assert(rest_run == Run::stop(input_i as int));
                }
                return Ok((output_i, input_i));
            }
            proof {
                assert(rest_run == Run::fail(input_i as int, 1));
            }
            return Err(DecodeError {
                cause: DecodeErrorCause::InvalidData,
                error_range: (input_i, input_i + 1),
                output_bytes_written: output_i,
            });
        } else {
            let b2 = input[input_i + 1];
            if b2 < 0x40 || b2 == 0x7F || b2 > 0xFC {
                let span: usize = if b2 <= 127 {
                    1
                } else {
                    2
                };
                proof {
                    assert(rest_run == Run::fail(input_i as int, span as int));
                }
                return Err(DecodeError {
                    cause: DecodeErrorCause::InvalidData,
                    error_range: (input_i, input_i + span),
                    output_bytes_written: output_i,
                });
            }
            let lead_offset: u32 = if b1 < 0xA0 {
                0x81
            } else {
                0xC1
            };
            let trail_offset: u32 = if b2 < 0x7F {
                0x40
            } else {
                0x41
            };
            let ptr: u32 = (b1 as u32 - lead_offset) * 188 + (b2 as u32 - trail_offset);
            assert(ptr == sjis_ptr(b1, b2));
            if 8836 <= ptr && ptr <= 10715 {
                scalar = ptr - 8836 + 0xE000;
                consumed = 2;
            } else {
                match plookup(table.as_slice(), ptr) {
                    Some(code) => {
                        proof {
                            vstd::utf8::char_is_scalar(code);
                        }
                        scalar = code as u32;
                        consumed = 2;
                    },
                    None => {
                        let span: usize = if b2 <= 127 {
                            1
                        } else {
                            2
                        };
                        proof {
                            assert(rest_run == Run::fail(input_i as int, span as int));
                        }
                        return Err(DecodeError {
                            cause: DecodeErrorCause::InvalidData,
                            error_range: (input_i, input_i + span),
                            output_bytes_written: output_i,
                        });
                    },
                }
            }
        }
        let l = utf8_width(scalar);
        if l > out_buffer.len() - output_i {
            proof {
                assert(rest_run == Run::stop(input_i as int));
            }
            return Ok((output_i, input_i));
        }
        let ghost prev = out_buffer@;
        let written = write_scalar(out_buffer, output_i, scalar);
        proof {
            assert(rest_run == Run::after(
                encode_scalar(scalar),
                decode_run(s, is_end, input_i + consumed, cap0 - output_i - l),
            ));
            lemma_run_advance(
                cap0,
                output_i as int,
                l as int,
                encode_scalar(scalar),
                prev,
                out_buffer@,
                old(out_buffer)@,
                whole,
                rest_run,
                decode_run(s, is_end, input_i + consumed, cap0 - output_i - l),
            );
            lemma_encode_scalar_valid_utf8(scalar);
            vstd::utf8::valid_utf8_concat(prev.subrange(0, output_i as int), encode_scalar(scalar));
        }
        output_i = output_i + written;
        input_i = input_i + consumed;
    }
    proof {
        assert(decode_run(s, is_end, input_i as int, cap0 - output_i) == Run::stop(input_i as int));
    }
    Ok((output_i, input_i))
}

/// An encode run reads nothing before its current position: dropping an
/// already-encoded prefix of the input shifts the run.
pub proof fn lemma_encode_run_shift(s: Seq<u8>, d: int, i: int, cap: int)
    requires
        0 <= d <= i <= s.len(),
    ensures
        ({
            let r1 = encode_run(s, i, cap);
            let r2 = encode_run(s.subrange(d, s.len() as int), i - d, cap);
            &&& r1.out == r2.out
            &&& r1.used == r2.used + d
            &&& r1.err == r2.err
        }),
    decreases s.len() - i,
{
    let n = s.len() as int;
    let s2 = s.subrange(d, n);
    if cap <= 0 || i == n {
    } else {
        assert(s.subrange(i, n) =~= s2.subrange(i - d, s2.len() as int));
        match encode_step(s, i, cap) {
            Step::Stop => {},
            Step::Fail { span } => {},
            Step::Put { used, out } => {
                assert(encode_step(s2, i - d, cap) == Step::Put { used: used - d, out });
                if !(out.len() > cap) && i < used <= n {
                    lemma_encode_run_shift(s, d, used, cap - out.len());
                }
            },
        }
    }
}

/// Chunk invariance of encoding: when a first call ends without error,
/// feeding the UTF-8 stream as that chunk and then the unconsumed tail
/// plus the rest gives exactly what one call over the concatenation
/// gives.
pub proof fn lemma_encode_chunks(s1: Seq<u8>, s2: Seq<u8>, cap: int)
    requires
        valid_utf8(s1),
        valid_utf8(s2),
        ({
            let r1 = encode_run(s1, 0, cap);
            r1.err is None
        }),
    ensures
        ({
            let r1 = encode_run(s1, 0, cap);
            let rest = s1.subrange(r1.used, s1.len() as int) + s2;
            let r2 = encode_run(rest, 0, cap - r1.out.len());
            let whole = encode_run(s1 + s2, 0, cap);
            &&& whole.out == r1.out + r2.out
            &&& whole.used == r1.used + r2.used
            &&& whole.err == r2.err
        }),
{
    assert(s1.subrange(0, s1.len() as int) =~= s1);
    lemma_encode_chunks_from(s1, s2, 0, cap);
}

proof fn lemma_encode_chunks_from(s1: Seq<u8>, s2: Seq<u8>, i: int, cap: int)
    requires
        0 <= i <= s1.len(),
        valid_utf8(s1.subrange(i, s1.len() as int)),
        ({
            let r1 = encode_run(s1, i, cap);
            r1.err is None
        }),
    ensures
        ({
            let r1 = encode_run(s1, i, cap);
            let rest = s1.subrange(r1.used, s1.len() as int) + s2;
            let r2 = encode_run(rest, 0, cap - r1.out.len());
            let whole = encode_run(s1 + s2, i, cap);
            &&& whole.out == r1.out + r2.out
            &&& whole.used == r1.used + r2.used
            &&& whole.err == r2.err
        }),
    decreases s1.len() - i,
{
    let n1 = s1.len() as int;
    let nw = (s1 + s2).len() as int;
    let r1 = encode_run(s1, i, cap);
    let stopped = match encode_step(s1, i, cap) {
        Step::Stop => true,
        Step::Fail { span } => true,
        Step::Put { used, out } => out.len() > cap || !(i < used <= n1),
    };
    if stopped {
        assert(r1 == Run::stop(i));
        lemma_encode_run_shift(s1 + s2, i, i, cap);
        assert((s1 + s2).subrange(i, nw) =~= s1.subrange(i, n1) + s2);
    } else {
        let suffix = s1.subrange(i, n1);
        let suffix_w = (s1 + s2).subrange(i, nw);
        assert(suffix_w =~= suffix + s2);
        crate::scalars::lemma_first_scalar_extend(suffix, s2);
        let l = length_of_first_scalar(suffix);
        assert(1 <= l <= suffix.len()) by {
            assert(vstd::utf8::valid_first_scalar(suffix));
        }
        assert(vstd::utf8::pop_first_scalar(suffix) =~= s1.subrange(i + l, n1));
        match encode_step(s1, i, cap) {
            Step::Put { used, out } => {
                assert(encode_step(s1 + s2, i, cap) == Step::Put { used, out });
                lemma_encode_chunks_from(s1, s2, used, cap - out.len());
                let rnext = encode_run(s1, used, cap - out.len());
                assert(r1 == Run::after(out, rnext));
                assert(encode_run(s1 + s2, i, cap) == Run::after(
                    out,
                    encode_run(s1 + s2, used, cap - out.len()),
                ));
                let rest = s1.subrange(r1.used, n1) + s2;
                let r2 = encode_run(rest, 0, cap - r1.out.len());
                assert(encode_run(s1 + s2, i, cap).out =~= r1.out + r2.out);
            },
            _ => {},
        }
    }
}

/// A decode run reads nothing before its current position: dropping an
/// already-decoded prefix of the input shifts the run.
pub proof fn lemma_decode_run_shift(s: Seq<u8>, is_end: bool, d: int, i: int, cap: int)
    requires
        0 <= d <= i <= s.len(),
    ensures
        ({
            let r1 = decode_run(s, is_end, i, cap);
            let r2 = decode_run(s.subrange(d, s.len() as int), is_end, i - d, cap);
            &&& r1.out == r2.out
            &&& r1.used == r2.used + d
            &&& r1.err == r2.err
        }),
    decreases s.len() - i,
{
    let n = s.len() as int;
    let s2 = s.subrange(d, n);
    if cap <= 0 || i == n {
    } else {
        assert(s2[i - d] == s[i]);
        if i + 1 < n {
            assert(s2[i - d + 1] == s[i + 1]);
        }
        assert(i - d + 1 == s2.len() <==> i + 1 == n);
        match decode_step(s, is_end, i, cap) {
            Step::Stop => {},
            Step::Fail { span } => {},
            Step::Put { used, out } => {
                assert(decode_step(s2, is_end, i - d, cap) == Step::Put { used: used - d, out });
                if !(out.len() > cap) && i < used <= n {
                    lemma_decode_run_shift(s, is_end, d, used, cap - out.len());
                }
            },
        }
    }
}

/// Chunk invariance of decoding: when a first call with `is_end` false
/// ends without error, feeding the stream as that chunk and then the
/// unconsumed tail plus the rest gives exactly what one call over the
/// concatenation gives.  In particular a lone lead byte at a chunk
/// boundary is decoded once its trail arrives.
pub proof fn lemma_decode_chunks(s1: Seq<u8>, s2: Seq<u8>, is_end: bool, cap: int)
    requires
        ({
            let r1 = decode_run(s1, false, 0, cap);
            r1.err is None
        }),
    ensures
        ({
            let r1 = decode_run(s1, false, 0, cap);
            let rest = s1.subrange(r1.used, s1.len() as int) + s2;
            let r2 = decode_run(rest, is_end, 0, cap - r1.out.len());
            let whole = decode_run(s1 + s2, is_end, 0, cap);
            &&& whole.out == r1.out + r2.out
            &&& whole.used == r1.used + r2.used
            &&& whole.err == r2.err
        }),
{
    lemma_decode_chunks_from(s1, s2, is_end, 0, cap);
}

proof fn lemma_decode_chunks_from(s1: Seq<u8>, s2: Seq<u8>, is_end: bool, i: int, cap: int)
    requires
        0 <= i <= s1.len(),
        ({
            let r1 = decode_run(s1, false, i, cap);
            r1.err is None
        }),
    ensures
        ({
            let r1 = decode_run(s1, false, i, cap);
            let rest = s1.subrange(r1.used, s1.len() as int) + s2;
            let r2 = decode_run(rest, is_end, 0, cap - r1.out.len());
            let whole = decode_run(s1 + s2, is_end, i, cap);
            &&& whole.out == r1.out + r2.out
            &&& whole.used == r1.used + r2.used
            &&& whole.err == r2.err
        }),
    decreases s1.len() - i,
{
    let n1 = s1.len() as int;
    let nw = (s1 + s2).len() as int;
    let r1 = decode_run(s1, false, i, cap);
    let stopped = match decode_step(s1, false, i, cap) {
        Step::Stop => true,
        Step::Fail { span } => true,
        Step::Put { used, out } => out.len() > cap || !(i < used <= n1),
    };
    if stopped {
        assert(r1 == Run::stop(i));
        lemma_decode_run_shift(s1 + s2, is_end, i, i, cap);
        assert((s1 + s2).subrange(i, nw) =~= s1.subrange(i, n1) + s2);
    } else {
        match decode_step(s1, false, i, cap) {
            Step::Put { used, out } => {
                assert((s1 + s2)[i] == s1[i]);
                if i + 1 < n1 {
                    assert((s1 + s2)[i + 1] == s1[i + 1]);
                }
                assert(decode_step(s1 + s2, is_end, i, cap) == Step::Put { used, out });
                lemma_decode_chunks_from(s1, s2, is_end, used, cap - out.len());
                let rnext = decode_run(s1, false, used, cap - out.len());
                assert(r1 == Run::after(out, rnext));
                assert(decode_run(s1 + s2, is_end, i, cap) == Run::after(
                    out,
                    decode_run(s1 + s2, is_end, used, cap - out.len()),
                ));
                let rest = s1.subrange(r1.used, n1) + s2;
                let r2 = decode_run(rest, is_end, 0, cap - r1.out.len());
                assert(decode_run(s1 + s2, is_end, i, cap).out =~= r1.out + r2.out);
            },
            _ => {},
        }
    }
}

} // verus!
