//! Big-endian UTF-32.
//!
//! Encoding writes each scalar of the UTF-8 input as four big-endian
//! bytes.  Decoding reads four bytes at a time, rejects values that are
//! not Unicode scalars, and re-emits each scalar as UTF-8.  A partial
//! code unit at the end of the input is left unconsumed when `is_end` is
//! false, and is an invalid-data error when `is_end` is true.

use vstd::prelude::*;
use vstd::utf8::decode_first_scalar;
use vstd::utf8::encode_scalar;
use vstd::utf8::is_char_boundary;
use vstd::utf8::is_scalar;
use vstd::utf8::length_of_first_scalar;
use vstd::utf8::valid_utf8;

use crate::scalars::lemma_encode_scalar_valid_utf8;
use crate::scalars::read_scalar;
use crate::scalars::utf8_width;
use crate::scalars::write_scalar;
use crate::stream::Run;
use crate::stream::Step;
use crate::DecodeError;
use crate::DecodeErrorCause;
use crate::DecodeResult;
use crate::EncodeResult;

verus! {

/// The four bytes of a scalar in big-endian order.
pub open spec fn be_bytes(c: u32) -> Seq<u8> {
    seq![
        ((c >> 24) & 0xFF) as u8,
        ((c >> 16) & 0xFF) as u8,
        ((c >> 8) & 0xFF) as u8,
        (c & 0xFF) as u8,
    ]
}

/// The value read from four bytes in big-endian order.
pub open spec fn be_value(b0: u8, b1: u8, b2: u8, b3: u8) -> u32 {
    ((b0 as u32) << 24) | ((b1 as u32) << 16) | ((b2 as u32) << 8) | (b3 as u32)
}

/// What the encoder does at input position `i`: emit the next scalar of
/// the UTF-8 input `s` as four big-endian bytes.
pub open spec fn encode_step(s: Seq<u8>, i: int) -> Step {
    if i == s.len() {
        Step::Stop
    } else {
        let rest = s.subrange(i, s.len() as int);
        Step::Put {
            used: i + length_of_first_scalar(rest),
            out: be_bytes(decode_first_scalar(rest)),
        }
    }
}

/// The encoder's run over `s` from position `i` with `cap` output bytes
/// of room left.
pub open spec fn encode_run(s: Seq<u8>, i: int, cap: int) -> Run
    decreases s.len() - i,
    when 0 <= i <= s.len()
{
    match encode_step(s, i) {
        Step::Stop => Run::stop(i),
        Step::Fail { span } => Run::fail(i, span),
        Step::Put { used, out } => {
            if out.len() > cap || !(i < used <= s.len()) {
                Run::stop(i)
            } else {
                Run::after(out, encode_run(s, used, cap - out.len()))
            }
        },
    }
}

/// What the decoder does at input position `i`: read one four-byte code
/// unit and re-emit it as UTF-8, or report the ways it can go wrong.
pub open spec fn decode_step(s: Seq<u8>, is_end: bool, i: int) -> Step {
    if i == s.len() {
        Step::Stop
    } else if s.len() - i < 4 {
        if !is_end {
            Step::Stop
        } else {
            Step::Fail { span: s.len() - i }
        }
    } else {
        let v = be_value(s[i], s[i + 1], s[i + 2], s[i + 3]);
        if is_scalar(v) {
            Step::Put { used: i + 4, out: encode_scalar(v) }
        } else {
            Step::Fail { span: 4 }
        }
    }
}

/// The decoder's run over `s` from position `i` with `cap` output bytes
/// of room left.
pub open spec fn decode_run(s: Seq<u8>, is_end: bool, i: int, cap: int) -> Run
    decreases s.len() - i,
    when 0 <= i <= s.len()
{
    match decode_step(s, is_end, i) {
        Step::Stop => Run::stop(i),
        Step::Fail { span } => Run::fail(i, span),
        Step::Put { used, out } => {
            if out.len() > cap || !(i < used <= s.len()) {
                Run::stop(i)
            } else {
                Run::after(out, decode_run(s, is_end, used, cap - out.len()))
            }
        },
    }
}

/// Encodes UTF-8 input as big-endian UTF-32, filling `out_buffer`.
/// Returns the count of output bytes written and input bytes consumed;
/// the consumed count falls on a character boundary of the input and
/// every whole scalar that fits in the buffer has been written.
pub fn encode_from_str(input: &[u8], out_buffer: &mut [u8]) -> (r: EncodeResult)
    requires
        valid_utf8(input@),
    ensures
        final(out_buffer)@.len() == old(out_buffer)@.len(),
        ({
            let run = encode_run(input@, 0, old(out_buffer)@.len() as int);
            &&& run.err is None
            &&& is_char_boundary(input@, run.used)
            &&& final(out_buffer)@.subrange(0, run.out.len() as int) == run.out
            &&& final(out_buffer)@.subrange(run.out.len() as int, old(out_buffer)@.len() as int)
                == old(out_buffer)@.subrange(run.out.len() as int, old(out_buffer)@.len() as int)
            &&& match r {
                Ok((written, consumed)) => written == run.out.len() && consumed == run.used,
                Err(_) => false,
            }
        }),
{
    let ghost s = input@;
    let ghost cap0 = old(out_buffer)@.len() as int;
    let mut input_i: usize = 0;
    let mut output_i: usize = 0;
    while input_i < input.len()
        invariant
            valid_utf8(s),
            s == input@,
            input_i <= input.len(),
            is_char_boundary(s, input_i as int),
            output_i <= out_buffer@.len(),
            out_buffer@.len() == cap0,
            cap0 == old(out_buffer)@.len(),
            out_buffer@.subrange(output_i as int, cap0) == old(out_buffer)@.subrange(
                output_i as int,
                cap0,
            ),
            ({
                let whole = encode_run(s, 0, cap0);
                let rest = encode_run(s, input_i as int, cap0 - output_i);
                &&& whole.out == out_buffer@.subrange(0, output_i as int) + rest.out
                &&& whole.used == rest.used
                &&& whole.err == rest.err
            }),
        decreases input.len() - input_i,
    {
        let (c, l) = read_scalar(input, input_i);
        let ghost prev = out_buffer@;
        let ghost rest_run = encode_run(s, input_i as int, cap0 - output_i);
        if 4 > out_buffer.len() - output_i {
            proof {
                assert(rest_run == Run::stop(input_i as int));
            }
            return Ok((output_i, input_i));
        }
        out_buffer[output_i] = ((c >> 24) & 0xFF) as u8;
        out_buffer[output_i + 1] = ((c >> 16) & 0xFF) as u8;
        out_buffer[output_i + 2] = ((c >> 8) & 0xFF) as u8;
        out_buffer[output_i + 3] = (c & 0xFF) as u8;
        proof {
            assert(out_buffer@.subrange(0, output_i as int) =~= prev.subrange(
                0,
                output_i as int,
            ));
            assert(out_buffer@.subrange(output_i + 4, cap0) =~= prev.subrange(
                output_i + 4,
                cap0,
            ));
            assert forall|j: int| output_i <= j < cap0 implies prev[j] == old(out_buffer)@[j] by {
                assert(prev.subrange(output_i as int, cap0)[j - output_i]
                    == old(out_buffer)@.subrange(output_i as int, cap0)[j - output_i]);
            }
            assert(prev.subrange(output_i + 4, cap0) =~= old(out_buffer)@.subrange(
                output_i + 4,
                cap0,
            ));
            assert(out_buffer@.subrange(output_i as int, output_i + 4) =~= be_bytes(c));
            assert(rest_run == Run::after(
                be_bytes(c),
                encode_run(s, input_i + l, cap0 - output_i - 4),
            ));
            assert(out_buffer@.subrange(0, output_i + 4) =~= out_buffer@.subrange(
                0,
                output_i as int,
            ) + be_bytes(c));
            assert(encode_run(s, 0, cap0).out =~= out_buffer@.subrange(0, output_i + 4)
                + encode_run(s, input_i + l, cap0 - output_i - 4).out);
        }
        output_i = output_i + 4;
        input_i = input_i + l;
    }
    proof {
        assert(encode_run(s, input_i as int, cap0 - output_i) == Run::stop(input_i as int));
    }
    Ok((output_i, input_i))
}

/// Decodes big-endian UTF-32 input to UTF-8, filling `out_buffer`.
/// Returns the count of output bytes written and input bytes consumed,
/// or an invalid-data error at the first code unit that is out of range,
/// a surrogate, or truncated at the end of the stream with `is_end`
/// true.  The bytes written are always valid UTF-8.
pub fn decode_to_str(input: &[u8], out_buffer: &mut [u8], is_end: bool) -> (r: DecodeResult)
    ensures
        final(out_buffer)@.len() == old(out_buffer)@.len(),
        ({
            let run = decode_run(input@, is_end, 0, old(out_buffer)@.len() as int);
            &&& 0 <= run.used <= input@.len()
            &&& valid_utf8(run.out)
            &&& final(out_buffer)@.subrange(0, run.out.len() as int) == run.out
            &&& final(out_buffer)@.subrange(run.out.len() as int, old(out_buffer)@.len() as int)
                == old(out_buffer)@.subrange(run.out.len() as int, old(out_buffer)@.len() as int)
            &&& match r {
                Ok((written, consumed)) => {
                    &&& run.err is None
                    &&& written == run.out.len()
                    &&& consumed == run.used
                },
                Err(e) => match run.err {
                    Some(span) => {
                        &&& e.cause == DecodeErrorCause::InvalidData
                        &&& e.error_range.0 == run.used
                        &&& e.error_range.1 == run.used + span
                        &&& e.output_bytes_written == run.out.len()
                    },
                    None => false,
                },
            }
        }),
{
    let ghost s = input@;
    let ghost cap0 = old(out_buffer)@.len() as int;
    let mut input_i: usize = 0;
    let mut output_i: usize = 0;
    while input_i < input.len()
        invariant
            s == input@,
            input_i <= input.len(),
            output_i <= out_buffer@.len(),
            out_buffer@.len() == cap0,
            cap0 == old(out_buffer)@.len(),
            valid_utf8(out_buffer@.subrange(0, output_i as int)),
            out_buffer@.subrange(output_i as int, cap0) == old(out_buffer)@.subrange(
                output_i as int,
                cap0,
            ),
            ({
                let whole = decode_run(s, is_end, 0, cap0);
                let rest = decode_run(s, is_end, input_i as int, cap0 - output_i);
                &&& whole.out == out_buffer@.subrange(0, output_i as int) + rest.out
                &&& whole.used == rest.used
                &&& whole.err == rest.err
            }),
        decreases input.len() - input_i,
    {
        let ghost rest_run = decode_run(s, is_end, input_i as int, cap0 - output_i);
        if input.len() - input_i < 4 {
            if !is_end {
                proof {
                    assert(rest_run == Run::stop(input_i as int));
                }
                return Ok((output_i, input_i));
            } else {
                proof {
                    assert(rest_run == Run::fail(input_i as int, s.len() - input_i));
                }
                return Err(DecodeError {
                    cause: DecodeErrorCause::InvalidData,
                    error_range: (input_i, input.len()),
                    output_bytes_written: output_i,
                });
            }
        }
        let b0 = input[input_i];
        let b1 = input[input_i + 1];
        let b2 = input[input_i + 2];
        let b3 = input[input_i + 3];
        let v = ((b0 as u32) << 24) | ((b1 as u32) << 16) | ((b2 as u32) << 8) | (b3 as u32);
        assert(v == be_value(s[input_i as int], s[input_i + 1], s[input_i + 2], s[input_i + 3]));
        if !(v <= 0x10FFFF && !(0xD800 <= v && v <= 0xDFFF)) {
            proof {
                assert(!is_scalar(v));
                assert(rest_run == Run::fail(input_i as int, 4));
            }
            return Err(DecodeError {
                cause: DecodeErrorCause::InvalidData,
                error_range: (input_i, input_i + 4),
                output_bytes_written: output_i,
            });
        }
        assert(is_scalar(v));
        let l = utf8_width(v);
        if l > out_buffer.len() - output_i {
            proof {
                assert(rest_run == Run::stop(input_i as int));
            }
            return Ok((output_i, input_i));
        }
        let ghost prev = out_buffer@;
        let written = write_scalar(out_buffer, output_i, v);
        proof {
            assert(out_buffer@.subrange(0, output_i as int) =~= prev.subrange(
                0,
                output_i as int,
            ));
            assert(out_buffer@.subrange(output_i + l, cap0) =~= prev.subrange(
                output_i + l,
                cap0,
            ));
            assert forall|j: int| output_i <= j < cap0 implies prev[j] == old(out_buffer)@[j] by {
                assert(prev.subrange(output_i as int, cap0)[j - output_i]
                    == old(out_buffer)@.subrange(output_i as int, cap0)[j - output_i]);
            }
            assert(prev.subrange(output_i + l, cap0) =~= old(out_buffer)@.subrange(
                output_i + l,
                cap0,
            ));
            assert(rest_run == Run::after(
                encode_scalar(v),
                decode_run(s, is_end, input_i + 4, cap0 - output_i - l),
            ));
            assert(out_buffer@.subrange(0, output_i + l) =~= out_buffer@.subrange(
                0,
                output_i as int,
            ) + encode_scalar(v));
            lemma_encode_scalar_valid_utf8(v);
            vstd::utf8::valid_utf8_concat(out_buffer@.subrange(0, output_i as int), encode_scalar(v));
            assert(decode_run(s, is_end, 0, cap0).out =~= out_buffer@.subrange(0, output_i + l)
                + decode_run(s, is_end, input_i + 4, cap0 - output_i - l).out);
        }
        output_i = output_i + written;
        input_i = input_i + 4;
    }
    proof {
        assert(decode_run(s, is_end, input_i as int, cap0 - output_i) == Run::stop(
            input_i as int,
        ));
    }
    Ok((output_i, input_i))
}

/// A decode run reads nothing before its current position: dropping an
/// already-decoded prefix of the input shifts the run.
pub proof fn lemma_decode_run_shift(s: Seq<u8>, is_end: bool, d: int, i: int, cap: int)
    requires
        0 <= d <= i <= s.len(),
    ensures
        ({
            let r1 = decode_run(s, is_end, i, cap);
            let r2 = decode_run(s.subrange(d, s.len() as int), is_end, i - d, cap);
            &&& r1.out == r2.out
            &&& r1.used == r2.used + d
            &&& r1.err == r2.err
        }),
    decreases s.len() - i,
{
    let n = s.len() as int;
    let s2 = s.subrange(d, n);
    if i == n {
    } else if n - i < 4 {
        assert(s2.len() - (i - d) == n - i);
    } else {
        assert(s2[i - d] == s[i] && s2[i - d + 1] == s[i + 1] && s2[i - d + 2] == s[i + 2]
            && s2[i - d + 3] == s[i + 3]);
        let v = be_value(s[i], s[i + 1], s[i + 2], s[i + 3]);
        if is_scalar(v) {
            assert(decode_step(s2, is_end, i - d) == Step::Put {
                used: i - d + 4,
                out: encode_scalar(v),
            });
            if !(encode_scalar(v).len() > cap) {
                lemma_decode_run_shift(s, is_end, d, i + 4, cap - encode_scalar(v).len());
            }
        }
    }
}

/// An encode run reads nothing before its current position: dropping an
/// already-encoded prefix of the input shifts the run.
pub proof fn lemma_encode_run_shift(s: Seq<u8>, d: int, i: int, cap: int)
    requires
        0 <= d <= i <= s.len(),
    ensures
        ({
            let r1 = encode_run(s, i, cap);
            let r2 = encode_run(s.subrange(d, s.len() as int), i - d, cap);
            &&& r1.out == r2.out
            &&& r1.used == r2.used + d
            &&& r1.err == r2.err
        }),
    decreases s.len() - i,
{
    let n = s.len() as int;
    let s2 = s.subrange(d, n);
    if i == n {
    } else {
        assert(s.subrange(i, n) =~= s2.subrange(i - d, s2.len() as int));
        match encode_step(s, i) {
            Step::Stop => {},
            Step::Fail { span } => {},
            Step::Put { used, out } => {
                assert(encode_step(s2, i - d) == Step::Put { used: used - d, out });
                if !(out.len() > cap) && i < used <= n {
                    lemma_encode_run_shift(s, d, used, cap - out.len());
                }
            },
        }
    }
}

/// The prefix property: decoding with `is_end` false behaves exactly as
/// if the input were cut to its longest whole-code-unit prefix.  In
/// particular the consumed count never exceeds that prefix and the
/// truncated tail never raises an error.
pub proof fn lemma_decode_prefix(s: Seq<u8>, cap: int)
    ensures
        ({
            let p = s.len() - (s.len() % 4);
            let r1 = decode_run(s, false, 0, cap);
            let r2 = decode_run(s.subrange(0, p), false, 0, cap);
            &&& r1.out == r2.out
            &&& r1.used == r2.used
            &&& r1.err == r2.err
        }),
{
    lemma_decode_prefix_from(s, 0, cap);
}

proof fn lemma_decode_prefix_from(s: Seq<u8>, i: int, cap: int)
    requires
        0 <= i <= s.len() - (s.len() % 4),
        (s.len() - (s.len() % 4) - i) % 4 == 0,
    ensures
        ({
            let p = s.len() - (s.len() % 4);
            let r1 = decode_run(s, false, i, cap);
            let r2 = decode_run(s.subrange(0, p), false, i, cap);
            &&& r1.out == r2.out
            &&& r1.used == r2.used
            &&& r1.err == r2.err
        }),
    decreases s.len() - i,
{
    let n = s.len() as int;
    let p = n - (n % 4);
    let sp = s.subrange(0, p);
    if i == p {
        if i < n {
            assert(n - i < 4);
        }
    } else {
        assert(p - i >= 4);
        assert(sp[i] == s[i] && sp[i + 1] == s[i + 1] && sp[i + 2] == s[i + 2] && sp[i + 3] == s[i
            + 3]);
        let v = be_value(s[i], s[i + 1], s[i + 2], s[i + 3]);
        if is_scalar(v) {
            assert(decode_step(sp, false, i) == Step::Put { used: i + 4, out: encode_scalar(v) });
            if !(encode_scalar(v).len() > cap) {
                lemma_decode_prefix_from(s, i + 4, cap - encode_scalar(v).len());
            }
        } else {
            assert(decode_step(sp, false, i) == Step::Fail { span: 4 });
        }
    }
}

/// Chunk invariance of decoding: when a first call with `is_end` false
/// ends without error, feeding the stream as that chunk and then the
/// unconsumed tail plus the rest gives exactly what one call over the
/// concatenation gives.
pub proof fn lemma_decode_chunks(s1: Seq<u8>, s2: Seq<u8>, is_end: bool, cap: int)
    requires
        ({
            let r1 = decode_run(s1, false, 0, cap);
            r1.err is None
        }),
    ensures
        ({
            let r1 = decode_run(s1, false, 0, cap);
            let rest = s1.subrange(r1.used, s1.len() as int) + s2;
            let r2 = decode_run(rest, is_end, 0, cap - r1.out.len());
            let whole = decode_run(s1 + s2, is_end, 0, cap);
            &&& whole.out == r1.out + r2.out
            &&& whole.used == r1.used + r2.used
            &&& whole.err == r2.err
        }),
{
    lemma_decode_chunks_from(s1, s2, is_end, 0, cap);
}

proof fn lemma_decode_chunks_from(s1: Seq<u8>, s2: Seq<u8>, is_end: bool, i: int, cap: int)
    requires
        0 <= i <= s1.len(),
        ({
            let r1 = decode_run(s1, false, i, cap);
            r1.err is None
        }),
    ensures
        ({
            let r1 = decode_run(s1, false, i, cap);
            let rest = s1.subrange(r1.used, s1.len() as int) + s2;
            let r2 = decode_run(rest, is_end, 0, cap - r1.out.len());
            let whole = decode_run(s1 + s2, is_end, i, cap);
            &&& whole.out == r1.out + r2.out
            &&& whole.used == r1.used + r2.used
            &&& whole.err == r2.err
        }),
    decreases s1.len() - i,
{
    let n1 = s1.len() as int;
    let nw = (s1 + s2).len() as int;
    let r1 = decode_run(s1, false, i, cap);
    let stopped = match decode_step(s1, false, i) {
        Step::Stop => true,
        Step::Fail { span } => true,
        Step::Put { used, out } => out.len() > cap || !(i < used <= n1),
    };
    if stopped {
        assert(r1 == Run::stop(i));
        lemma_decode_run_shift(s1 + s2, is_end, i, i, cap);
        assert((s1 + s2).subrange(i, nw) =~= s1.subrange(i, n1) + s2);
    } else {
        match decode_step(s1, false, i) {
            Step::Put { used, out } => {
                assert((s1 + s2)[i] == s1[i] && (s1 + s2)[i + 1] == s1[i + 1] && (s1 + s2)[i + 2]
                    == s1[i + 2] && (s1 + s2)[i + 3] == s1[i + 3]);
                assert(decode_step(s1 + s2, is_end, i) == Step::Put { used, out });
                lemma_decode_chunks_from(s1, s2, is_end, i + 4, cap - out.len());
                let rnext = decode_run(s1, false, i + 4, cap - out.len());
                assert(r1 == Run::after(out, rnext));
                assert(decode_run(s1 + s2, is_end, i, cap) == Run::after(
                    out,
                    decode_run(s1 + s2, is_end, i + 4, cap - out.len()),
                ));
                let rest = s1.subrange(r1.used, n1) + s2;
                let r2 = decode_run(rest, is_end, 0, cap - r1.out.len());
                assert(decode_run(s1 + s2, is_end, i, cap).out =~= r1.out + r2.out);
            },
            _ => {},
        }
    }
}

/// Chunk invariance of encoding: when a first call ends without error,
/// feeding the UTF-8 stream as that chunk and then the unconsumed tail
/// plus the rest gives exactly what one call over the concatenation
/// gives.
pub proof fn lemma_encode_chunks(s1: Seq<u8>, s2: Seq<u8>, cap: int)
    requires
        valid_utf8(s1),
        valid_utf8(s2),
        ({
            let r1 = encode_run(s1, 0, cap);
            r1.err is None
        }),
    ensures
        ({
            let r1 = encode_run(s1, 0, cap);
            let rest = s1.subrange(r1.used, s1.len() as int) + s2;
            let r2 = encode_run(rest, 0, cap - r1.out.len());
            let whole = encode_run(s1 + s2, 0, cap);
            &&& whole.out == r1.out + r2.out
            &&& whole.used == r1.used + r2.used
            &&& whole.err == r2.err
        }),
{
    assert(s1.subrange(0, s1.len() as int) =~= s1);
    lemma_encode_chunks_from(s1, s2, 0, cap);
}

proof fn lemma_encode_chunks_from(s1: Seq<u8>, s2: Seq<u8>, i: int, cap: int)
    requires
        0 <= i <= s1.len(),
        valid_utf8(s1.subrange(i, s1.len() as int)),
        ({
            let r1 = encode_run(s1, i, cap);
            r1.err is None
        }),
    ensures
        ({
            let r1 = encode_run(s1, i, cap);
            let rest = s1.subrange(r1.used, s1.len() as int) + s2;
            let r2 = encode_run(rest, 0, cap - r1.out.len());
            let whole = encode_run(s1 + s2, i, cap);
            &&& whole.out == r1.out + r2.out
            &&& whole.used == r1.used + r2.used
            &&& whole.err == r2.err
        }),
    decreases s1.len() - i,
{
    let n1 = s1.len() as int;
    let nw = (s1 + s2).len() as int;
    let r1 = encode_run(s1, i, cap);
    let stopped = match encode_step(s1, i) {
        Step::Stop => true,
        Step::Fail { span } => true,
        Step::Put { used, out } => out.len() > cap || !(i < used <= n1),
    };
    if stopped {
        assert(r1 == Run::stop(i));
        lemma_encode_run_shift(s1 + s2, i, i, cap);
        assert((s1 + s2).subrange(i, nw) =~= s1.subrange(i, n1) + s2);
    } else {
        let suffix = s1.subrange(i, n1);
        let suffix_w = (s1 + s2).subrange(i, nw);
        assert(suffix_w =~= suffix + s2);
        crate::scalars::lemma_first_scalar_extend(suffix, s2);
        let l = length_of_first_scalar(suffix);
        assert(1 <= l <= suffix.len()) by {
            assert(vstd::utf8::valid_first_scalar(suffix));
        }
        assert(vstd::utf8::pop_first_scalar(suffix) =~= s1.subrange(i + l, n1));
        match encode_step(s1, i) {
            Step::Put { used, out } => {
                assert(encode_step(s1 + s2, i) == Step::Put { used, out });
                lemma_encode_chunks_from(s1, s2, used, cap - out.len());
                let rnext = encode_run(s1, used, cap - out.len());
                assert(r1 == Run::after(out, rnext));
                assert(encode_run(s1 + s2, i, cap) == Run::after(
                    out,
                    encode_run(s1 + s2, used, cap - out.len()),
                ));
                let rest = s1.subrange(r1.used, n1) + s2;
                let r2 = encode_run(rest, 0, cap - r1.out.len());
                assert(encode_run(s1 + s2, i, cap).out =~= r1.out + r2.out);
            },
            _ => {},
        }
    }
}

/// Round trip: decoding a UTF-32 stream and encoding the result
/// reproduces the original bytes exactly.
pub proof fn lemma_round_trip(s: Seq<u8>, cap_d: int, cap_e: int)
    requires
        ({
            let d = decode_run(s, true, 0, cap_d);
            d.err is None && d.used == s.len()
        }),
        cap_e >= s.len(),
    ensures
        ({
            let d = decode_run(s, true, 0, cap_d);
            let e = encode_run(d.out, 0, cap_e);
            &&& valid_utf8(d.out)
            &&& e.err is None
            &&& e.used == d.out.len()
            &&& e.out == s
        }),
{
    lemma_round_trip_from(s, 0, cap_d, cap_e);
    assert(s.subrange(0, s.len() as int) =~= s);
}

proof fn lemma_round_trip_from(s: Seq<u8>, i: int, cap_d: int, cap_e: int)
    requires
        0 <= i <= s.len(),
        ({
            let d = decode_run(s, true, i, cap_d);
            d.err is None && d.used == s.len()
        }),
        cap_e >= s.len() - i,
    ensures
        ({
            let d = decode_run(s, true, i, cap_d);
            let e = encode_run(d.out, 0, cap_e);
            &&& valid_utf8(d.out)
            &&& e.err is None
            &&& e.used == d.out.len()
            &&& e.out == s.subrange(i, s.len() as int)
        }),
    decreases s.len() - i,
{
    let n = s.len() as int;
    let d = decode_run(s, true, i, cap_d);
    if i == n {
        assert(d == Run::stop(i));
        assert(s.subrange(i, n) =~= Seq::<u8>::empty());
    } else {
        // the decode step was accepted, else the run could not have
        // consumed the whole input
        assert(n - i >= 4) by {
            if n - i < 4 {
                assert(d.err is Some);
            }
        }
        let v = be_value(s[i], s[i + 1], s[i + 2], s[i + 3]);
        assert(is_scalar(v)) by {
            if !is_scalar(v) {
                assert(d.err is Some);
            }
        }
        let chunk = encode_scalar(v);
        assert(decode_step(s, true, i) == Step::Put { used: i + 4, out: chunk });
        assert(!(chunk.len() > cap_d)) by {
            if chunk.len() > cap_d {
                assert(d == Run::stop(i));
            }
        }
        let dnext = decode_run(s, true, i + 4, cap_d - chunk.len());
        assert(d == Run::after(chunk, dnext));
        lemma_round_trip_from(s, i + 4, cap_d - chunk.len(), cap_e - 4);
        let enext = encode_run(dnext.out, 0, cap_e - 4);
        // the first scalar of the decoded output is the decoded value,
        // and its four big-endian bytes are the original input bytes
        lemma_encode_scalar_valid_utf8(v);
        let cs = seq![(v as char)] + vstd::utf8::decode_utf8(dnext.out);
        assert((v as char) as u32 == v);
        assert(vstd::utf8::encode_utf8(cs) =~= d.out) by {
            assert(cs.drop_first() =~= vstd::utf8::decode_utf8(dnext.out));
            vstd::utf8::decode_utf8_encode_utf8(dnext.out);
            assert(vstd::utf8::encode_utf8(cs) =~= encode_scalar(v) + vstd::utf8::encode_utf8(
                cs.drop_first(),
            ));
        }
        vstd::utf8::encode_utf8_first_scalar(cs);
        assert(decode_first_scalar(d.out) == v);
        assert(length_of_first_scalar(d.out) == chunk.len());
        vstd::utf8::valid_utf8_concat(chunk, dnext.out);
        assert(valid_utf8(d.out));
        // the encode step writes the scalar back out
        assert(d.out.subrange(0, d.out.len() as int) =~= d.out);
        assert(encode_step(d.out, 0) == Step::Put { used: chunk.len() as int, out: be_bytes(v) });
        assert(be_bytes(v) =~= s.subrange(i, i + 4)) by {
            let b0 = s[i];
            let b1 = s[i + 1];
            let b2 = s[i + 2];
            let b3 = s[i + 3];
            assert((((((b0 as u32) << 24) | ((b1 as u32) << 16) | ((b2 as u32) << 8) | (b3 as u32))
                >> 24) & 0xFF) as u8 == b0) by (bit_vector);
            assert((((((b0 as u32) << 24) | ((b1 as u32) << 16) | ((b2 as u32) << 8) | (b3 as u32))
                >> 16) & 0xFF) as u8 == b1) by (bit_vector);
            assert((((((b0 as u32) << 24) | ((b1 as u32) << 16) | ((b2 as u32) << 8) | (b3 as u32))
                >> 8) & 0xFF) as u8 == b2) by (bit_vector);
            assert(((((b0 as u32) << 24) | ((b1 as u32) << 16) | ((b2 as u32) << 8) | (b3 as u32))
                & 0xFF) as u8 == b3) by (bit_vector);
        }
        let e = encode_run(d.out, 0, cap_e);
        assert(e == Run::after(be_bytes(v), encode_run(d.out, chunk.len() as int, cap_e - 4)));
        lemma_encode_run_shift(d.out, chunk.len() as int, chunk.len() as int, cap_e - 4);
        assert(d.out.subrange(chunk.len() as int, d.out.len() as int) =~= dnext.out);
        assert(e.out =~= s.subrange(i, i + 4) + enext.out);
        assert(e.out =~= s.subrange(i, n));
    }
}

} // verus!
