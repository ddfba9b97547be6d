//! The UTF-16 engine shared by the little- and big-endian codecs.
//!
//! Encoding writes each scalar of the UTF-8 input as one 16-bit code
//! unit, or as a surrogate pair for scalars in the supplementary
//! planes.  Decoding reads one unit; a high surrogate must be followed
//! by a low surrogate, which is combined with it, and any unpaired
//! surrogate is an invalid-data error spanning its two bytes.  A
//! partial unit, or a high surrogate missing its partner, at the end of
//! the input is left unconsumed when `is_end` is false and is an
//! invalid-data error when `is_end` is true.  The endianness flag picks
//! the byte order of every unit.

use vstd::prelude::*;
use vstd::utf8::decode_first_scalar;
use vstd::utf8::encode_scalar;
use vstd::utf8::is_char_boundary;
use vstd::utf8::is_scalar;
use vstd::utf8::length_of_first_scalar;
use vstd::utf8::valid_utf8;

use crate::scalars::lemma_encode_scalar_valid_utf8;
use crate::scalars::read_scalar;
use crate::scalars::utf8_width;
use crate::scalars::write_scalar;
use crate::stream::lemma_run_advance;
use crate::stream::Run;
use crate::stream::Step;
use crate::DecodeError;
use crate::DecodeErrorCause;
use crate::DecodeResult;
use crate::EncodeResult;

verus! {

/// The 16-bit unit read from two bytes in the chosen byte order.
pub open spec fn unit_value(b0: u8, b1: u8, be: bool) -> u32 {
    if be {
        ((b0 as u32) << 8) | (b1 as u32)
    } else {
        ((b1 as u32) << 8) | (b0 as u32)
    }
}

/// The two bytes of a 16-bit unit in the chosen byte order.
pub open spec fn unit_bytes(u: u32, be: bool) -> Seq<u8>
    recommends
        u <= 0xFFFF,
{
    if be {
        seq![((u >> 8) & 0xFF) as u8, (u & 0xFF) as u8]
    } else {
        seq![(u & 0xFF) as u8, ((u >> 8) & 0xFF) as u8]
    }
}

/// The high surrogate of a supplementary-plane scalar.
pub open spec fn high_unit(c: u32) -> u32
    recommends
        0x10000 <= c <= 0x10FFFF,
{
    (0xD800 + (((c - 0x10000) as u32) >> 10)) as u32
}

/// The low surrogate of a supplementary-plane scalar.
pub open spec fn low_unit(c: u32) -> u32
    recommends
        0x10000 <= c <= 0x10FFFF,
{
    (0xDC00 + (((c - 0x10000) as u32) & 0x3FF)) as u32
}

/// The scalar a surrogate pair stands for.
pub open spec fn combined(hi: u32, lo: u32) -> u32
    recommends
        0xD800 <= hi <= 0xDBFF,
        0xDC00 <= lo <= 0xDFFF,
{
    (0x10000 + ((((hi - 0xD800) as u32) << 10) | ((lo - 0xDC00) as u32))) as u32
}

/// What the encoder does at input position `i` of the UTF-8 input `s`.
pub open spec fn encode_step(s: Seq<u8>, be: bool, i: int) -> Step {
    if i == s.len() {
        Step::Stop
    } else {
        let rest = s.subrange(i, s.len() as int);
        let c = decode_first_scalar(rest);
        let l = length_of_first_scalar(rest);
        if c < 0x10000 {
            Step::Put { used: i + l, out: unit_bytes(c, be) }
        } else {
            Step::Put { used: i + l, out: unit_bytes(high_unit(c), be) + unit_bytes(low_unit(c), be) }
        }
    }
}

/// The encoder's run over `s` from position `i` with `cap` output
/// bytes of room left.
pub open spec fn encode_run(s: Seq<u8>, be: bool, i: int, cap: int) -> Run
    decreases s.len() - i,
    when 0 <= i <= s.len()
{
    match encode_step(s, be, i) {
        Step::Stop => Run::stop(i),
        Step::Fail { span } => Run::fail(i, span),
        Step::Put { used, out } => {
            if out.len() > cap || !(i < used <= s.len()) {
                Run::stop(i)
            } else {
                Run::after(out, encode_run(s, be, used, cap - out.len()))
            }
        },
    }
}

/// What the decoder does at input position `i`.
pub open spec fn decode_step(s: Seq<u8>, be: bool, is_end: bool, i: int) -> Step {
    if i == s.len() {
        Step::Stop
    } else if s.len() - i < 2 {
        if !is_end {
            Step::Stop
        } else {
            Step::Fail { span: s.len() - i }
        }
    } else {
        let u1 = unit_value(s[i], s[i + 1], be);
        if 0xD800 <= u1 <= 0xDBFF {
            if s.len() - i < 4 {
                if !is_end {
                    Step::Stop
                } else {
                    Step::Fail { span: s.len() - i }
                }
            } else {
                let u2 = unit_value(s[i + 2], s[i + 3], be);
                if 0xDC00 <= u2 <= 0xDFFF {
                    Step::Put { used: i + 4, out: encode_scalar(combined(u1, u2)) }
                } else {
                    Step::Fail { span: 2 }
                }
            }
        } else if 0xDC00 <= u1 <= 0xDFFF {
            Step::Fail { span: 2 }
        } else {
            Step::Put { used: i + 2, out: encode_scalar(u1) }
        }
    }
}

/// The decoder's run over `s` from position `i` with `cap` output
/// bytes of room left.
pub open spec fn decode_run(s: Seq<u8>, be: bool, is_end: bool, i: int, cap: int) -> Run
    decreases s.len() - i,
    when 0 <= i <= s.len()
{
    match decode_step(s, be, is_end, i) {
        Step::Stop => Run::stop(i),
        Step::Fail { span } => Run::fail(i, span),
        Step::Put { used, out } => {
            if out.len() > cap || !(i < used <= s.len()) {
                Run::stop(i)
            } else {
                Run::after(out, decode_run(s, be, is_end, used, cap - out.len()))
            }
        },
    }
}

/// Everything the encoder promises, relative to its run.
pub open spec fn encode_post(
    s: Seq<u8>,
    be: bool,
    old_out: Seq<u8>,
    new_out: Seq<u8>,
    r: EncodeResult,
) -> bool {
    let run = encode_run(s, be, 0, old_out.len() as int);
    &&& new_out.len() == old_out.len()
    &&& 0 <= run.used <= s.len()
    &&& run.out.len() <= old_out.len()
    &&& is_char_boundary(s, run.used)
    &&& run.err is None
    &&& new_out.subrange(0, run.out.len() as int) == run.out
    &&& new_out.subrange(run.out.len() as int, old_out.len() as int) == old_out.subrange(
        run.out.len() as int,
        old_out.len() as int,
    )
    &&& match r {
        Ok((written, consumed)) => written == run.out.len() && consumed == run.used,
        Err(_) => false,
    }
}

/// Everything the decoder promises, relative to its run.
pub open spec fn decode_post(
    s: Seq<u8>,
    be: bool,
    is_end: bool,
    old_out: Seq<u8>,
    new_out: Seq<u8>,
    r: DecodeResult,
) -> bool {
    let run = decode_run(s, be, is_end, 0, old_out.len() as int);
    &&& new_out.len() == old_out.len()
    &&& 0 <= run.used <= s.len()
    &&& run.out.len() <= old_out.len()
    &&& valid_utf8(run.out)
    &&& new_out.subrange(0, run.out.len() as int) == run.out
    &&& new_out.subrange(run.out.len() as int, old_out.len() as int) == old_out.subrange(
        run.out.len() as int,
        old_out.len() as int,
    )
    &&& match r {
        Ok((written, consumed)) => {
            &&& run.err is None
            &&& written == run.out.len()
            &&& consumed == run.used
        },
        Err(e) => match run.err {
            Some(span) => {
                &&& e.cause == DecodeErrorCause::InvalidData
                &&& e.error_range.0 == run.used
                &&& e.error_range.1 == run.used + span
                &&& e.output_bytes_written == run.out.len()
            },
            None => false,
        },
    }
}

/// An encode run reads nothing before its current position: dropping an
/// already-encoded prefix of the input shifts the run.
pub proof fn lemma_encode_run_shift(s: Seq<u8>, be: bool, d: int, i: int, cap: int)
    requires
        0 <= d <= i <= s.len(),
    ensures
        ({
            let r1 = encode_run(s, be, i, cap);
            let r2 = encode_run(s.subrange(d, s.len() as int), be, i - d, cap);
            &&& r1.out == r2.out
            &&& r1.used == r2.used + d
            &&& r1.err == r2.err
        }),
    decreases s.len() - i,
{
    let n = s.len() as int;
    let s2 = s.subrange(d, n);
    if i == n {
    } else {
        assert(s.subrange(i, n) =~= s2.subrange(i - d, s2.len() as int));
        match encode_step(s, be, i) {
            Step::Stop => {},
            Step::Fail { span } => {},
            Step::Put { used, out } => {
                assert(encode_step(s2, be, i - d) == Step::Put { used: used - d, out });
                if !(out.len() > cap) && i < used <= n {
                    lemma_encode_run_shift(s, be, d, used, cap - out.len());
                }
            },
        }
    }
}

/// A decode run reads nothing before its current position: dropping an
/// already-decoded prefix of the input shifts the run.
pub proof fn lemma_decode_run_shift(s: Seq<u8>, be: bool, is_end: bool, d: int, i: int, cap: int)
    requires
        0 <= d <= i <= s.len(),
    ensures
        ({
            let r1 = decode_run(s, be, is_end, i, cap);
            let r2 = decode_run(s.subrange(d, s.len() as int), be, is_end, i - d, cap);
            &&& r1.out == r2.out
            &&& r1.used == r2.used + d
            &&& r1.err == r2.err
        }),
    decreases s.len() - i,
{
    let n = s.len() as int;
    let s2 = s.subrange(d, n);
    if i == n {
    } else if n - i < 2 {
        assert(s2.len() - (i - d) == n - i);
    } else {
        assert(s2[i - d] == s[i] && s2[i - d + 1] == s[i + 1]);
        if n - i >= 4 {
            assert(s2[i - d + 2] == s[i + 2] && s2[i - d + 3] == s[i + 3]);
        }
        assert(s2.len() - (i - d) == n - i);
        match decode_step(s, be, is_end, i) {
            Step::Stop => {},
            Step::Fail { span } => {},
            Step::Put { used, out } => {
                assert(decode_step(s2, be, is_end, i - d) == Step::Put { used: used - d, out });
                if !(out.len() > cap) && i < used <= n {
                    lemma_decode_run_shift(s, be, is_end, d, used, cap - out.len());
                }
            },
        }
    }
}

/// Chunk invariance of decoding: when a first call with `is_end` false
/// ends without error, feeding the stream as that chunk and then the
/// unconsumed tail plus the rest gives exactly what one call over the
/// concatenation gives.  In particular a partial unit, or a high
/// surrogate missing its partner, at a chunk boundary is decoded once
/// the rest arrives.
pub proof fn lemma_decode_chunks(s1: Seq<u8>, s2: Seq<u8>, be: bool, is_end: bool, cap: int)
    requires
        ({
            let r1 = decode_run(s1, be, false, 0, cap);
            r1.err is None
        }),
    ensures
        ({
            let r1 = decode_run(s1, be, false, 0, cap);
            let rest = s1.subrange(r1.used, s1.len() as int) + s2;
            let r2 = decode_run(rest, be, is_end, 0, cap - r1.out.len());
            let whole = decode_run(s1 + s2, be, is_end, 0, cap);
            &&& whole.out == r1.out + r2.out
            &&& whole.used == r1.used + r2.used
            &&& whole.err == r2.err
        }),
{
    lemma_decode_chunks_from(s1, s2, be, is_end, 0, cap);
}

proof fn lemma_decode_chunks_from(
    s1: Seq<u8>,
    s2: Seq<u8>,
    be: bool,
    is_end: bool,
    i: int,
    cap: int,
)
    requires
        0 <= i <= s1.len(),
        ({
            let r1 = decode_run(s1, be, false, i, cap);
            r1.err is None
        }),
    ensures
        ({
            let r1 = decode_run(s1, be, false, i, cap);
            let rest = s1.subrange(r1.used, s1.len() as int) + s2;
            let r2 = decode_run(rest, be, is_end, 0, cap - r1.out.len());
            let whole = decode_run(s1 + s2, be, is_end, i, cap);
            &&& whole.out == r1.out + r2.out
            &&& whole.used == r1.used + r2.used
            &&& whole.err == r2.err
        }),
    decreases s1.len() - i,
{
    let n1 = s1.len() as int;
    let nw = (s1 + s2).len() as int;
    let r1 = decode_run(s1, be, false, i, cap);
    let stopped = match decode_step(s1, be, false, i) {
        Step::Stop => true,
        Step::Fail { span } => true,
        Step::Put { used, out } => out.len() > cap || !(i < used <= n1),
    };
    if stopped {
        assert(r1 == Run::stop(i));
        lemma_decode_run_shift(s1 + s2, be, is_end, i, i, cap);
        assert((s1 + s2).subrange(i, nw) =~= s1.subrange(i, n1) + s2);
    } else {
        match decode_step(s1, be, false, i) {
            Step::Put { used, out } => {
                assert((s1 + s2)[i] == s1[i] && (s1 + s2)[i + 1] == s1[i + 1]);
                if used == i + 4 {
                    assert((s1 + s2)[i + 2] == s1[i + 2] && (s1 + s2)[i + 3] == s1[i + 3]);
                }
                assert(decode_step(s1 + s2, be, is_end, i) == Step::Put { used, out });
                lemma_decode_chunks_from(s1, s2, be, is_end, used, cap - out.len());
                let rnext = decode_run(s1, be, false, used, cap - out.len());
                assert(r1 == Run::after(out, rnext));
                assert(decode_run(s1 + s2, be, is_end, i, cap) == Run::after(
                    out,
                    decode_run(s1 + s2, be, is_end, used, cap - out.len()),
                ));
                let rest = s1.subrange(r1.used, n1) + s2;
                let r2 = decode_run(rest, be, is_end, 0, cap - r1.out.len());
                assert(decode_run(s1 + s2, be, is_end, i, cap).out =~= r1.out + r2.out);
            },
            _ => {},
        }
    }
}

/// Chunk invariance of encoding: when a first call ends without error,
/// feeding the UTF-8 stream as that chunk and then the unconsumed tail
/// plus the rest gives exactly what one call over the concatenation
/// gives.
pub proof fn lemma_encode_chunks(s1: Seq<u8>, s2: Seq<u8>, be: bool, cap: int)
    requires
        valid_utf8(s1),
        valid_utf8(s2),
        ({
            let r1 = encode_run(s1, be, 0, cap);
            r1.err is None
        }),
    ensures
        ({
            let r1 = encode_run(s1, be, 0, cap);
            let rest = s1.subrange(r1.used, s1.len() as int) + s2;
            let r2 = encode_run(rest, be, 0, cap - r1.out.len());
            let whole = encode_run(s1 + s2, be, 0, cap);
            &&& whole.out == r1.out + r2.out
            &&& whole.used == r1.used + r2.used
            &&& whole.err == r2.err
        }),
{
    assert(s1.subrange(0, s1.len() as int) =~= s1);
    lemma_encode_chunks_from(s1, s2, be, 0, cap);
}

proof fn lemma_encode_chunks_from(s1: Seq<u8>, s2: Seq<u8>, be: bool, i: int, cap: int)
    requires
        0 <= i <= s1.len(),
        valid_utf8(s1.subrange(i, s1.len() as int)),
        ({
            let r1 = encode_run(s1, be, i, cap);
            r1.err is None
        }),
    ensures
        ({
            let r1 = encode_run(s1, be, i, cap);
            let rest = s1.subrange(r1.used, s1.len() as int) + s2;
            let r2 = encode_run(rest, be, 0, cap - r1.out.len());
            let whole = encode_run(s1 + s2, be, i, cap);
            &&& whole.out == r1.out + r2.out
            &&& whole.used == r1.used + r2.used
            &&& whole.err == r2.err
        }),
    decreases s1.len() - i,
{
    let n1 = s1.len() as int;
    let nw = (s1 + s2).len() as int;
    let r1 = encode_run(s1, be, i, cap);
    let stopped = match encode_step(s1, be, i) {
        Step::Stop => true,
        Step::Fail { span } => true,
        Step::Put { used, out } => out.len() > cap || !(i < used <= n1),
    };
    if stopped {
        assert(r1 == Run::stop(i));
        lemma_encode_run_shift(s1 + s2, be, i, i, cap);
        assert((s1 + s2).subrange(i, nw) =~= s1.subrange(i, n1) + s2);
    } else {
        let suffix = s1.subrange(i, n1);
        let suffix_w = (s1 + s2).subrange(i, nw);
        assert(suffix_w =~= suffix + s2);
        crate::scalars::lemma_first_scalar_extend(suffix, s2);
        let l = length_of_first_scalar(suffix);
        assert(1 <= l <= suffix.len()) by {
            assert(vstd::utf8::valid_first_scalar(suffix));
        }
        assert(vstd::utf8::pop_first_scalar(suffix) =~= s1.subrange(i + l, n1));
        match encode_step(s1, be, i) {
            Step::Put { used, out } => {
                assert(encode_step(s1 + s2, be, i) == Step::Put { used, out });
                lemma_encode_chunks_from(s1, s2, be, used, cap - out.len());
                let rnext = encode_run(s1, be, used, cap - out.len());
                assert(r1 == Run::after(out, rnext));
                assert(encode_run(s1 + s2, be, i, cap) == Run::after(
                    out,
                    encode_run(s1 + s2, be, used, cap - out.len()),
                ));
                let rest = s1.subrange(r1.used, n1) + s2;
                let r2 = encode_run(rest, be, 0, cap - r1.out.len());
                assert(encode_run(s1 + s2, be, i, cap).out =~= r1.out + r2.out);
            },
            _ => {},
        }
    }
}

/// A surrogate pair reassembles to the scalar it was split from, and a
/// unit's bytes read back as the unit.
proof fn lemma_unit_round_trips(b0: u8, b1: u8, be: bool)
    ensures
        unit_value(b0, b1, be) <= 0xFFFF,
        unit_bytes(unit_value(b0, b1, be), be) =~= seq![b0, b1],
{
    assert((((b0 as u32) << 8) | (b1 as u32)) <= 0xFFFF && ((((b0 as u32) << 8) | (b1 as u32))
        >> 8) & 0xFF == b0 as u32 && (((b0 as u32) << 8) | (b1 as u32)) & 0xFF == b1 as u32)
        by (bit_vector);
    assert((((b1 as u32) << 8) | (b0 as u32)) <= 0xFFFF && ((((b1 as u32) << 8) | (b0 as u32))
        >> 8) & 0xFF == b1 as u32 && (((b1 as u32) << 8) | (b0 as u32)) & 0xFF == b0 as u32)
        by (bit_vector);
}

proof fn lemma_surrogates_round_trip(hi: u32, lo: u32)
    requires
        0xD800 <= hi <= 0xDBFF,
        0xDC00 <= lo <= 0xDFFF,
    ensures
        0x10000 <= combined(hi, lo) <= 0x10FFFF,
        high_unit(combined(hi, lo)) == hi,
        low_unit(combined(hi, lo)) == lo,
{
    assert({
        let c = (0x10000 + ((((hi - 0xD800) as u32) << 10) | ((lo - 0xDC00) as u32))) as u32;
        &&& 0x10000 <= c <= 0x10FFFF
        &&& (0xD800 + (((c - 0x10000) as u32) >> 10)) as u32 == hi
        &&& (0xDC00 + (((c - 0x10000) as u32) & 0x3FF)) as u32 == lo
    }) by (bit_vector)
        requires
            0xD800 <= hi <= 0xDBFF && 0xDC00 <= lo <= 0xDFFF,
    ;
}

/// Round trip: decoding a UTF-16 stream and encoding the result
/// reproduces the original bytes exactly, in either byte order.
pub proof fn lemma_round_trip(s: Seq<u8>, be: bool, cap_d: int, cap_e: int)
    requires
        ({
            let d = decode_run(s, be, true, 0, cap_d);
            d.err is None && d.used == s.len()
        }),
        cap_e >= s.len(),
    ensures
        ({
            let d = decode_run(s, be, true, 0, cap_d);
            let e = encode_run(d.out, be, 0, cap_e);
            &&& valid_utf8(d.out)
            &&& e.err is None
            &&& e.used == d.out.len()
            &&& e.out == s
        }),
{
    lemma_round_trip_from(s, be, 0, cap_d, cap_e);
    assert(s.subrange(0, s.len() as int) =~= s);
}

#[verifier::rlimit(100)]
proof fn lemma_round_trip_from(s: Seq<u8>, be: bool, i: int, cap_d: int, cap_e: int)
    requires
        0 <= i <= s.len(),
        ({
            let d = decode_run(s, be, true, i, cap_d);
            d.err is None && d.used == s.len()
        }),
        cap_e >= s.len() - i,
    ensures
        ({
            let d = decode_run(s, be, true, i, cap_d);
            let e = encode_run(d.out, be, 0, cap_e);
            &&& valid_utf8(d.out)
            &&& e.err is None
            &&& e.used == d.out.len()
            &&& e.out == s.subrange(i, s.len() as int)
        }),
    decreases s.len() - i,
{
    let n = s.len() as int;
    let d = decode_run(s, be, true, i, cap_d);
    if i == n {
        assert(d == Run::stop(i));
        assert(s.subrange(i, n) =~= Seq::<u8>::empty());
    } else {
        // the decode step was accepted, else the run would have failed
        // or stopped short of the end of the input
        assert(n - i >= 2) by {
            if n - i < 2 {
                assert(d.err is Some);
            }
        }
        let u1 = unit_value(s[i], s[i + 1], be);
        lemma_unit_round_trips(s[i], s[i + 1], be);
        let scalar: u32;
        let consumed: int;
        if 0xD800 <= u1 <= 0xDBFF {
            assert(n - i >= 4) by {
                if n - i < 4 {
                    assert(d.err is Some);
                }
            }
            let u2 = unit_value(s[i + 2], s[i + 3], be);
            lemma_unit_round_trips(s[i + 2], s[i + 3], be);
            assert(0xDC00 <= u2 <= 0xDFFF) by {
                if !(0xDC00 <= u2 <= 0xDFFF) {
                    assert(d.err is Some);
                }
            }
            lemma_surrogates_round_trip(u1, u2);
            scalar = combined(u1, u2);
            consumed = 4;
        } else {
            assert(!(0xDC00 <= u1 <= 0xDFFF)) by {
                if 0xDC00 <= u1 <= 0xDFFF {
                    assert(d.err is Some);
                }
            }
            scalar = u1;
            consumed = 2;
        }
        assert(is_scalar(scalar));
        let chunk = encode_scalar(scalar);
        assert(decode_step(s, be, true, i) == Step::Put { used: i + consumed, out: chunk });
        assert(!(chunk.len() > cap_d)) by {
            if chunk.len() > cap_d {
                assert(d == Run::stop(i));
            }
        }
        let dnext = decode_run(s, be, true, i + consumed, cap_d - chunk.len());
        assert(d == Run::after(chunk, dnext));
        lemma_round_trip_from(s, be, i + consumed, cap_d - chunk.len(), cap_e - consumed);
        let enext = encode_run(dnext.out, be, 0, cap_e - consumed);
        // the first scalar of the decoded output is the decoded value
        lemma_encode_scalar_valid_utf8(scalar);
        let cs = seq![(scalar as char)] + vstd::utf8::decode_utf8(dnext.out);
        assert((scalar as char) as u32 == scalar);
        assert(vstd::utf8::encode_utf8(cs) =~= d.out) by {
            assert(cs.drop_first() =~= vstd::utf8::decode_utf8(dnext.out));
            vstd::utf8::decode_utf8_encode_utf8(dnext.out);
            assert(vstd::utf8::encode_utf8(cs) =~= encode_scalar(scalar)
                + vstd::utf8::encode_utf8(cs.drop_first()));
        }
        vstd::utf8::encode_utf8_first_scalar(cs);
        assert(decode_first_scalar(d.out) == scalar);
        assert(length_of_first_scalar(d.out) == chunk.len());
        vstd::utf8::valid_utf8_concat(chunk, dnext.out);
        assert(valid_utf8(d.out));
        // the encode step writes the unit or surrogate pair back out
        assert(d.out.subrange(0, d.out.len() as int) =~= d.out);
        let emitted: Seq<u8> = if scalar < 0x10000 {
            unit_bytes(scalar, be)
        } else {
            unit_bytes(high_unit(scalar), be) + unit_bytes(low_unit(scalar), be)
        };
        assert(encode_step(d.out, be, 0) == Step::Put { used: chunk.len() as int, out: emitted });
        assert(emitted =~= s.subrange(i, i + consumed));
        let e = encode_run(d.out, be, 0, cap_e);
        assert(e == Run::after(
            emitted,
            encode_run(d.out, be, chunk.len() as int, cap_e - consumed),
        ));
        lemma_encode_run_shift(d.out, be, chunk.len() as int, chunk.len() as int, cap_e - consumed);
        assert(d.out.subrange(chunk.len() as int, d.out.len() as int) =~= dnext.out);
        assert(e.out =~= s.subrange(i, i + consumed) + enext.out);
        assert(e.out =~= s.subrange(i, n));
    }
}

/// The UTF-16 encoding engine, shared by both byte orders.
#[verifier::rlimit(100)]
pub fn utf16_encode_from_str(be: bool, input: &[u8], out_buffer: &mut [u8]) -> (r: EncodeResult)
    requires
        valid_utf8(input@),
    ensures
        encode_post(input@, be, old(out_buffer)@, final(out_buffer)@, r),
{
    let ghost s = input@;
    let ghost cap0 = old(out_buffer)@.len() as int;
    let mut input_i: usize = 0;
    let mut output_i: usize = 0;
    while input_i < input.len()
        invariant
            valid_utf8(s),
            s == input@,
            input_i <= input.len(),
            is_char_boundary(s, input_i as int),
            output_i <= out_buffer@.len(),
            out_buffer@.len() == cap0,
            cap0 == old(out_buffer)@.len(),
            out_buffer@.subrange(output_i as int, cap0) == old(out_buffer)@.subrange(
                output_i as int,
                cap0,
            ),
            ({
                let whole = encode_run(s, be, 0, cap0);
                let rest = encode_run(s, be, input_i as int, cap0 - output_i);
                &&& whole.out == out_buffer@.subrange(0, output_i as int) + rest.out
                &&& whole.used == rest.used
                &&& whole.err == rest.err
            }),
        decreases input.len() - input_i,
    {
        let ghost whole = encode_run(s, be, 0, cap0);
        let ghost rest_run = encode_run(s, be, input_i as int, cap0 - output_i);
        let (c, l) = read_scalar(input, input_i);
        if c < 0x10000 {
            if 2 > out_buffer.len() - output_i {
                proof {
                    assert(rest_run == Run::stop(input_i as int));
                }
                return Ok((output_i, input_i));
            }
            let hi8 = ((c >> 8) & 0xFF) as u8;
            let lo8 = (c & 0xFF) as u8;
            let ghost prev = out_buffer@;
            if be {
                out_buffer[output_i] = hi8;
                out_buffer[output_i + 1] = lo8;
            } else {
                out_buffer[output_i] = lo8;
                out_buffer[output_i + 1] = hi8;
            }
            proof {
                assert(out_buffer@.subrange(output_i as int, output_i + 2) =~= unit_bytes(c, be));
                assert(rest_run == Run::after(
                    unit_bytes(c, be),
                    encode_run(s, be, input_i + l, cap0 - output_i - 2),
                ));
                lemma_run_advance(
                    cap0,
                    output_i as int,
                    2,
                    unit_bytes(c, be),
                    prev,
                    out_buffer@,
                    old(out_buffer)@,
                    whole,
                    rest_run,
                    encode_run(s, be, input_i + l, cap0 - output_i - 2),
                );
            }
            output_i = output_i + 2;
            input_i = input_i + l;
        } else {
            if 4 > out_buffer.len() - output_i {
                proof {
                    assert(rest_run == Run::stop(input_i as int));
                }
                return Ok((output_i, input_i));
            }
            proof {
                assert((((c - 0x10000) as u32) >> 10) <= 0x3FF && (((c - 0x10000) as u32)
                    & 0x3FF) <= 0x3FF) by (bit_vector)
                    requires
                        0x10000 <= c <= 0x10FFFF,
                ;
            }
            let hi: u32 = 0xD800 + ((c - 0x10000) >> 10);
            let lo: u32 = 0xDC00 + ((c - 0x10000) & 0x3FF);
            proof {
                assert(hi == high_unit(c) && lo == low_unit(c));
            }
            let ghost prev = out_buffer@;
            if be {
                out_buffer[output_i] = ((hi >> 8) & 0xFF) as u8;
                out_buffer[output_i + 1] = (hi & 0xFF) as u8;
                out_buffer[output_i + 2] = ((lo >> 8) & 0xFF) as u8;
                out_buffer[output_i + 3] = (lo & 0xFF) as u8;
            } else {
                out_buffer[output_i] = (hi & 0xFF) as u8;
                out_buffer[output_i + 1] = ((hi >> 8) & 0xFF) as u8;
                out_buffer[output_i + 2] = (lo & 0xFF) as u8;
                out_buffer[output_i + 3] = ((lo >> 8) & 0xFF) as u8;
            }
            let ghost emitted = unit_bytes(high_unit(c), be) + unit_bytes(low_unit(c), be);
            proof {
                assert(out_buffer@.subrange(output_i as int, output_i + 4) =~= emitted);
                assert(rest_run == Run::after(
                    emitted,
                    encode_run(s, be, input_i + l, cap0 - output_i - 4),
                ));
                lemma_run_advance(
                    cap0,
                    output_i as int,
                    4,
                    emitted,
                    prev,
                    out_buffer@,
                    old(out_buffer)@,
                    whole,
                    rest_run,
                    encode_run(s, be, input_i + l, cap0 - output_i - 4),
                );
            }
            output_i = output_i + 4;
            input_i = input_i + l;
        }
    }
    proof {
        assert(encode_run(s, be, input_i as int, cap0 - output_i) == Run::stop(input_i as int));
    }
    Ok((output_i, input_i))
}

/// The UTF-16 decoding engine, shared by both byte orders.
#[verifier::rlimit(100)]
pub fn utf16_decode_to_str(be: bool, input: &[u8], out_buffer: &mut [u8], is_end: bool) -> (r:
    DecodeResult)
    ensures
        decode_post(input@, be, is_end, old(out_buffer)@, final(out_buffer)@, r),
{
    let ghost s = input@;
    let ghost cap0 = old(out_buffer)@.len() as int;
    let mut input_i: usize = 0;
    let mut output_i: usize = 0;
    while input_i < input.len()
        invariant
            s == input@,
            input_i <= input.len(),
            output_i <= out_buffer@.len(),
            out_buffer@.len() == cap0,
            cap0 == old(out_buffer)@.len(),
            valid_utf8(out_buffer@.subrange(0, output_i as int)),
            out_buffer@.subrange(output_i as int, cap0) == old(out_buffer)@.subrange(
                output_i as int,
                cap0,
            ),
            ({
                let whole = decode_run(s, be, is_end, 0, cap0);
                let rest = decode_run(s, be, is_end, input_i as int, cap0 - output_i);
                &&& whole.out == out_buffer@.subrange(0, output_i as int) + rest.out
                &&& whole.used == rest.used
                &&& whole.err == rest.err
            }),
        decreases input.len() - input_i,
    {
        let ghost whole = decode_run(s, be, is_end, 0, cap0);
        let ghost rest_run = decode_run(s, be, is_end, input_i as int, cap0 - output_i);
        if input.len() - input_i < 2 {
            if !is_end {
                proof {
                    assert(rest_run == Run::stop(input_i as int));
                }
                return Ok((output_i, input_i));
            }
            proof {
                assert(rest_run == Run::fail(input_i as int, s.len() - input_i));
            }
            return Err(DecodeError {
                cause: DecodeErrorCause::InvalidData,
                error_range: (input_i, input.len()),
                output_bytes_written: output_i,
            });
        }
        let b0 = input[input_i];
        let b1 = input[input_i + 1];
        let u1: u32 = if be {
            ((b0 as u32) << 8) | (b1 as u32)
        } else {
            ((b1 as u32) << 8) | (b0 as u32)
        };
        proof {
            assert(u1 == unit_value(s[input_i as int], s[input_i + 1], be));
            assert(((b0 as u32) << 8 | (b1 as u32)) <= 0xFFFF && ((b1 as u32) << 8 | (b0 as u32))
                <= 0xFFFF) by (bit_vector);
        }
        let scalar: u32;
        let consumed: usize;
        if 0xD800 <= u1 && u1 <= 0xDBFF {
            if input.len() - input_i < 4 {
                if !is_end {
                    proof {
                        assert(rest_run == Run::stop(input_i as int));
                    }
                    return Ok((output_i, input_i));
                }
                proof {
                    assert(rest_run == Run::fail(input_i as int, s.len() - input_i));
                }
                return Err(DecodeError {
                    cause: DecodeErrorCause::InvalidData,
                    error_range: (input_i, input.len()),
                    output_bytes_written: output_i,
                });
            }
            let b2 = input[input_i + 2];
            let b3 = input[input_i + 3];
            let u2: u32 = if be {
                ((b2 as u32) << 8) | (b3 as u32)
            } else {
                ((b3 as u32) << 8) | (b2 as u32)
            };
            proof {
                assert(u2 == unit_value(s[input_i + 2], s[input_i + 3], be));
            }
            if !(0xDC00 <= u2 && u2 <= 0xDFFF) {
                proof {
                    assert(rest_run == Run::fail(input_i as int, 2));
                }
                return Err(DecodeError {
                    cause: DecodeErrorCause::InvalidData,
                    error_range: (input_i, input_i + 2),
                    output_bytes_written: output_i,
                });
            }
            proof {
                assert((((u1 - 0xD800) as u32) << 10) <= 0xFFC00 && ((((u1 - 0xD800) as u32)
                    << 10) | ((u2 - 0xDC00) as u32)) <= 0xFFFFF) by (bit_vector)
                    requires
                        0xD800 <= u1 <= 0xDBFF && 0xDC00 <= u2 <= 0xDFFF,
                ;
            }
            scalar = 0x10000 + (((u1 - 0xD800) << 10) | (u2 - 0xDC00));
            consumed = 4;
            proof {
                assert(scalar == combined(u1, u2));
            }
        } else if 0xDC00 <= u1 && u1 <= 0xDFFF {
            proof {
                assert(rest_run == Run::fail(input_i as int, 2));
            }
            return Err(DecodeError {
                cause: DecodeErrorCause::InvalidData,
                error_range: (input_i, input_i + 2),
                output_bytes_written: output_i,
            });
        } else {
            scalar = u1;
            consumed = 2;
        }
        assert(is_scalar(scalar));
        let l = utf8_width(scalar);
        if l > out_buffer.len() - output_i {
            proof {
                assert(rest_run == Run::stop(input_i as int));
            }
            return Ok((output_i, input_i));
        }
        let ghost prev = out_buffer@;
        let written = write_scalar(out_buffer, output_i, scalar);
        proof {
            assert(rest_run == Run::after(
                encode_scalar(scalar),
                decode_run(s, be, is_end, input_i + consumed, cap0 - output_i - l),
            ));
            lemma_run_advance(
                cap0,
                output_i as int,
                l as int,
                encode_scalar(scalar),
                prev,
                out_buffer@,
                old(out_buffer)@,
                whole,
                rest_run,
                decode_run(s, be, is_end, input_i + consumed, cap0 - output_i - l),
            );
            lemma_encode_scalar_valid_utf8(scalar);
            vstd::utf8::valid_utf8_concat(prev.subrange(0, output_i as int), encode_scalar(scalar));
        }
        output_i = output_i + written;
        input_i = input_i + consumed;
    }
    proof {
        assert(decode_run(s, be, is_end, input_i as int, cap0 - output_i) == Run::stop(
            input_i as int,
        ));
    }
    Ok((output_i, input_i))
}

} // verus!
