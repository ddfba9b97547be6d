//! Single byte encodings.
//!
//! All of these are ASCII and extensions of ASCII.  The two engine
//! functions here are shared by every single-byte codec: encoding walks
//! the UTF-8 input and maps each scalar above 0x7F through a table
//! sorted by scalar, and decoding maps each byte at or above 0x80
//! through a 128-entry table whose holes are marked by U+FFFD.  Each
//! codec module binds its own pair of tables to the engine.

use vstd::prelude::*;
use vstd::utf8::decode_first_scalar;
use vstd::utf8::encode_scalar;
use vstd::utf8::is_char_boundary;
use vstd::utf8::is_scalar;
use vstd::utf8::length_of_first_scalar;
use vstd::utf8::valid_utf8;

use crate::scalars::char_of_scalar;
use crate::scalars::lemma_encode_scalar_valid_utf8;
use crate::scalars::read_scalar;
use crate::scalars::utf8_width;
use crate::scalars::write_scalar;
use crate::stream::Run;
use crate::stream::Step;
use crate::tables::assoc;
use crate::tables::lookup;
use crate::tables::sorted;
use crate::DecodeError;
use crate::DecodeErrorCause;
use crate::DecodeResult;
use crate::EncodeError;
use crate::EncodeResult;

pub mod ascii;
pub mod iso_8859_1;
pub mod iso_8859_7;

verus! {

/// What the single-byte encoder does at input position `i` of the UTF-8
/// input `s`, with `cap` output bytes of room left: pass ASCII through,
/// map anything else through the table, and fail on a scalar the table
/// does not hold.
pub open spec fn sb_encode_step(t: Seq<(char, u8)>, s: Seq<u8>, i: int, cap: int) -> Step {
    if cap <= 0 {
        Step::Stop
    } else if i == s.len() {
        Step::Stop
    } else {
        let rest = s.subrange(i, s.len() as int);
        let c = decode_first_scalar(rest);
        let l = length_of_first_scalar(rest);
        if c <= 127 {
            Step::Put { used: i + l, out: seq![c as u8] }
        } else {
            match assoc(t, c) {
                Some(b) => Step::Put { used: i + l, out: seq![b] },
                None => Step::Fail { span: l },
            }
        }
    }
}

/// The single-byte encoder's run over `s` from position `i` with `cap`
/// output bytes of room left.
pub open spec fn sb_encode_run(t: Seq<(char, u8)>, s: Seq<u8>, i: int, cap: int) -> Run
    decreases s.len() - i,
    when 0 <= i <= s.len()
{
    match sb_encode_step(t, s, i, cap) {
        Step::Stop => Run::stop(i),
        Step::Fail { span } => Run::fail(i, span),
        Step::Put { used, out } => {
            if out.len() > cap || !(i < used <= s.len()) {
                Run::stop(i)
            } else {
                Run::after(out, sb_encode_run(t, s, used, cap - out.len()))
            }
        },
    }
}

/// What the single-byte decoder does at input position `i`: pass ASCII
/// through, map anything else through the 128-entry table, and fail on
/// a hole.
pub open spec fn sb_decode_step(t: Seq<char>, s: Seq<u8>, i: int) -> Step
    recommends
        t.len() == 128,
{
    if i == s.len() {
        Step::Stop
    } else if s[i] < 0x80 {
        Step::Put { used: i + 1, out: seq![s[i]] }
    } else {
        let code = t[s[i] - 128];
        if code == '\u{FFFD}' {
            Step::Fail { span: 1 }
        } else {
            Step::Put { used: i + 1, out: encode_scalar(code as u32) }
        }
    }
}

/// The single-byte decoder's run over `s` from position `i` with `cap`
/// output bytes of room left.
pub open spec fn sb_decode_run(t: Seq<char>, s: Seq<u8>, i: int, cap: int) -> Run
    decreases s.len() - i,
    when 0 <= i <= s.len()
{
    match sb_decode_step(t, s, i) {
        Step::Stop => Run::stop(i),
        Step::Fail { span } => Run::fail(i, span),
        Step::Put { used, out } => {
            if out.len() > cap || !(i < used <= s.len()) {
                Run::stop(i)
            } else {
                Run::after(out, sb_decode_run(t, s, used, cap - out.len()))
            }
        },
    }
}

/// Everything the single-byte encoder promises: the output buffer holds
/// exactly the run's bytes followed by its untouched tail, and the
/// result reports the run's counts, or its error with the offending
/// character.
pub open spec fn sb_encode_post(
    t: Seq<(char, u8)>,
    s: Seq<u8>,
    old_out: Seq<u8>,
    new_out: Seq<u8>,
    r: EncodeResult,
) -> bool {
    let run = sb_encode_run(t, s, 0, old_out.len() as int);
    &&& new_out.len() == old_out.len()
    &&& 0 <= run.used <= s.len()
    &&& run.out.len() <= old_out.len()
    &&& is_char_boundary(s, run.used)
    &&& new_out.subrange(0, run.out.len() as int) == run.out
    &&& new_out.subrange(run.out.len() as int, old_out.len() as int) == old_out.subrange(
        run.out.len() as int,
        old_out.len() as int,
    )
    &&& match r {
        Ok((written, consumed)) => {
            &&& run.err is None
            &&& written == run.out.len()
            &&& consumed == run.used
        },
        Err(e) => match run.err {
            Some(span) => {
                let rest = s.subrange(run.used, s.len() as int);
                &&& e.character as u32 == decode_first_scalar(rest)
                &&& span == length_of_first_scalar(rest)
                &&& e.error_range.0 == run.used
                &&& e.error_range.1 == run.used + span
                &&& e.output_bytes_written == run.out.len()
            },
            None => false,
        },
    }
}

/// Everything the single-byte decoder promises: the output buffer holds
/// exactly the run's bytes — themselves valid UTF-8 — followed by its
/// untouched tail, and the result reports the run's counts, or its
/// error.
pub open spec fn sb_decode_post(
    t: Seq<char>,
    s: Seq<u8>,
    old_out: Seq<u8>,
    new_out: Seq<u8>,
    r: DecodeResult,
) -> bool {
    let run = sb_decode_run(t, s, 0, old_out.len() as int);
    &&& new_out.len() == old_out.len()
    &&& 0 <= run.used <= s.len()
    &&& run.out.len() <= old_out.len()
    &&& valid_utf8(run.out)
    &&& new_out.subrange(0, run.out.len() as int) == run.out
    &&& new_out.subrange(run.out.len() as int, old_out.len() as int) == old_out.subrange(
        run.out.len() as int,
        old_out.len() as int,
    )
    &&& match r {
        Ok((written, consumed)) => {
            &&& run.err is None
            &&& written == run.out.len()
            &&& consumed == run.used
        },
        Err(e) => match run.err {
            Some(span) => {
                &&& e.cause == DecodeErrorCause::InvalidData
                &&& e.error_range.0 == run.used
                &&& e.error_range.1 == run.used + span
                &&& e.output_bytes_written == run.out.len()
            },
            None => false,
        },
    }
}

/// The encoding engine shared by the single-byte codecs that are strict
/// extensions of ASCII.  It is shallowly wrapped in each of their
/// modules.
pub fn ascii_ext_encode_from_str(table: &[(char, u8)], input: &[u8], output: &mut [u8]) -> (r:
    EncodeResult)
    requires
        valid_utf8(input@),
        sorted(table@),
    ensures
        sb_encode_post(table@, input@, old(output)@, final(output)@, r),
{
    let ghost t = table@;
    let ghost s = input@;
    let ghost cap0 = old(output)@.len() as int;
    let mut input_i: usize = 0;
    let mut output_i: usize = 0;
    while input_i < input.len()
        invariant
            valid_utf8(s),
            s == input@,
            t == table@,
            sorted(t),
            input_i <= input.len(),
            is_char_boundary(s, input_i as int),
            output_i <= output@.len(),
            output@.len() == cap0,
            cap0 == old(output)@.len(),
            output@.subrange(output_i as int, cap0) == old(output)@.subrange(
                output_i as int,
                cap0,
            ),
            ({
                let whole = sb_encode_run(t, s, 0, cap0);
                let rest = sb_encode_run(t, s, input_i as int, cap0 - output_i);
                &&& whole.out == output@.subrange(0, output_i as int) + rest.out
                &&& whole.used == rest.used
                &&& whole.err == rest.err
            }),
        decreases input.len() - input_i,
    {
        let ghost rest_run = sb_encode_run(t, s, input_i as int, cap0 - output_i);
        if output_i >= output.len() {
            proof {
                assert(rest_run == Run::stop(input_i as int));
            }
            return Ok((output_i, input_i));
        }
        let (c, l) = read_scalar(input, input_i);
        let b: u8;
        if c <= 127 {
            b = c as u8;
        } else {
            match lookup(table, c) {
                Some(found) => {
                    b = found;
                },
                None => {
                    proof {
                        assert(rest_run == Run::fail(input_i as int, l as int));
                    }
                    let character = char_of_scalar(c);
                    return Err(EncodeError {
                        character,
                        error_range: (input_i, input_i + l),
                        output_bytes_written: output_i,
                    });
                },
            }
        }
        let ghost prev = output@;
        output[output_i] = b;
        proof {
            assert(output@.subrange(0, output_i as int) =~= prev.subrange(0, output_i as int));
            assert(output@.subrange(output_i as int, output_i + 1) =~= seq![b]);
            assert(output@.subrange(output_i + 1, cap0) =~= prev.subrange(output_i + 1, cap0));
            assert forall|j: int| output_i <= j < cap0 implies prev[j] == old(output)@[j] by {
                assert(prev.subrange(output_i as int, cap0)[j - output_i] == old(
                    output,
                )@.subrange(output_i as int, cap0)[j - output_i]);
            }
            assert(prev.subrange(output_i + 1, cap0) =~= old(output)@.subrange(
                output_i + 1,
                cap0,
            ));
            assert(rest_run == Run::after(
                seq![b],
                sb_encode_run(t, s, input_i + l, cap0 - output_i - 1),
            ));
            assert(output@.subrange(0, output_i + 1) =~= output@.subrange(0, output_i as int)
                + seq![b]);
            assert(sb_encode_run(t, s, 0, cap0).out =~= output@.subrange(0, output_i + 1)
                + sb_encode_run(t, s, input_i + l, cap0 - output_i - 1).out);
        }
        output_i = output_i + 1;
        input_i = input_i + l;
    }
    proof {
        assert(sb_encode_run(t, s, input_i as int, cap0 - output_i) == Run::stop(input_i as int));
    }
    Ok((output_i, input_i))
}

/// The decoding engine shared by the single-byte codecs that are strict
/// extensions of ASCII.  It is shallowly wrapped in each of their
/// modules.
pub fn ascii_ext_decode_to_str(table: &[char; 128], input: &[u8], output: &mut [u8]) -> (r:
    DecodeResult)
    ensures
        sb_decode_post(table@, input@, old(output)@, final(output)@, r),
{
    let ghost t = table@;
    let ghost s = input@;
    let ghost cap0 = old(output)@.len() as int;
    let mut input_i: usize = 0;
    let mut output_i: usize = 0;
    while input_i < input.len()
        invariant
            s == input@,
            t == table@,
            t.len() == 128,
            input_i <= input.len(),
            output_i <= output@.len(),
            output@.len() == cap0,
            cap0 == old(output)@.len(),
            valid_utf8(output@.subrange(0, output_i as int)),
            output@.subrange(output_i as int, cap0) == old(output)@.subrange(
                output_i as int,
                cap0,
            ),
            ({
                let whole = sb_decode_run(t, s, 0, cap0);
                let rest = sb_decode_run(t, s, input_i as int, cap0 - output_i);
                &&& whole.out == output@.subrange(0, output_i as int) + rest.out
                &&& whole.used == rest.used
                &&& whole.err == rest.err
            }),
        decreases input.len() - input_i,
    {
        let ghost rest_run = sb_decode_run(t, s, input_i as int, cap0 - output_i);
        let byte = input[input_i];
        let scalar: u32;
        if byte < 0x80 {
            scalar = byte as u32;
            proof {
                assert(byte as u32 & 0x7F == byte as u32) by (bit_vector)
                    requires
                        byte < 0x80,
                ;
                assert(seq![byte] =~= encode_scalar(byte as u32));
            }
        } else {
            let code = table[(byte - 0x80) as usize];
            if code == '\u{FFFD}' {
                proof {
                    assert(rest_run == Run::fail(input_i as int, 1));
                }
                return Err(DecodeError {
                    cause: DecodeErrorCause::InvalidData,
                    error_range: (input_i, input_i + 1),
                    output_bytes_written: output_i,
                });
            }
            scalar = code as u32;
            proof {
                vstd::utf8::char_is_scalar(code);
            }
        }
        let l = utf8_width(scalar);
        if l > output.len() - output_i {
            proof {
                assert(rest_run == Run::stop(input_i as int));
            }
            return Ok((output_i, input_i));
        }
        let ghost prev = output@;
        let written = write_scalar(output, output_i, scalar);
        proof {
            assert(output@.subrange(0, output_i as int) =~= prev.subrange(0, output_i as int));
            assert(output@.subrange(output_i + l, cap0) =~= prev.subrange(output_i + l, cap0));
            assert forall|j: int| output_i <= j < cap0 implies prev[j] == old(output)@[j] by {
                assert(prev.subrange(output_i as int, cap0)[j - output_i] == old(
                    output,
                )@.subrange(output_i as int, cap0)[j - output_i]);
            }
            assert(prev.subrange(output_i + l, cap0) =~= old(output)@.subrange(
                output_i + l,
                cap0,
            ));
            assert(rest_run == Run::after(
                encode_scalar(scalar),
                sb_decode_run(t, s, input_i + 1, cap0 - output_i - l),
            ));
            assert(output@.subrange(0, output_i + l) =~= output@.subrange(0, output_i as int)
                + encode_scalar(scalar));
            lemma_encode_scalar_valid_utf8(scalar);
            vstd::utf8::valid_utf8_concat(
                output@.subrange(0, output_i as int),
                encode_scalar(scalar),
            );
            assert(sb_decode_run(t, s, 0, cap0).out =~= output@.subrange(0, output_i + l)
                + sb_decode_run(t, s, input_i + 1, cap0 - output_i - l).out);
        }
        output_i = output_i + written;
        input_i = input_i + 1;
    }
    proof {
        assert(sb_decode_run(t, s, input_i as int, cap0 - output_i) == Run::stop(input_i as int));
    }
    Ok((output_i, input_i))
}

/// A decode run reads nothing before its current position: dropping an
/// already-decoded prefix of the input shifts the run.
pub proof fn lemma_sb_decode_run_shift(t: Seq<char>, s: Seq<u8>, d: int, i: int, cap: int)
    requires
        0 <= d <= i <= s.len(),
    ensures
        ({
            let r1 = sb_decode_run(t, s, i, cap);
            let r2 = sb_decode_run(t, s.subrange(d, s.len() as int), i - d, cap);
            &&& r1.out == r2.out
            &&& r1.used == r2.used + d
            &&& r1.err == r2.err
        }),
    decreases s.len() - i,
{
    let s2 = s.subrange(d, s.len() as int);
    if i == s.len() {
        assert(i - d == s2.len());
    } else {
        assert(s2[i - d] == s[i]);
        match sb_decode_step(t, s, i) {
            Step::Stop => {},
            Step::Fail { span } => {},
            Step::Put { used, out } => {
                assert(sb_decode_step(t, s2, i - d) == Step::Put { used: used - d, out });
                if !(out.len() > cap) {
                    lemma_sb_decode_run_shift(t, s, d, i + 1, cap - out.len());
                }
            },
        }
    }
}

/// An encode run reads nothing before its current position: dropping an
/// already-encoded prefix of the input shifts the run.
pub proof fn lemma_sb_encode_run_shift(t: Seq<(char, u8)>, s: Seq<u8>, d: int, i: int, cap: int)
    requires
        0 <= d <= i <= s.len(),
    ensures
        ({
            let r1 = sb_encode_run(t, s, i, cap);
            let r2 = sb_encode_run(t, s.subrange(d, s.len() as int), i - d, cap);
            &&& r1.out == r2.out
            &&& r1.used == r2.used + d
            &&& r1.err == r2.err
        }),
    decreases s.len() - i,
{
    let s2 = s.subrange(d, s.len() as int);
    if i == s.len() || cap <= 0 {
        assert(i - d == s2.len() || cap <= 0);
    } else {
        assert(s.subrange(i, s.len() as int) =~= s2.subrange(i - d, s2.len() as int));
        match sb_encode_step(t, s, i, cap) {
            Step::Stop => {},
            Step::Fail { span } => {},
            Step::Put { used, out } => {
                assert(sb_encode_step(t, s2, i - d, cap) == Step::Put { used: used - d, out });
                if !(out.len() > cap) && i < used <= s.len() {
                    lemma_sb_encode_run_shift(t, s, d, used, cap - out.len());
                }
            },
        }
    }
}

/// Chunk invariance of single-byte decoding: when a first call consumes
/// a whole chunk without error, feeding the stream as that chunk and
/// then the rest gives exactly what one call over the concatenation
/// gives.
pub proof fn lemma_sb_decode_chunks(t: Seq<char>, s1: Seq<u8>, s2: Seq<u8>, cap: int)
    requires
        ({
            let r1 = sb_decode_run(t, s1, 0, cap);
            r1.err is None
        }),
    ensures
        ({
            let r1 = sb_decode_run(t, s1, 0, cap);
            let rest = s1.subrange(r1.used, s1.len() as int) + s2;
            let r2 = sb_decode_run(t, rest, 0, cap - r1.out.len());
            let whole = sb_decode_run(t, s1 + s2, 0, cap);
            &&& whole.out == r1.out + r2.out
            &&& whole.used == r1.used + r2.used
            &&& whole.err == r2.err
        }),
{
    lemma_sb_decode_chunks_from(t, s1, s2, 0, cap);
}

proof fn lemma_sb_decode_chunks_from(t: Seq<char>, s1: Seq<u8>, s2: Seq<u8>, i: int, cap: int)
    requires
        0 <= i <= s1.len(),
        ({
            let r1 = sb_decode_run(t, s1, i, cap);
            r1.err is None
        }),
    ensures
        ({
            let r1 = sb_decode_run(t, s1, i, cap);
            let rest = s1.subrange(r1.used, s1.len() as int) + s2;
            let r2 = sb_decode_run(t, rest, 0, cap - r1.out.len());
            let whole = sb_decode_run(t, s1 + s2, i, cap);
            &&& whole.out == r1.out + r2.out
            &&& whole.used == r1.used + r2.used
            &&& whole.err == r2.err
        }),
    decreases s1.len() - i,
{
    let n1 = s1.len() as int;
    let nw = (s1 + s2).len() as int;
    let r1 = sb_decode_run(t, s1, i, cap);
    let stopped = match sb_decode_step(t, s1, i) {
        Step::Stop => true,
        Step::Fail { span } => true,
        Step::Put { used, out } => out.len() > cap || !(i < used <= n1),
    };
    if stopped {
        assert(r1 == Run::stop(i));
        lemma_sb_decode_run_shift(t, s1 + s2, i, i, cap);
        assert((s1 + s2).subrange(i, nw) =~= s1.subrange(i, n1) + s2);
    } else {
        match sb_decode_step(t, s1, i) {
            Step::Put { used, out } => {
                assert((s1 + s2)[i] == s1[i]);
                assert(sb_decode_step(t, s1 + s2, i) == Step::Put { used, out });
                lemma_sb_decode_chunks_from(t, s1, s2, i + 1, cap - out.len());
                let rnext = sb_decode_run(t, s1, i + 1, cap - out.len());
                assert(r1 == Run::after(out, rnext));
                assert(sb_decode_run(t, s1 + s2, i, cap) == Run::after(
                    out,
                    sb_decode_run(t, s1 + s2, i + 1, cap - out.len()),
                ));
                let rest = s1.subrange(r1.used, n1) + s2;
                let r2 = sb_decode_run(t, rest, 0, cap - r1.out.len());
                assert(sb_decode_run(t, s1 + s2, i, cap).out =~= r1.out + r2.out);
            },
            _ => {},
        }
    }
}

/// Chunk invariance of single-byte encoding: when a first call ends
/// without error, feeding the UTF-8 stream as that chunk and then the
/// unconsumed tail plus the rest gives exactly what one call over the
/// concatenation gives.
pub proof fn lemma_sb_encode_chunks(t: Seq<(char, u8)>, s1: Seq<u8>, s2: Seq<u8>, cap: int)
    requires
        valid_utf8(s1),
        valid_utf8(s2),
        ({
            let r1 = sb_encode_run(t, s1, 0, cap);
            r1.err is None
        }),
    ensures
        ({
            let r1 = sb_encode_run(t, s1, 0, cap);
            let rest = s1.subrange(r1.used, s1.len() as int) + s2;
            let r2 = sb_encode_run(t, rest, 0, cap - r1.out.len());
            let whole = sb_encode_run(t, s1 + s2, 0, cap);
            &&& whole.out == r1.out + r2.out
            &&& whole.used == r1.used + r2.used
            &&& whole.err == r2.err
        }),
{
    assert(s1.subrange(0, s1.len() as int) =~= s1);
    lemma_sb_encode_chunks_from(t, s1, s2, 0, cap);
}

proof fn lemma_sb_encode_chunks_from(t: Seq<(char, u8)>, s1: Seq<u8>, s2: Seq<u8>, i: int, cap: int)
    requires
        0 <= i <= s1.len(),
        valid_utf8(s1.subrange(i, s1.len() as int)),
        ({
            let r1 = sb_encode_run(t, s1, i, cap);
            r1.err is None
        }),
    ensures
        ({
            let r1 = sb_encode_run(t, s1, i, cap);
            let rest = s1.subrange(r1.used, s1.len() as int) + s2;
            let r2 = sb_encode_run(t, rest, 0, cap - r1.out.len());
            let whole = sb_encode_run(t, s1 + s2, i, cap);
            &&& whole.out == r1.out + r2.out
            &&& whole.used == r1.used + r2.used
            &&& whole.err == r2.err
        }),
    decreases s1.len() - i,
{
    let n1 = s1.len() as int;
    let nw = (s1 + s2).len() as int;
    let r1 = sb_encode_run(t, s1, i, cap);
    let stopped = match sb_encode_step(t, s1, i, cap) {
        Step::Stop => true,
        Step::Fail { span } => true,
        Step::Put { used, out } => out.len() > cap || !(i < used <= n1),
    };
    if stopped {
        assert(r1 == Run::stop(i));
        lemma_sb_encode_run_shift(t, s1 + s2, i, i, cap);
        assert((s1 + s2).subrange(i, nw) =~= s1.subrange(i, n1) + s2);
    } else {
        let suffix = s1.subrange(i, n1);
        let suffix_w = (s1 + s2).subrange(i, nw);
        assert(suffix_w =~= suffix + s2);
        crate::scalars::lemma_first_scalar_extend(suffix, s2);
        let l = length_of_first_scalar(suffix);
        assert(1 <= l <= suffix.len()) by {
            assert(vstd::utf8::valid_first_scalar(suffix));
        }
        assert(vstd::utf8::pop_first_scalar(suffix) =~= s1.subrange(i + l, n1));
        match sb_encode_step(t, s1, i, cap) {
            Step::Put { used, out } => {
                assert(sb_encode_step(t, s1 + s2, i, cap) == Step::Put { used, out });
                lemma_sb_encode_chunks_from(t, s1, s2, used, cap - out.len());
                let rnext = sb_encode_run(t, s1, used, cap - out.len());
                assert(r1 == Run::after(out, rnext));
                assert(sb_encode_run(t, s1 + s2, i, cap) == Run::after(
                    out,
                    sb_encode_run(t, s1 + s2, used, cap - out.len()),
                ));
                let rest = s1.subrange(r1.used, n1) + s2;
                let r2 = sb_encode_run(t, rest, 0, cap - r1.out.len());
                assert(sb_encode_run(t, s1 + s2, i, cap).out =~= r1.out + r2.out);
            },
            _ => {},
        }
    }
}

/// Round trip of the single-byte engine: when the encode table is the
/// inverse of the decode table on its non-hole entries, decoding a byte
/// stream and encoding the result reproduces the original bytes.
pub proof fn lemma_sb_round_trip(
    t128: Seq<char>,
    tenc: Seq<(char, u8)>,
    s: Seq<u8>,
    cap_d: int,
    cap_e: int,
)
    requires
        t128.len() == 128,
        forall|b: int|
            0 <= b < 128 && (#[trigger] t128[b]) != '\u{FFFD}' ==> (t128[b] as u32) > 127 && assoc(
                tenc,
                t128[b] as u32,
            ) == Some(((b + 128) as u8)),
        ({
            let d = sb_decode_run(t128, s, 0, cap_d);
            d.err is None && d.used == s.len()
        }),
        cap_e >= s.len(),
    ensures
        ({
            let d = sb_decode_run(t128, s, 0, cap_d);
            let e = sb_encode_run(tenc, d.out, 0, cap_e);
            &&& valid_utf8(d.out)
            &&& e.err is None
            &&& e.used == d.out.len()
            &&& e.out == s
        }),
{
    lemma_sb_round_trip_from(t128, tenc, s, 0, cap_d, cap_e);
    let d = sb_decode_run(t128, s, 0, cap_d);
    assert(s.subrange(0, s.len() as int) =~= s);
}

proof fn lemma_sb_round_trip_from(
    t128: Seq<char>,
    tenc: Seq<(char, u8)>,
    s: Seq<u8>,
    i: int,
    cap_d: int,
    cap_e: int,
)
    requires
        t128.len() == 128,
        forall|b: int|
            0 <= b < 128 && (#[trigger] t128[b]) != '\u{FFFD}' ==> (t128[b] as u32) > 127 && assoc(
                tenc,
                t128[b] as u32,
            ) == Some(((b + 128) as u8)),
        0 <= i <= s.len(),
        ({
            let d = sb_decode_run(t128, s, i, cap_d);
            d.err is None && d.used == s.len()
        }),
        cap_e >= s.len() - i,
    ensures
        ({
            let d = sb_decode_run(t128, s, i, cap_d);
            let e = sb_encode_run(tenc, d.out, 0, cap_e);
            &&& valid_utf8(d.out)
            &&& e.err is None
            &&& e.used == d.out.len()
            &&& e.out == s.subrange(i, s.len() as int)
        }),
    decreases s.len() - i,
{
    broadcast use vstd::utf8::encode_utf8_valid_utf8;

    let n = s.len() as int;
    let d = sb_decode_run(t128, s, i, cap_d);
    if i == n {
        assert(d == Run::stop(i));
        assert(s.subrange(i, n) =~= Seq::<u8>::empty());
    } else {
        let b = s[i];
        let chunk: Seq<u8> = if b < 0x80 {
            seq![b]
        } else {
            encode_scalar(t128[b - 128] as u32)
        };
        let cu: u32 = if b < 0x80 {
            b as u32
        } else {
            t128[b - 128] as u32
        };
        if b < 0x80 {
            assert(b as u32 & 0x7F == b as u32 && (b as u32) < 0x80) by (bit_vector)
                requires
                    b < 0x80,
            ;
            assert(chunk =~= encode_scalar(cu));
        } else {
            if t128[b - 128] == '\u{FFFD}' {
                assert(d.err is Some);
            }
            vstd::utf8::char_is_scalar(t128[b - 128]);
        }
        assert(is_scalar(cu)) by {
            if b < 0x80 {
                assert((b as u32) < 0x80);
            } else {
                vstd::utf8::char_is_scalar(t128[b - 128]);
                vstd::utf8::char_u32_cast(t128[b - 128], cu);
            }
        }
        // the decode step was accepted, else the run could not have
        // consumed the whole input
        assert(sb_decode_step(t128, s, i) == Step::Put { used: i + 1, out: chunk });
        assert(!(chunk.len() > cap_d)) by {
            if chunk.len() > cap_d {
                assert(d == Run::stop(i));
            }
        }
        let dnext = sb_decode_run(t128, s, i + 1, cap_d - chunk.len());
        assert(d == Run::after(chunk, dnext));
        lemma_sb_round_trip_from(t128, tenc, s, i + 1, cap_d - chunk.len(), cap_e - 1);
        let enext = sb_encode_run(tenc, dnext.out, 0, cap_e - 1);
        // the first scalar of the decoded output is the decoded
        // character, and its encoding is the chunk
        lemma_encode_scalar_valid_utf8(cu);
        let cs = seq![(cu as char)] + vstd::utf8::decode_utf8(dnext.out);
        assert((cu as char) as u32 == cu);
        assert(vstd::utf8::encode_utf8(cs) =~= d.out) by {
            assert(cs.drop_first() =~= vstd::utf8::decode_utf8(dnext.out));
            vstd::utf8::decode_utf8_encode_utf8(dnext.out);
            assert(vstd::utf8::encode_utf8(cs) =~= encode_scalar(cu) + vstd::utf8::encode_utf8(
                cs.drop_first(),
            ));
        }
        vstd::utf8::encode_utf8_first_scalar(cs);
        assert(decode_first_scalar(d.out) == cu);
        assert(length_of_first_scalar(d.out) == chunk.len());
        vstd::utf8::valid_utf8_concat(chunk, dnext.out);
        assert(valid_utf8(d.out));
        // the encode step maps the scalar straight back to the byte
        assert(d.out.subrange(0, d.out.len() as int) =~= d.out);
        let estep = sb_encode_step(tenc, d.out, 0, cap_e);
        assert(cap_e >= 1);
        if cu <= 127 {
            assert(estep == Step::Put { used: chunk.len() as int, out: seq![cu as u8] });
            assert(seq![cu as u8] =~= seq![b]);
        } else {
            assert(assoc(tenc, cu) == Some(b)) by {
                assert(t128[b - 128] != '\u{FFFD}');
                assert((b - 128) + 128 == b as int);
            }
            assert(estep == Step::Put { used: chunk.len() as int, out: seq![b] });
        }
        let e = sb_encode_run(tenc, d.out, 0, cap_e);
        assert(e == Run::after(
            seq![b],
            sb_encode_run(tenc, d.out, chunk.len() as int, cap_e - 1),
        ));
        lemma_sb_encode_run_shift(tenc, d.out, chunk.len() as int, chunk.len() as int, cap_e - 1);
        assert(d.out.subrange(chunk.len() as int, d.out.len() as int) =~= dnext.out);
        assert(e.out =~= seq![b] + enext.out);
        assert(e.out =~= s.subrange(i, n));
    }
}

} // verus!
