//! Reading and writing single UTF-8 scalars.
//!
//! The internal side of every codec is a valid UTF-8 byte stream.  The
//! functions here are the executable counterparts of the specification
//! functions in `vstd::utf8`: reading the scalar at a character boundary
//! of a valid stream, and emitting a scalar's 1–4 byte encoding into an
//! output buffer.

use vstd::prelude::*;
use vstd::utf8::decode_first_scalar;
use vstd::utf8::encode_scalar;
use vstd::utf8::is_char_boundary;
use vstd::utf8::is_char_boundary_iff_not_is_continuation_byte;
use vstd::utf8::is_char_boundary_start_end_of_seq;
use vstd::utf8::is_scalar;
use vstd::utf8::length_of_first_scalar;
use vstd::utf8::pop_first_scalar;
use vstd::utf8::valid_first_scalar;
use vstd::utf8::valid_utf8;
use vstd::utf8::valid_utf8_split;

verus! {

/// Byte length of the UTF-8 encoding of the scalar `c`.
pub fn utf8_width(c: u32) -> (l: usize)
    requires
        is_scalar(c),
    ensures
        l == encode_scalar(c).len(),
        1 <= l <= 4,
{
    if c <= 0x7F {
        1
    } else if c <= 0x7FF {
        2
    } else if c <= 0xFFFF {
        3
    } else {
        4
    }
}

/// Reads the scalar at character boundary `i` of a valid UTF-8 stream,
/// returning the scalar value and the length of its encoding.
pub fn read_scalar(input: &[u8], i: usize) -> (r: (u32, usize))
    requires
        valid_utf8(input@),
        is_char_boundary(input@, i as int),
        i < input@.len(),
    ensures
        ({
            let rest = input@.subrange(i as int, input@.len() as int);
            &&& valid_first_scalar(rest)
            &&& r.0 == decode_first_scalar(rest)
            &&& r.1 == length_of_first_scalar(rest)
            &&& is_scalar(r.0)
            &&& 1 <= r.1 <= 4
            &&& i + r.1 <= input@.len()
            &&& is_char_boundary(input@, i + r.1)
        }),
{
    proof {
        valid_utf8_split(input@, i as int);
    }
    let ghost rest = input@.subrange(i as int, input@.len() as int);
    proof {
        assert(valid_utf8(rest));
        assert(valid_first_scalar(rest));
    }
    let b0 = input[i];
    assert(b0 == rest[0]);
    let (c, l): (u32, usize) = if b0 < 0x80 {
        ((b0 & 0x7F) as u32, 1)
    } else if b0 < 0xE0 {
        assert(0xc0 <= rest[0] <= 0xdf);
        let b1 = input[i + 1];
        assert(b1 == rest[1]);
        ((((b0 & 0x1F) as u32) << 6) | ((b1 & 0x3F) as u32), 2)
    } else if b0 < 0xF0 {
        assert(0xe0 <= rest[0] <= 0xef);
        let b1 = input[i + 1];
        let b2 = input[i + 2];
        assert(b1 == rest[1] && b2 == rest[2]);
        (
            ((((b0 & 0x0F) as u32) << 12) | (((b1 & 0x3F) as u32) << 6)) | ((b2 & 0x3F) as u32),
            3,
        )
    } else {
        assert(0xf0 <= rest[0] <= 0xf7);
        let b1 = input[i + 1];
        let b2 = input[i + 2];
        let b3 = input[i + 3];
        assert(b1 == rest[1] && b2 == rest[2] && b3 == rest[3]);
        (
            (((((b0 & 0x07) as u32) << 18) | (((b1 & 0x3F) as u32) << 12)) | (((b2 & 0x3F)
                as u32) << 6)) | ((b3 & 0x3F) as u32),
            4,
        )
    };
    proof {
        assert(c == decode_first_scalar(rest));
        assert(l == length_of_first_scalar(rest));
        lemma_first_scalar_ranges(rest);
        assert(is_scalar(c));
        if i + l < input@.len() {
            assert(valid_utf8(pop_first_scalar(rest)));
            assert(input@[i + l] == pop_first_scalar(rest)[0]);
            is_char_boundary_iff_not_is_continuation_byte(input@, i + l);
        } else {
            is_char_boundary_start_end_of_seq(input@);
        }
    }
    (c, l)
}

/// The codepoint of a well-formed first scalar is a Unicode scalar, and
/// the classification of its width matches the byte length read.
proof fn lemma_first_scalar_ranges(rest: Seq<u8>)
    requires
        valid_first_scalar(rest),
    ensures
        is_scalar(decode_first_scalar(rest)),
{
    let b0 = rest[0];
    if 0x00 <= b0 <= 0x7f {
        assert(decode_first_scalar(rest) == (b0 & 0x7F) as u32);
        assert((b0 & 0x7F) as u32 <= 0x7F) by (bit_vector);
    } else if 0xc0 <= b0 <= 0xdf {
        let b1 = rest[1];
        assert(((b0 & 0x1F) as u32) << 6 | ((b1 & 0x3F) as u32) <= 0x7FF) by (bit_vector);
    } else if 0xe0 <= b0 <= 0xef {
        let b1 = rest[1];
        let b2 = rest[2];
        assert(((b0 & 0x0F) as u32) << 12 | (((b1 & 0x3F) as u32) << 6) | ((b2 & 0x3F) as u32)
            <= 0xFFFF) by (bit_vector);
    } else {
        let b1 = rest[1];
        let b2 = rest[2];
        let b3 = rest[3];
        let c = ((b0 & 0x07) as u32) << 18 | (((b1 & 0x3F) as u32) << 12) | (((b2 & 0x3F)
            as u32) << 6) | ((b3 & 0x3F) as u32);
        assert(0xf0 <= b0 <= 0xf7);
    }
}

/// Writes the UTF-8 encoding of the scalar `c` at position `at` of the
/// output buffer, returning the number of bytes written.  Bytes outside
/// the written span are unchanged.
pub fn write_scalar(out: &mut [u8], at: usize, c: u32) -> (l: usize)
    requires
        is_scalar(c),
        at + encode_scalar(c).len() <= old(out)@.len(),
    ensures
        l == encode_scalar(c).len(),
        final(out)@.len() == old(out)@.len(),
        final(out)@.subrange(at as int, at + l) == encode_scalar(c),
        final(out)@.subrange(0, at as int) == old(out)@.subrange(0, at as int),
        final(out)@.subrange(at + l, final(out)@.len() as int) == old(out)@.subrange(
            at + l,
            old(out)@.len() as int,
        ),
        forall|j: int|
            0 <= j < old(out)@.len() && !(at <= j < at + l) ==> final(out)@[j] == old(out)@[j],
        forall|j: int| 0 <= j < l ==> final(out)@[at + j] == encode_scalar(c)[j],
{
    let l = utf8_width(c);
    if l == 1 {
        out[at] = (c & 0x7F) as u8;
    } else if l == 2 {
        assert(((c >> 6) & 0x1F) <= 0x1F && (c & 0x3F) <= 0x3F) by (bit_vector);
        out[at] = 0xC0 | ((c >> 6) & 0x1F) as u8;
        out[at + 1] = 0x80 | (c & 0x3F) as u8;
    } else if l == 3 {
        assert(((c >> 12) & 0x0F) <= 0x0F && ((c >> 6) & 0x3F) <= 0x3F && (c & 0x3F) <= 0x3F)
            by (bit_vector);
        out[at] = 0xE0 | ((c >> 12) & 0x0F) as u8;
        out[at + 1] = 0x80 | ((c >> 6) & 0x3F) as u8;
        out[at + 2] = 0x80 | (c & 0x3F) as u8;
    } else {
        assert(((c >> 18) & 0x7) <= 0x7 && ((c >> 12) & 0x3F) <= 0x3F && ((c >> 6) & 0x3F)
            <= 0x3F && (c & 0x3F) <= 0x3F) by (bit_vector);
        out[at] = 0xF0 | ((c >> 18) & 0x7) as u8;
        out[at + 1] = 0x80 | ((c >> 12) & 0x3F) as u8;
        out[at + 2] = 0x80 | ((c >> 6) & 0x3F) as u8;
        out[at + 3] = 0x80 | (c & 0x3F) as u8;
    }
    proof {
        assert(out@.subrange(at as int, at + l) =~= encode_scalar(c));
        assert(out@.subrange(0, at as int) =~= old(out)@.subrange(0, at as int));
        assert(out@.subrange(at + l, out@.len() as int) =~= old(out)@.subrange(
            at + l,
            old(out)@.len() as int,
        ));
    }
    l
}

/// The encoding of a single scalar is itself a valid UTF-8 stream.
pub proof fn lemma_encode_scalar_valid_utf8(c: u32)
    requires
        is_scalar(c),
    ensures
        valid_utf8(encode_scalar(c)),
        encode_scalar(c).len() == vstd::utf8::encode_utf8(seq![(c as char)]).len(),
        encode_scalar(c) == vstd::utf8::encode_utf8(seq![(c as char)]),
{
    let cs: Seq<char> = seq![(c as char)];
    assert((c as char) as u32 == c);
    reveal_with_fuel(vstd::utf8::encode_utf8, 2);
    assert(cs.drop_first() =~= Seq::<char>::empty());
    assert(vstd::utf8::encode_utf8(cs) =~= encode_scalar(c));
    vstd::utf8::encode_utf8_valid_utf8(cs);
}

/// The first scalar of a valid UTF-8 stream does not change when more
/// bytes are appended after the stream.
pub proof fn lemma_first_scalar_extend(s: Seq<u8>, ext: Seq<u8>)
    requires
        valid_utf8(s),
        s.len() > 0,
    ensures
        valid_first_scalar(s + ext),
        decode_first_scalar(s + ext) == decode_first_scalar(s),
        length_of_first_scalar(s + ext) == length_of_first_scalar(s),
{
    let w = s + ext;
    assert(valid_first_scalar(s));
    let b0 = s[0];
    assert(w[0] == b0);
    if vstd::utf8::is_leading_byte_width_1(b0) {
    } else if vstd::utf8::is_leading_byte_width_2(b0) {
        assert(s.len() >= 2 && vstd::utf8::is_continuation_byte(s[1]));
        assert(w[1] == s[1]);
    } else if vstd::utf8::is_leading_byte_width_3(b0) {
        assert(s.len() >= 3 && vstd::utf8::is_continuation_byte(s[1])
            && vstd::utf8::is_continuation_byte(s[2]));
        assert(w[1] == s[1] && w[2] == s[2]);
    } else {
        assert(s.len() >= 4 && vstd::utf8::is_continuation_byte(s[1])
            && vstd::utf8::is_continuation_byte(s[2]) && vstd::utf8::is_continuation_byte(s[3]));
        assert(w[1] == s[1] && w[2] == s[2] && w[3] == s[3]);
    }
}

/// Relies on `core::char::from_u32`, which returns the character with
/// the given value for every `u32` that is a Unicode scalar.
#[verifier::external_body]
pub fn char_of_scalar(c: u32) -> (r: char)
    requires
        is_scalar(c),
    ensures
        r as u32 == c,
{
    core::char::from_u32(c).unwrap()
}

} // verus!
