// Streaming behaviour across chunk boundaries, and round trips for the
// lossless codecs.

use text_encoding::big5_whatwg;
use text_encoding::shiftjis_whatwg;
use text_encoding::single_byte::ascii;
use text_encoding::single_byte::iso_8859_1;
use text_encoding::single_byte::iso_8859_7;
use text_encoding::utf32_le;

// Decodes a whole stream through a small buffer, one call at a time.
fn decode_all(
    decode: &dyn Fn(&[u8], &mut [u8], bool) -> text_encoding::DecodeResult,
    mut input: &[u8],
    buf_size: usize,
) -> Vec<u8> {
    let mut buf = vec![0u8; buf_size];
    let mut out = Vec::new();
    loop {
        let (written, consumed) = decode(input, &mut buf, true).unwrap();
        out.extend_from_slice(&buf[..written]);
        input = &input[consumed..];
        if input.is_empty() {
            return out;
        }
        assert!(written > 0 || consumed > 0);
    }
}

#[test]
fn big5_decode_chunked_equals_single_call() {
    let data: &[u8] = &[
        0xA4, 0xB5, 0xA4, 0xE9, 0xC7, 0x56, 0xC6, 0xEA, 0xC6, 0xEA, 0xC7, 0x6F, 0xA1, 0x49,
    ]; // "今日はいいよ！"
    let mut big = [0u8; 64];
    let (written, consumed) = big5_whatwg::decode_to_str(data, &mut big, true).unwrap();
    assert_eq!(consumed, data.len());
    let single = big[..written].to_vec();

    // Chunks split in the middle of double-byte sequences.
    for split in 0..data.len() {
        let mut buf = [0u8; 64];
        let (w1, c1) = big5_whatwg::decode_to_str(&data[..split], &mut buf, false).unwrap();
        let mut out = buf[..w1].to_vec();
        let mut rest = data[c1..].to_vec();
        let (w2, c2) = big5_whatwg::decode_to_str(&rest, &mut buf, true).unwrap();
        out.extend_from_slice(&buf[..w2]);
        rest.drain(..c2);
        assert!(rest.is_empty());
        assert_eq!(out, single);
    }
}

#[test]
fn big5_encode_grapheme_across_chunks() {
    // A trailing U+00CA is deferred with is_end false...
    let first = "\u{00CA}";
    let mut buf = [0u8; 64];
    let (w1, c1) = big5_whatwg::encode_from_str(first.as_bytes(), &mut buf, false).unwrap();
    assert_eq!((w1, c1), (0, 0));

    // ...and pairs with the combining mark from the next chunk, giving
    // the same bytes as the single call.
    let whole = "\u{00CA}\u{0304}";
    let (w2, c2) = big5_whatwg::encode_from_str(whole.as_bytes(), &mut buf, true).unwrap();
    assert_eq!(c2, whole.len());
    assert_eq!(&buf[..w2], &[0x88, 0x62]);
}

#[test]
fn shiftjis_decode_chunked_equals_single_call() {
    let data: &[u8] = b"\x8D\xA1\x93\xFA\x82\xCD\x82\xA2\x82\xA2\x82\xE6\x81\x49";
    let mut big = [0u8; 64];
    let (written, consumed) = shiftjis_whatwg::decode_to_str(data, &mut big, true).unwrap();
    assert_eq!(consumed, data.len());
    let single = big[..written].to_vec();

    for split in 0..data.len() {
        let mut buf = [0u8; 64];
        let (w1, c1) = shiftjis_whatwg::decode_to_str(&data[..split], &mut buf, false).unwrap();
        let mut out = buf[..w1].to_vec();
        let rest: Vec<u8> = data[c1..].to_vec();
        let (w2, c2) = shiftjis_whatwg::decode_to_str(&rest, &mut buf, true).unwrap();
        out.extend_from_slice(&buf[..w2]);
        assert_eq!(c2, rest.len());
        assert_eq!(out, single);
    }
}

#[test]
fn utf32_le_decode_stops_at_partial_code_unit() {
    // Five bytes: one whole unit and a truncated one.
    let data = [0x41, 0x00, 0x00, 0x00, 0x42];
    let mut buf = [0u8; 16];
    let (written, consumed) = utf32_le::decode_to_str(&data, &mut buf, false).unwrap();
    assert_eq!(consumed, 4);
    assert_eq!(&buf[..written], b"A");
}

#[test]
fn utf32_le_round_trip_bytes() {
    let text = "Big5 と UTF-32 😺";
    let mut enc = [0u8; 128];
    let (we, ce) = utf32_le::encode_from_str(text.as_bytes(), &mut enc).unwrap();
    assert_eq!(ce, text.len());
    let mut dec = [0u8; 128];
    let (wd, cd) = utf32_le::decode_to_str(&enc[..we], &mut dec, true).unwrap();
    assert_eq!(cd, we);
    assert_eq!(&dec[..wd], text.as_bytes());

    // And decode-then-encode reproduces the UTF-32 bytes exactly.
    let mut enc2 = [0u8; 128];
    let (we2, ce2) = utf32_le::encode_from_str(&dec[..wd], &mut enc2).unwrap();
    assert_eq!(ce2, wd);
    assert_eq!(&enc2[..we2], &enc[..we]);
}

#[test]
fn latin1_round_trip_all_bytes() {
    let data: Vec<u8> = (0..=255u8).collect();
    let decoded = decode_all(
        &|i, o, _e| iso_8859_1::decode_to_str(i, o),
        &data,
        32,
    );
    let mut buf = [0u8; 16];
    let mut rest: &[u8] = &decoded;
    let mut out = Vec::new();
    while !rest.is_empty() {
        let (w, c) = iso_8859_1::encode_from_str(rest, &mut buf).unwrap();
        out.extend_from_slice(&buf[..w]);
        rest = &rest[c..];
    }
    assert_eq!(out, data);
}

#[test]
fn iso_8859_7_round_trip_non_holes() {
    let data: Vec<u8> = (0..=255u8).filter(|&b| b != 0xAE && b != 0xD2 && b != 0xFF).collect();
    let decoded = decode_all(
        &|i, o, _e| iso_8859_7::decode_to_str(i, o),
        &data,
        32,
    );
    let mut buf = [0u8; 512];
    let (w, c) = iso_8859_7::encode_from_str(&decoded, &mut buf).unwrap();
    assert_eq!(c, decoded.len());
    assert_eq!(&buf[..w], &data[..]);
}

#[test]
fn ascii_round_trip_all_bytes() {
    let data: Vec<u8> = (0..=127u8).collect();
    let mut buf = [0u8; 256];
    let (wd, cd) = ascii::decode_to_str(&data, &mut buf).unwrap();
    assert_eq!(cd, data.len());
    let decoded = buf[..wd].to_vec();
    let (we, ce) = ascii::encode_from_str(&decoded, &mut buf).unwrap();
    assert_eq!(ce, decoded.len());
    assert_eq!(&buf[..we], &data[..]);
}

#[test]
fn shiftjis_eudc_formula() {
    // U+E100 sits in the end-user-defined range: pointer 9092, lead
    // 9092 / 188 + 0xC1 = 0xF1, trail 9092 % 188 + 0x41 = 0x85.
    let mut buf = [0u8; 8];
    let (w, c) = shiftjis_whatwg::encode_from_str("\u{E100}".as_bytes(), &mut buf).unwrap();
    assert_eq!(c, 3);
    assert_eq!(&buf[..w], &[0xF1, 0x85]);

    let mut dec = [0u8; 8];
    let (wd, cd) = shiftjis_whatwg::decode_to_str(&[0xF1, 0x85], &mut dec, true).unwrap();
    assert_eq!(cd, 2);
    assert_eq!(&dec[..wd], "\u{E100}".as_bytes());
}

#[test]
fn big5_decode_lone_lead_waits_without_is_end() {
    let mut buf = [0u8; 8];
    let (w, c) = big5_whatwg::decode_to_str(&[0x61, 0xA4], &mut buf, false).unwrap();
    assert_eq!((w, c), (1, 1));
    assert_eq!(&buf[..1], b"a");
}

#[test]
fn map_grapheme_pairs() {
    assert_eq!(big5_whatwg::map_grapheme(0xCA, 0x304), Some([0x88, 0x62]));
    assert_eq!(big5_whatwg::map_grapheme(0xCA, 0x30C), Some([0x88, 0x64]));
    assert_eq!(big5_whatwg::map_grapheme(0xEA, 0x304), Some([0x88, 0xA3]));
    assert_eq!(big5_whatwg::map_grapheme(0xEA, 0x30C), Some([0x88, 0xA5]));
    assert_eq!(big5_whatwg::map_grapheme(0xCA, 0x305), None);
    assert_eq!(big5_whatwg::map_grapheme(0x61, 0x304), None);
}

#[test]
fn engine_with_custom_table() {
    // The engine itself is public: a one-entry table mapping U+00E9 to
    // byte 0x82.
    let table = [('\u{00E9}', 0x82u8)];
    let mut buf = [0u8; 8];
    let (w, c) =
        text_encoding::single_byte::ascii_ext_encode_from_str(&table, "caf\u{00E9}".as_bytes(), &mut buf)
            .unwrap();
    assert_eq!(c, 5);
    assert_eq!(&buf[..w], &[0x63, 0x61, 0x66, 0x82]);

    let mut dec_table = ['\u{FFFD}'; 128];
    dec_table[2] = '\u{00E9}';
    let (wd, cd) = text_encoding::single_byte::ascii_ext_decode_to_str(
        &dec_table,
        &[0x63, 0x61, 0x66, 0x82],
        &mut buf,
    )
    .unwrap();
    assert_eq!(cd, 4);
    assert_eq!(&buf[..wd], "caf\u{00E9}".as_bytes());
}
