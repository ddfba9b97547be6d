use text_encoding::shiftjis_whatwg::decode_to_str;
use text_encoding::shiftjis_whatwg::encode_from_str;
use text_encoding::DecodeError;
use text_encoding::DecodeErrorCause;
use text_encoding::EncodeError;

// Helper function.
fn correct_decode(input: &[u8], expected_output: &str) {
    let mut buf = [0u8; 256];
    let (written, consumed) = decode_to_str(input, &mut buf, true).unwrap();
    assert_eq!(&buf[..written], expected_output.as_bytes());
    assert_eq!(consumed, input.len());
}

// Helper function.
fn error_decode(input: &[u8], error_range: (usize, usize), bytes_written: usize) {
    let mut buf = [0u8; 256];
    assert_eq!(
        decode_to_str(input, &mut buf, true),
        Err(DecodeError {
            cause: DecodeErrorCause::InvalidData,
            error_range: error_range,
            output_bytes_written: bytes_written,
        }),
    );
}

// Helper function.
fn correct_encode(input: &str, expected_output: &[u8]) {
    let mut buf = [0u8; 256];
    let (written, consumed) = encode_from_str(input.as_bytes(), &mut buf).unwrap();
    assert_eq!(&buf[..written], expected_output);
    assert_eq!(consumed, input.len());
}

#[test]
fn shiftjis_whatwg_decode_01() {
    // Empty
    correct_decode(b"", &"");

    // ASCII
    correct_decode(b"\x61\x62", "\u{0061}\u{0062}");

    // Half-width
    correct_decode(b"\xA1", "\u{FF61}");
    correct_decode(b"\xDF", "\u{FF9F}");

    // EUDC
    correct_decode(b"\xF0\x40", "\u{E000}");
    correct_decode(b"\xF9\xFC", "\u{E757}");
    correct_decode(b"\xFA\x40", "\u{2170}");

    // JIS 0208
    correct_decode(b"\x81\x40", "\u{3000}");
    correct_decode(b"\xEE\xFC", "\u{FF02}");
    correct_decode(b"\xFA\x40", "\u{2170}");
    correct_decode(b"\xFC\x4B", "\u{9ED1}");
}

#[test]
fn shiftjis_whatwg_decode_02() {
    let data = b"\x8D\xA1\x93\xFA\x82\xCD\x82\xA2\x82\xA2\x82\xE6\x81\x49"; // "今日はいいよ！"
    let mut buf = [0u8; 2];
    let (written, consumed_count) = decode_to_str(data, &mut buf, true).unwrap();
    assert_eq!(consumed_count, 0);
    assert_eq!(&buf[..written], "".as_bytes());
}

#[test]
fn shiftjis_whatwg_decode_03() {
    let data = b"\x8D\xA1\x93\xFA\x82\xCD\x82\xA2\x82\xA2\x82\xE6\x81\x49"; // "今日はいいよ！"
    let mut buf = [0u8; 3];
    let (written, consumed_count) = decode_to_str(data, &mut buf, true).unwrap();
    assert_eq!(consumed_count, 2);
    assert_eq!(&buf[..written], "今".as_bytes());
}

#[test]
fn shiftjis_whatwg_decode_04() {
    let data = b"\x8D\xA1\x93\xFA\x82\xCD\x82\xA2\x82\xA2\x82\xE6\x81\x49"; // "今日はいいよ！"
    let mut buf = [0u8; 5];
    let (written, consumed_count) = decode_to_str(data, &mut buf, true).unwrap();
    assert_eq!(consumed_count, 2);
    assert_eq!(&buf[..written], "今".as_bytes());
}

#[test]
fn shiftjis_whatwg_decode_05() {
    let data = b"\x8D\xA1\x81\x3F\x82\xCD\x82\xA2\x82\xA2\x82\xE6\x81\x49"; // "今日はいいよ！" with an error on the second char (invalid sequence)
    let mut buf = [0u8; 3];
    let (written, consumed_count) = decode_to_str(data, &mut buf, true).unwrap();
    assert_eq!(consumed_count, 2);
    assert_eq!(&buf[..written], "今".as_bytes());
}

#[test]
fn shiftjis_whatwg_decode_06() {
    let data = b"\x8D\xA1\x93\xFA\x61\xD6\x82\xCD\x62"; // "今日aﾖはb"
    let mut buf = [0u8; 14];
    let (written, consumed_count) = decode_to_str(data, &mut buf, true).unwrap();
    assert_eq!(consumed_count, 9);
    assert_eq!(&buf[..written], "今日aﾖはb".as_bytes());
}

#[test]
fn shiftjis_whatwg_decode_07() {
    let data = b"\x8D\xA1\x93\xFA\x82\xCD\x82\xA2\x82\xA2\x82\xE6\x81"; // "今日はいいよ！" with last byte chopped off.
    let mut buf = [0u8; 64];
    let (written, consumed_count) = decode_to_str(data, &mut buf, false).unwrap();
    assert_eq!(consumed_count, 12);
    assert_eq!(&buf[..written], "今日はいいよ".as_bytes());
}

#[test]
fn shiftjis_whatwg_decode_error_01() {
    error_decode(b"\xA0", (0, 1), 0);
    error_decode(b"\xA0+", (0, 1), 0);
    error_decode(b"\xE0+", (0, 1), 0);

    error_decode(b"\xEF\xFC", (0, 2), 0);

    error_decode(b"\x81\x3F", (0, 1), 0);
    error_decode(b"\xEE\xFD", (0, 2), 0);
    error_decode(b"\xFA\x3F", (0, 1), 0);
    error_decode(b"\xFC\x4C", (0, 1), 0);
}

#[test]
fn shiftjis_whatwg_decode_error_02() {
    let data = b"\x81\x3F\x93\xFA\x82\xCD\x82\xA2\x82\xA2\x82\xE6\x81\x49"; // "今日はいいよ！" with an error on the first char (invalid sequence)
    let mut buf = [0u8; 2];
    let error = decode_to_str(data, &mut buf, true);
    assert_eq!(
        error,
        Err(DecodeError {
            cause: DecodeErrorCause::InvalidData,
            error_range: (0, 1),
            output_bytes_written: 0,
        })
    );
}

#[test]
fn shiftjis_whatwg_decode_error_03() {
    let data = b"\x8D\xA1\x81\x3F\x82\xCD\x82\xA2\x82\xA2\x82\xE6\x81\x49"; // "今日はいいよ！" with an error on the second char (invalid sequence)
    let mut buf = [0u8; 4];
    let error = decode_to_str(data, &mut buf, true);
    assert_eq!(
        error,
        Err(DecodeError {
            cause: DecodeErrorCause::InvalidData,
            error_range: (2, 3),
            output_bytes_written: 3,
        })
    );
    assert_eq!(&buf[..3], b"\xE4\xBB\x8A");
}

#[test]
fn shiftjis_whatwg_decode_error_04() {
    let data = b"\x8D\xA1\x93\xFA\x82\xCD\x81\x3F\x82\xA2\x82\xE6\x81\x49"; // "今日はいいよ！" with an error on the fourth char (invalid sequence)
    let mut buf = [0u8; 64];
    let error = decode_to_str(data, &mut buf, true);
    assert_eq!(
        error,
        Err(DecodeError {
            cause: DecodeErrorCause::InvalidData,
            error_range: (6, 7),
            output_bytes_written: 9,
        })
    );
    assert_eq!(&buf[..9], b"\xE4\xBB\x8A\xE6\x97\xA5\xE3\x81\xAF");
}

#[test]
fn shiftjis_whatwg_decode_error_05() {
    let data = b"\x8D\xA1\x93\xFA\x82\xCD\x82\xA2\x82\xA2\x82\xE6\x81"; // "今日はいいよ！" with last byte chopped off.
    let mut buf = [0u8; 64];
    let error = decode_to_str(data, &mut buf, true);
    assert_eq!(
        error,
        Err(DecodeError {
            cause: DecodeErrorCause::InvalidData,
            error_range: (12, 13),
            output_bytes_written: 18,
        })
    );
    assert_eq!(&buf[..18], "今日はいいよ".as_bytes());
}

#[test]
fn shiftjis_whatwg_encode_01() {
    // Empty
    correct_encode("", b"");

    // ASCII
    correct_encode("\u{0061}\u{0062}", b"\x61\x62");

    // Exceptional code points
    correct_encode("\u{0080}", b"\x80");
    correct_encode("\u{00A5}", b"\x5C");
    correct_encode("\u{203E}", b"\x7E");
    correct_encode("\u{2212}", b"\x81\x7C");

    // Half-width
    correct_encode("\u{FF61}", b"\xA1");
    correct_encode("\u{FF9F}", b"\xDF");

    // EUDC
    correct_encode("\u{E000}", b"\xF0\x40");
    correct_encode("\u{E757}", b"\xF9\xFC");

    // JIS 0208
    correct_encode("\u{3000}", b"\x81\x40");
}

#[test]
fn shiftjis_whatwg_encode_02() {
    let text = "今日はいいよ！";
    let mut buf = [0u8; 1];
    let (written, consumed_count) = encode_from_str(text.as_bytes(), &mut buf).unwrap();
    assert_eq!(consumed_count, 0);
    assert_eq!(&buf[..written], &[]);
}

#[test]
fn shiftjis_whatwg_encode_03() {
    let text = "今日はいいよ！";
    let mut buf = [0u8; 2];
    let (written, consumed_count) = encode_from_str(text.as_bytes(), &mut buf).unwrap();
    assert_eq!(consumed_count, 3);
    assert_eq!(&buf[..written], b"\x8D\xA1");
}

#[test]
fn shiftjis_whatwg_encode_04() {
    let text = "今日はいいよ！";
    let mut buf = [0u8; 3];
    let (written, consumed_count) = encode_from_str(text.as_bytes(), &mut buf).unwrap();
    assert_eq!(consumed_count, 3);
    assert_eq!(&buf[..written], b"\x8D\xA1");
}

#[test]
fn shiftjis_whatwg_encode_05() {
    let text = "今日aﾖはbいいよ！";
    let mut buf = [0u8; 9];
    let (written, consumed_count) = encode_from_str(text.as_bytes(), &mut buf).unwrap();
    assert_eq!(consumed_count, 14);
    assert_eq!(&buf[..written], b"\x8D\xA1\x93\xFA\x61\xD6\x82\xCD\x62");
}

#[test]
fn shiftjis_whatwg_encode_06() {
    let text = "今日😺はいいよ！";
    let mut buf = [0u8; 4];
    let (written, consumed_count) = encode_from_str(text.as_bytes(), &mut buf).unwrap();
    assert_eq!(consumed_count, 6);
    assert_eq!(&buf[..written], b"\x8D\xA1\x93\xFA");
}

#[test]
fn shiftjis_whatwg_encode_error_01() {
    let text = "😺今日はいいよ！";
    let mut buf = [0u8; 64];
    assert_eq!(
        encode_from_str(text.as_bytes(), &mut buf),
        Err(EncodeError {
            character: '😺',
            error_range: (0, 4),
            output_bytes_written: 0,
        })
    );
}

#[test]
fn shiftjis_whatwg_encode_error_02() {
    let text = "今日😺はいいよ！";
    let mut buf = [0u8; 64];
    assert_eq!(
        encode_from_str(text.as_bytes(), &mut buf),
        Err(EncodeError {
            character: '😺',
            error_range: (6, 10),
            output_bytes_written: 4,
        })
    );
    assert_eq!(&buf[..4], b"\x8D\xA1\x93\xFA");
}
