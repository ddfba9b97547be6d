use text_encoding::big5_whatwg::decode_to_str;
use text_encoding::big5_whatwg::encode_from_str;
use text_encoding::DecodeError;
use text_encoding::DecodeErrorCause;
use text_encoding::EncodeError;

// Helper function.
fn correct_decode(input: &[u8], expected_output: &str) {
    let mut buf = [0u8; 256];
    let (written, consumed) = decode_to_str(input, &mut buf, true).unwrap();
    assert_eq!(&buf[..written], expected_output.as_bytes());
    assert_eq!(consumed, input.len());
}

// Helper function.
fn error_decode(input: &[u8], error_range: (usize, usize), bytes_written: usize) {
    let mut buf = [0u8; 256];
    assert_eq!(
        decode_to_str(input, &mut buf, true),
        Err(DecodeError {
            cause: DecodeErrorCause::InvalidData,
            error_range: error_range,
            output_bytes_written: bytes_written,
        }),
    );
}

#[test]
fn big5_whatwg_decode_01() {
    // ASCII
    correct_decode(&[0x61u8, 0x62u8], "\u{0061}\u{0062}");

    // Edge cases
    correct_decode(&[0x87u8, 0x40u8], "\u{43F0}");
    correct_decode(&[0xFEu8, 0xFEu8], "\u{79D4}");
    correct_decode(&[0xFEu8, 0xFDu8], "\u{2910D}");
    correct_decode(&[0x88u8, 0x62u8], "\u{00CA}\u{0304}");
    correct_decode(&[0x88u8, 0x64u8], "\u{00CA}\u{030C}");
    correct_decode(&[0x88u8, 0x66u8], "\u{00CA}");
    correct_decode(&[0x88u8, 0xA3u8], "\u{00EA}\u{0304}");
    correct_decode(&[0x88u8, 0xA5u8], "\u{00EA}\u{030C}");
    correct_decode(&[0x88u8, 0xA7u8], "\u{00EA}");
    correct_decode(&[0x99u8, 0xD4u8], "\u{8991}");
    correct_decode(&[0x99u8, 0xD5u8], "\u{27967}");
    correct_decode(&[0x99u8, 0xD6u8], "\u{8A29}");

    // Edge cases surrounded with ASCII
    correct_decode(&[0x61u8, 0x87u8, 0x40u8, 0x62u8], "\u{0061}\u{43F0}\u{0062}");
    correct_decode(&[0x61u8, 0xFEu8, 0xFEu8, 0x62u8], "\u{0061}\u{79D4}\u{0062}");
    correct_decode(&[0x61u8, 0xFEu8, 0xFDu8, 0x62u8], "\u{0061}\u{2910D}\u{0062}");
    correct_decode(&[0x61u8, 0x88u8, 0x62u8, 0x62u8], "\u{0061}\u{00CA}\u{0304}\u{0062}");
    correct_decode(&[0x61u8, 0x88u8, 0x64u8, 0x62u8], "\u{0061}\u{00CA}\u{030C}\u{0062}");
    correct_decode(&[0x61u8, 0x88u8, 0x66u8, 0x62u8], "\u{0061}\u{00CA}\u{0062}");
    correct_decode(&[0x61u8, 0x88u8, 0xA3u8, 0x62u8], "\u{0061}\u{00EA}\u{0304}\u{0062}");
    correct_decode(&[0x61u8, 0x88u8, 0xA5u8, 0x62u8], "\u{0061}\u{00EA}\u{030C}\u{0062}");
    correct_decode(&[0x61u8, 0x88u8, 0xA7u8, 0x62u8], "\u{0061}\u{00EA}\u{0062}");
    correct_decode(&[0x61u8, 0x99u8, 0xD4u8, 0x62u8], "\u{0061}\u{8991}\u{0062}");
    correct_decode(&[0x61u8, 0x99u8, 0xD5u8, 0x62u8], "\u{0061}\u{27967}\u{0062}");
    correct_decode(&[0x61u8, 0x99u8, 0xD6u8, 0x62u8], "\u{0061}\u{8A29}\u{0062}");
}

#[test]
fn big5_whatwg_decode_02() {
    let data = [
        0xA4, 0xB5, 0xA4, 0xE9, 0xC7, 0x56, 0xC6, 0xEA, 0xC6, 0xEA, 0xC7, 0x6F, 0xA1, 0x49,
    ]; // "今日はいいよ！"
    let mut buf = [0u8; 2];
    let (written, consumed_count) = decode_to_str(&data, &mut buf, true).unwrap();
    assert_eq!(consumed_count, 0);
    assert_eq!(&buf[..written], "".as_bytes());
}

#[test]
fn big5_whatwg_decode_03() {
    let data = [
        0xA4, 0xB5, 0xA4, 0xE9, 0xC7, 0x56, 0xC6, 0xEA, 0xC6, 0xEA, 0xC7, 0x6F, 0xA1, 0x49,
    ]; // "今日はいいよ！"
    let mut buf = [0u8; 3];
    let (written, consumed_count) = decode_to_str(&data, &mut buf, true).unwrap();
    assert_eq!(consumed_count, 2);
    assert_eq!(&buf[..written], "今".as_bytes());
}

#[test]
fn big5_whatwg_decode_04() {
    let data = [
        0xA4, 0xB5, 0xA4, 0xE9, 0xC7, 0x56, 0xC6, 0xEA, 0xC6, 0xEA, 0xC7, 0x6F, 0xA1, 0x49,
    ]; // "今日はいいよ！"
    let mut buf = [0u8; 5];
    let (written, consumed_count) = decode_to_str(&data, &mut buf, true).unwrap();
    assert_eq!(consumed_count, 2);
    assert_eq!(&buf[..written], "今".as_bytes());
}

#[test]
fn big5_whatwg_decode_05() {
    let data = [
        0xA4, 0xB5, 0x80, 0x61, 0xC7, 0x56, 0xC6, 0xEA, 0xC6, 0xEA, 0xC7, 0x6F, 0xA1, 0x49,
    ]; // "今日はいいよ！" with an error on the second char (invalid sequence)
    let mut buf = [0u8; 3];
    let (written, consumed_count) = decode_to_str(&data, &mut buf, true).unwrap();
    assert_eq!(consumed_count, 2);
    assert_eq!(&buf[..written], "今".as_bytes());
}

#[test]
fn big5_whatwg_decode_06() {
    let data = [0xA4, 0xB5, 0xA4, 0xE9, 0x61, 0xC7, 0x56, 0x62];
    let mut buf = [0u8; 11];
    let (written, consumed_count) = decode_to_str(&data, &mut buf, true).unwrap();
    assert_eq!(consumed_count, 8);
    assert_eq!(&buf[..written], "今日aはb".as_bytes());
}

#[test]
fn big5_whatwg_decode_07() {
    let data = [
        0xA4, 0xB5, 0xA4, 0xE9, 0xC7, 0x56, 0xC6, 0xEA, 0xC6, 0xEA, 0xC7, 0x6F, 0xA1,
    ]; // "今日はいいよ！" with last byte chopped off.
    let mut buf = [0u8; 64];
    let (written, consumed_count) = decode_to_str(&data, &mut buf, false).unwrap();
    assert_eq!(consumed_count, 12);
    assert_eq!(&buf[..written], "今日はいいよ".as_bytes());
}

#[test]
fn big5_whatwg_decode_error_01() {
    error_decode(&[0x80u8, 0x61u8], (0, 1), 0); // Invalid sequence
    error_decode(&[0xFFu8, 0x61u8], (0, 1), 0); // Invalid sequence
    error_decode(&[0xFEu8, 0x39u8], (0, 1), 0); // Invalid sequence
    error_decode(&[0x87u8, 0x66u8], (0, 1), 0); // Undefined code
    error_decode(&[0x81u8, 0x40u8], (0, 1), 0); // Undefined code

    // Invalid sequence, second byte outside of ascii range.
    error_decode(&[0x81u8, 0xA0u8], (0, 2), 0);

    // Undefined code, second byte outside of ascii range.
    error_decode(&[0x81u8, 0xFEu8], (0, 2), 0);
}

#[test]
fn big5_whatwg_decode_error_02() {
    let data = [
        0x80, 0x61, 0xA4, 0xE9, 0xC7, 0x56, 0xC6, 0xEA, 0xC6, 0xEA, 0xC7, 0x6F, 0xA1, 0x49,
    ]; // "今日はいいよ！" with an error on the first char (invalid sequence)
    let mut buf = [0u8; 2];
    let error = decode_to_str(&data, &mut buf, true);
    assert_eq!(
        error,
        Err(DecodeError {
            cause: DecodeErrorCause::InvalidData,
            error_range: (0, 1),
            output_bytes_written: 0,
        })
    );
}

#[test]
fn big5_whatwg_decode_error_03() {
    let data = [
        0xA4, 0xB5, 0x80, 0x61, 0xC7, 0x56, 0xC6, 0xEA, 0xC6, 0xEA, 0xC7, 0x6F, 0xA1, 0x49,
    ]; // "今日はいいよ！" with an error on the second char (invalid sequence)
    let mut buf = [0u8; 4];
    let error = decode_to_str(&data, &mut buf, true);
    assert_eq!(
        error,
        Err(DecodeError {
            cause: DecodeErrorCause::InvalidData,
            error_range: (2, 3),
            output_bytes_written: 3,
        })
    );
    assert_eq!(&buf[..3], b"\xE4\xBB\x8A");
}

#[test]
fn big5_whatwg_decode_error_04() {
    let data = [
        0xA4, 0xB5, 0xA4, 0xE9, 0xC7, 0x56, 0x80, 0x61, 0xC6, 0xEA, 0xC7, 0x6F, 0xA1, 0x49,
    ]; // "今日はいいよ！" with an error on the fourth char (invalid sequence)
    let mut buf = [0u8; 64];
    let error = decode_to_str(&data, &mut buf, true);
    assert_eq!(
        error,
        Err(DecodeError {
            cause: DecodeErrorCause::InvalidData,
            error_range: (6, 7),
            output_bytes_written: 9,
        })
    );
    assert_eq!(&buf[..9], b"\xE4\xBB\x8A\xE6\x97\xA5\xE3\x81\xAF");
}

#[test]
fn big5_whatwg_decode_error_05() {
    let data = [
        0xA4, 0xB5, 0xA4, 0xE9, 0xC7, 0x56, 0xC6, 0xEA, 0xC6, 0xEA, 0xC7, 0x6F, 0xA1,
    ]; // "今日はいいよ！" with last byte chopped off.
    let mut buf = [0u8; 64];
    let error = decode_to_str(&data, &mut buf, true);
    assert_eq!(
        error,
        Err(DecodeError {
            cause: DecodeErrorCause::InvalidData,
            error_range: (12, 13),
            output_bytes_written: 18,
        })
    );
    assert_eq!(&buf[..18], "今日はいいよ".as_bytes());
}

#[test]
fn big5_whatwg_encode_01() {
    let text = "今日はいいよ！";
    let mut buf = [0u8; 1];
    let (written, consumed_count) = encode_from_str(text.as_bytes(), &mut buf, true).unwrap();
    assert_eq!(consumed_count, 0);
    assert_eq!(&buf[..written], &[]);
}

#[test]
fn big5_whatwg_encode_02() {
    let text = "今日はいいよ！";
    let mut buf = [0u8; 2];
    let (written, consumed_count) = encode_from_str(text.as_bytes(), &mut buf, true).unwrap();
    assert_eq!(consumed_count, 3);
    assert_eq!(&buf[..written], &[0xA4, 0xB5]);
}

#[test]
fn big5_whatwg_encode_03() {
    let text = "今日はいいよ！";
    let mut buf = [0u8; 3];
    let (written, consumed_count) = encode_from_str(text.as_bytes(), &mut buf, true).unwrap();
    assert_eq!(consumed_count, 3);
    assert_eq!(&buf[..written], &[0xA4, 0xB5]);
}

#[test]
fn big5_whatwg_encode_04() {
    let text = "今日aはbいいよ！";
    let mut buf = [0u8; 8];
    let (written, consumed_count) = encode_from_str(text.as_bytes(), &mut buf, true).unwrap();
    assert_eq!(consumed_count, 11);
    assert_eq!(&buf[..written], &[0xA4, 0xB5, 0xA4, 0xE9, 0x61, 0xC7, 0x56, 0x62]);
}

#[test]
fn big5_whatwg_encode_05() {
    let text = "今日😺はいいよ！";
    let mut buf = [0u8; 4];
    let (written, consumed_count) = encode_from_str(text.as_bytes(), &mut buf, true).unwrap();
    assert_eq!(consumed_count, 6);
    assert_eq!(&buf[..written], &[0xA4, 0xB5, 0xA4, 0xE9]);
}

#[test]
fn big5_whatwg_encode_06() {
    let text = "\u{00CA}\u{0304}";
    let mut buf = [0u8; 64];
    let (written, consumed_count) = encode_from_str(text.as_bytes(), &mut buf, true).unwrap();
    assert_eq!(consumed_count, 4);
    assert_eq!(&buf[..written], &[0x88, 0x62]);
}

#[test]
fn encode_07() {
    let text = "\u{00CA}\u{0304}";
    let mut buf = [0u8; 64];
    let (written, consumed_count) = encode_from_str(text.as_bytes(), &mut buf, false).unwrap();
    assert_eq!(consumed_count, 4);
    assert_eq!(&buf[..written], &[0x88, 0x62]);
}

#[test]
fn encode_08() {
    let text = "\u{00CA}";
    let mut buf = [0u8; 64];
    let (written, consumed_count) = encode_from_str(text.as_bytes(), &mut buf, true).unwrap();
    assert_eq!(consumed_count, 2);
    assert_eq!(&buf[..written], &[0x88, 0x66]);
}

#[test]
fn encode_09() {
    let text = "\u{00CA}";
    let mut buf = [0u8; 64];
    let (written, consumed_count) = encode_from_str(text.as_bytes(), &mut buf, false).unwrap();
    assert_eq!(consumed_count, 0);
    assert_eq!(&buf[..written], &[]);
}

#[test]
fn encode_10() {
    let text = "\u{00CA}よ";
    let mut buf = [0u8; 64];
    let (written, consumed_count) = encode_from_str(text.as_bytes(), &mut buf, true).unwrap();
    assert_eq!(consumed_count, 5);
    assert_eq!(&buf[..written], &[0x88, 0x66, 0xc7, 0x6f]);
}

#[test]
fn encode_11() {
    let text = "\u{00CA}よ";
    let mut buf = [0u8; 64];
    let (written, consumed_count) = encode_from_str(text.as_bytes(), &mut buf, false).unwrap();
    assert_eq!(consumed_count, 5);
    assert_eq!(&buf[..written], &[0x88, 0x66, 0xc7, 0x6f]);
}

#[test]
fn big5_whatwg_encode_error_01() {
    let text = "😺今日はいいよ！";
    let mut buf = [0u8; 64];
    assert_eq!(
        encode_from_str(text.as_bytes(), &mut buf, true),
        Err(EncodeError {
            character: '😺',
            error_range: (0, 4),
            output_bytes_written: 0,
        })
    );
}

#[test]
fn big5_whatwg_encode_error_02() {
    let text = "今日😺はいいよ！";
    let mut buf = [0u8; 64];
    assert_eq!(
        encode_from_str(text.as_bytes(), &mut buf, true),
        Err(EncodeError {
            character: '😺',
            error_range: (6, 10),
            output_bytes_written: 4,
        })
    );
    assert_eq!(&buf[..4], &[0xA4, 0xB5, 0xA4, 0xE9]);
}
