use text_encoding::utf32_le::decode_to_str;
use text_encoding::utf32_le::encode_from_str;
use text_encoding::DecodeError;
use text_encoding::DecodeErrorCause;

#[test]
fn utf32_le_encode_01() {
    let text = "こんにちは！";
    let mut buf = [0u8; 3];
    let (written, consumed_count) = encode_from_str(text.as_bytes(), &mut buf).unwrap();
    assert_eq!(consumed_count, 0);
    assert_eq!(&buf[..written], &[]);
}

#[test]
fn utf32_le_encode_02() {
    let text = "こんにちは！";
    let mut buf = [0u8; 4];
    let (written, consumed_count) = encode_from_str(text.as_bytes(), &mut buf).unwrap();
    assert_eq!(consumed_count, 3);
    assert_eq!(&buf[..written], &[0x53, 0x30, 0x00, 0x00]);
}

#[test]
fn utf32_le_encode_03() {
    let text = "こんにちは！";
    let mut buf = [0u8; 7];
    let (written, consumed_count) = encode_from_str(text.as_bytes(), &mut buf).unwrap();
    assert_eq!(consumed_count, 3);
    assert_eq!(&buf[..written], &[0x53, 0x30, 0x00, 0x00]);
}

#[test]
fn utf32_le_encode_04() {
    let text = "😺😼";
    let mut buf = [0u8; 3];
    let (written, consumed_count) = encode_from_str(text.as_bytes(), &mut buf).unwrap();
    assert_eq!(consumed_count, 0);
    assert_eq!(&buf[..written], &[]);
}

#[test]
fn utf32_le_encode_05() {
    let text = "😺😼";
    let mut buf = [0u8; 4];
    let (written, consumed_count) = encode_from_str(text.as_bytes(), &mut buf).unwrap();
    assert_eq!(consumed_count, 4);
    assert_eq!(&buf[..written], &[0x3A, 0xF6, 0x01, 0x00]);
}

#[test]
fn utf32_le_encode_06() {
    let text = "😺😼";
    let mut buf = [0u8; 7];
    let (written, consumed_count) = encode_from_str(text.as_bytes(), &mut buf).unwrap();
    assert_eq!(consumed_count, 4);
    assert_eq!(&buf[..written], &[0x3A, 0xF6, 0x01, 0x00]);
}

#[test]
fn utf32_le_decode_01() {
    let data = [
        0x53, 0x30, 0x00, 0x00, 0x93, 0x30, 0x00, 0x00, 0x6B, 0x30, 0x00, 0x00, 0x61, 0x30,
        0x00, 0x00, 0x6F, 0x30, 0x00, 0x00, 0x01, 0xFF, 0x00, 0x00,
    ]; // "こんにちは！"
    let mut buf = [0u8; 2];
    let (written, consumed_count) = decode_to_str(&data, &mut buf, true).unwrap();
    assert_eq!(consumed_count, 0);
    assert_eq!(&buf[..written], "".as_bytes());
}

#[test]
fn utf32_le_decode_02() {
    let data = [
        0x53, 0x30, 0x00, 0x00, 0x93, 0x30, 0x00, 0x00, 0x6B, 0x30, 0x00, 0x00, 0x61, 0x30,
        0x00, 0x00, 0x6F, 0x30, 0x00, 0x00, 0x01, 0xFF, 0x00, 0x00,
    ]; // "こんにちは！"
    let mut buf = [0u8; 3];
    let (written, consumed_count) = decode_to_str(&data, &mut buf, true).unwrap();
    assert_eq!(consumed_count, 4);
    assert_eq!(&buf[..written], "こ".as_bytes());
}

#[test]
fn utf32_le_decode_03() {
    let data = [
        0x53, 0x30, 0x00, 0x00, 0x93, 0x30, 0x00, 0x00, 0x6B, 0x30, 0x00, 0x00, 0x61, 0x30,
        0x00, 0x00, 0x6F, 0x30, 0x00, 0x00, 0x01, 0xFF, 0x00, 0x00,
    ]; // "こんにちは！"
    let mut buf = [0u8; 5];
    let (written, consumed_count) = decode_to_str(&data, &mut buf, true).unwrap();
    assert_eq!(consumed_count, 4);
    assert_eq!(&buf[..written], "こ".as_bytes());
}

#[test]
fn utf32_le_decode_04() {
    let data = [0x3A, 0xF6, 0x01, 0x00, 0x3C, 0xF6, 0x01, 0x00]; // "😺😼"
    let mut buf = [0u8; 3];
    let (written, consumed_count) = decode_to_str(&data, &mut buf, true).unwrap();
    assert_eq!(consumed_count, 0);
    assert_eq!(&buf[..written], "".as_bytes());
}

#[test]
fn utf32_le_decode_05() {
    let data = [0x3A, 0xF6, 0x01, 0x00, 0x3C, 0xF6, 0x01, 0x00]; // "😺😼"
    let mut buf = [0u8; 4];
    let (written, consumed_count) = decode_to_str(&data, &mut buf, true).unwrap();
    assert_eq!(consumed_count, 4);
    assert_eq!(&buf[..written], "😺".as_bytes());
}

#[test]
fn utf32_le_decode_06() {
    let data = [0x3A, 0xF6, 0x01, 0x00, 0x3C, 0xF6, 0x01, 0x00]; // "😺😼"
    let mut buf = [0u8; 7];
    let (written, consumed_count) = decode_to_str(&data, &mut buf, true).unwrap();
    assert_eq!(consumed_count, 4);
    assert_eq!(&buf[..written], "😺".as_bytes());
}

#[test]
fn utf32_le_decode_07() {
    let data = [0x3A, 0xF6, 0x01, 0x00, 0x3C, 0xF6, 0x01]; // "😺😼" with last byte chopped off.
    let mut buf = [0u8; 64];
    let (written, consumed_count) = decode_to_str(&data, &mut buf, false).unwrap();
    assert_eq!(consumed_count, 4);
    assert_eq!(&buf[..written], "😺".as_bytes());
}

#[test]
fn decode_08() {
    let data = [0x3A, 0xF6, 0x01, 0x00, 0x3C, 0xF6]; // "😺😼" with last 2 bytes chopped off.
    let mut buf = [0u8; 64];
    let (written, consumed_count) = decode_to_str(&data, &mut buf, false).unwrap();
    assert_eq!(consumed_count, 4);
    assert_eq!(&buf[..written], "😺".as_bytes());
}

#[test]
fn decode_09() {
    let data = [0x3A, 0xF6, 0x01, 0x00, 0x3C]; // "😺😼" with last 3 bytes chopped off.
    let mut buf = [0u8; 64];
    let (written, consumed_count) = decode_to_str(&data, &mut buf, false).unwrap();
    assert_eq!(consumed_count, 4);
    assert_eq!(&buf[..written], "😺".as_bytes());
}

#[test]
fn utf32_le_decode_error_01() {
    let data = [
        0x00, 0x00, 0x11, 0x00, 0x93, 0x30, 0x00, 0x00, 0x6B, 0x30, 0x00, 0x00, 0x61, 0x30,
        0x00, 0x00, 0x6F, 0x30, 0x00, 0x00, 0x01, 0xFF, 0x00, 0x00,
    ]; // "こんにちは！" with an error on the first char (value out of range)
    let mut buf = [0u8; 2];
    assert_eq!(
        decode_to_str(&data, &mut buf, true),
        Err(DecodeError {
            cause: DecodeErrorCause::InvalidData,
            error_range: (0, 4),
            output_bytes_written: 0,
        })
    );
}

#[test]
fn utf32_le_decode_error_02() {
    let data = [
        0x00, 0xD8, 0x00, 0x00, 0x93, 0x30, 0x00, 0x00, 0x6B, 0x30, 0x00, 0x00, 0x61, 0x30,
        0x00, 0x00, 0x6F, 0x30, 0x00, 0x00, 0x01, 0xFF, 0x00, 0x00,
    ]; // "こんにちは！" with an error on the first char (value in surrogate range)
    let mut buf = [0u8; 2];
    assert_eq!(
        decode_to_str(&data, &mut buf, true),
        Err(DecodeError {
            cause: DecodeErrorCause::InvalidData,
            error_range: (0, 4),
            output_bytes_written: 0,
        })
    );
}

#[test]
fn utf32_le_decode_error_03() {
    let data = [
        0xFF, 0xDF, 0x00, 0x00, 0x93, 0x30, 0x00, 0x00, 0x6B, 0x30, 0x00, 0x00, 0x61, 0x30,
        0x00, 0x00, 0x6F, 0x30, 0x00, 0x00, 0x01, 0xFF, 0x00, 0x00,
    ]; // "こんにちは！" with an error on the first char (value in surrogate range)
    let mut buf = [0u8; 64];
    assert_eq!(
        decode_to_str(&data, &mut buf, true),
        Err(DecodeError {
            cause: DecodeErrorCause::InvalidData,
            error_range: (0, 4),
            output_bytes_written: 0,
        })
    );
}

#[test]
fn utf32_le_decode_error_04() {
    let data = [
        0x53, 0x30, 0x00, 0x00, 0x00, 0x00, 0x11, 0x00, 0x6B, 0x30, 0x00, 0x00, 0x61, 0x30,
        0x00, 0x00, 0x6F, 0x30, 0x00, 0x00, 0x01, 0xFF, 0x00, 0x00,
    ]; // "こんにちは！" with an error on the second char (value out of range)
    let mut buf = [0u8; 64];
    assert_eq!(
        decode_to_str(&data, &mut buf, true),
        Err(DecodeError {
            cause: DecodeErrorCause::InvalidData,
            error_range: (4, 8),
            output_bytes_written: 3,
        })
    );
    assert_eq!(&buf[..3], &[0xE3, 0x81, 0x93]);
}

#[test]
fn utf32_le_decode_error_05() {
    let data = [
        0x53, 0x30, 0x00, 0x00, 0x00, 0xD8, 0x00, 0x00, 0x6B, 0x30, 0x00, 0x00, 0x61, 0x30,
        0x00, 0x00, 0x6F, 0x30, 0x00, 0x00, 0x01, 0xFF, 0x00, 0x00,
    ]; // "こんにちは！" with an error on the second char (value in surrogate range)
    let mut buf = [0u8; 64];
    assert_eq!(
        decode_to_str(&data, &mut buf, true),
        Err(DecodeError {
            cause: DecodeErrorCause::InvalidData,
            error_range: (4, 8),
            output_bytes_written: 3,
        })
    );
    assert_eq!(&buf[..3], &[0xE3, 0x81, 0x93]);
}

#[test]
fn decode_error_06() {
    let data = [
        0x53, 0x30, 0x00, 0x00, 0xFF, 0xDF, 0x00, 0x00, 0x6B, 0x30, 0x00, 0x00, 0x61, 0x30,
        0x00, 0x00, 0x6F, 0x30, 0x00, 0x00, 0x01, 0xFF, 0x00, 0x00,
    ]; // "こんにちは！" with an error on the second char (value in surrogate range)
    let mut buf = [0u8; 64];
    assert_eq!(
        decode_to_str(&data, &mut buf, true),
        Err(DecodeError {
            cause: DecodeErrorCause::InvalidData,
            error_range: (4, 8),
            output_bytes_written: 3,
        })
    );
    assert_eq!(&buf[..3], &[0xE3, 0x81, 0x93]);
}

#[test]
fn decode_error_07() {
    let data = [0x3A, 0xF6, 0x01, 0x00, 0x3C, 0xF6, 0x01]; // "😺😼" with last byte chopped off.
    let mut buf = [0u8; 64];
    assert_eq!(
        decode_to_str(&data, &mut buf, true),
        Err(DecodeError {
            cause: DecodeErrorCause::InvalidData,
            error_range: (4, 7),
            output_bytes_written: 4,
        })
    );
    assert_eq!(&buf[..4], &[0xF0, 0x9F, 0x98, 0xBA]);
}

#[test]
fn decode_error_08() {
    let data = [0x3A, 0xF6, 0x01, 0x00, 0x3C, 0xF6]; // "😺😼" with last 2 bytes chopped off.
    let mut buf = [0u8; 64];
    assert_eq!(
        decode_to_str(&data, &mut buf, true),
        Err(DecodeError {
            cause: DecodeErrorCause::InvalidData,
            error_range: (4, 6),
            output_bytes_written: 4,
        })
    );
    assert_eq!(&buf[..4], &[0xF0, 0x9F, 0x98, 0xBA]);
}

#[test]
fn decode_error_09() {
    let data = [0x3A, 0xF6, 0x01, 0x00, 0x3C]; // "😺😼" with last 3 bytes chopped off.
    let mut buf = [0u8; 64];
    assert_eq!(
        decode_to_str(&data, &mut buf, true),
        Err(DecodeError {
            cause: DecodeErrorCause::InvalidData,
            error_range: (4, 5),
            output_bytes_written: 4,
        })
    );
    assert_eq!(&buf[..4], &[0xF0, 0x9F, 0x98, 0xBA]);
}
