// Most of the testing below is done with iso-8859-7, since it has a few
// undefined characters, allowing us to test handling of those.

use text_encoding::single_byte::ascii;
use text_encoding::single_byte::iso_8859_1;
use text_encoding::single_byte::iso_8859_7::decode_to_str;
use text_encoding::single_byte::iso_8859_7::encode_from_str;
use text_encoding::DecodeError;
use text_encoding::DecodeErrorCause;
use text_encoding::EncodeError;

#[test]
fn single_byte_encode_01() {
    let text = "Hello world!";
    let mut buf = [0u8; 0];
    let (written, consumed_count) = encode_from_str(text.as_bytes(), &mut buf).unwrap();
    assert_eq!(consumed_count, 0);
    assert_eq!(&buf[..written], &[]);
}

#[test]
fn single_byte_encode_02() {
    let text = "Hello world!";
    let mut buf = [0u8; 1];
    let (written, consumed_count) = encode_from_str(text.as_bytes(), &mut buf).unwrap();
    assert_eq!(consumed_count, 1);
    assert_eq!(&buf[..written], "H".as_bytes());
}

#[test]
fn single_byte_encode_03() {
    let text = "Hello world!";
    let mut buf = [0u8; 2];
    let (written, consumed_count) = encode_from_str(text.as_bytes(), &mut buf).unwrap();
    assert_eq!(consumed_count, 2);
    assert_eq!(&buf[..written], "He".as_bytes());
}

#[test]
fn single_byte_encode_04() {
    let text = "Hello world!";
    let mut buf = [0u8; 64];
    let (written, consumed_count) = encode_from_str(text.as_bytes(), &mut buf).unwrap();
    assert_eq!(consumed_count, 12);
    assert_eq!(&buf[..written], "Hello world!".as_bytes());
}

#[test]
fn single_byte_encode_05() {
    let text = "Hello world!こ";
    let mut buf = [0u8; 12];
    let (written, consumed_count) = encode_from_str(text.as_bytes(), &mut buf).unwrap();
    assert_eq!(consumed_count, 12);
    assert_eq!(&buf[..written], "Hello world!".as_bytes());
}

#[test]
fn single_byte_decode_01() {
    let data = [
        0x48, 0x65, 0x6C, 0x6C, 0x6F, 0x20, 0x77, 0x6F, 0x72, 0x6C, 0x64, 0x21,
    ]; // "Hello world!"
    let mut buf = [0u8; 0];
    let (written, consumed_count) = decode_to_str(&data, &mut buf).unwrap();
    assert_eq!(consumed_count, 0);
    assert_eq!(&buf[..written], "".as_bytes());
}

#[test]
fn single_byte_decode_02() {
    let data = [
        0x48, 0x65, 0x6C, 0x6C, 0x6F, 0x20, 0x77, 0x6F, 0x72, 0x6C, 0x64, 0x21,
    ]; // "Hello world!"
    let mut buf = [0u8; 1];
    let (written, consumed_count) = decode_to_str(&data, &mut buf).unwrap();
    assert_eq!(consumed_count, 1);
    assert_eq!(&buf[..written], "H".as_bytes());
}

#[test]
fn single_byte_decode_03() {
    let data = [
        0x48, 0x65, 0x6C, 0x6C, 0x6F, 0x20, 0x77, 0x6F, 0x72, 0x6C, 0x64, 0x21,
    ]; // "Hello world!"
    let mut buf = [0u8; 2];
    let (written, consumed_count) = decode_to_str(&data, &mut buf).unwrap();
    assert_eq!(consumed_count, 2);
    assert_eq!(&buf[..written], "He".as_bytes());
}

#[test]
fn single_byte_decode_04() {
    let data = [
        0x48, 0x65, 0x6C, 0x6C, 0x6F, 0x20, 0x77, 0x6F, 0x72, 0x6C, 0x64, 0x21,
    ]; // "Hello world!"
    let mut buf = [0u8; 64];
    let (written, consumed_count) = decode_to_str(&data, &mut buf).unwrap();
    assert_eq!(consumed_count, 12);
    assert_eq!(&buf[..written], "Hello world!".as_bytes());
}

#[test]
fn single_byte_decode_05() {
    let data = [
        0xC1, 0xC2, 0xC3, 0xC4, 0xC5, 0xC6, 0xC7, 0xC8, 0xC9, 0xCA, 0xCB, 0xCC, 0xCD, 0xCE,
        0xCF, 0xD0, 0xD1, 0xD3, 0xD4, 0xD5, 0xD6, 0xD7, 0xD8, 0xD9,
    ]; // "ΑΒΓΔΕΖΗΘΙΚΛΜΝΞΟΠΡΣΤΥΦΧΨΩ"
    let mut buf = [0u8; 128];
    let (written, consumed_count) = decode_to_str(&data, &mut buf).unwrap();
    assert_eq!(consumed_count, 24);
    assert_eq!(&buf[..written], "ΑΒΓΔΕΖΗΘΙΚΛΜΝΞΟΠΡΣΤΥΦΧΨΩ".as_bytes());
}

#[test]
fn single_byte_encode_error_01() {
    let text = "こello world!";
    let mut buf = [0u8; 64];
    assert_eq!(
        encode_from_str(text.as_bytes(), &mut buf),
        Err(EncodeError {
            character: 'こ',
            error_range: (0, 3),
            output_bytes_written: 0,
        })
    );
}

#[test]
fn single_byte_encode_error_02() {
    let text = "\u{00C0}ello world!";
    let mut buf = [0u8; 64];
    assert_eq!(
        encode_from_str(text.as_bytes(), &mut buf),
        Err(EncodeError {
            character: '\u{00C0}',
            error_range: (0, 2),
            output_bytes_written: 0,
        })
    );
}

#[test]
fn encode_error_03() {
    let text = "Hこllo world!";
    let mut buf = [0u8; 64];
    assert_eq!(
        encode_from_str(text.as_bytes(), &mut buf),
        Err(EncodeError {
            character: 'こ',
            error_range: (1, 4),
            output_bytes_written: 1,
        })
    );
}

#[test]
fn encode_error_04() {
    let text = "H\u{00C0}llo world!";
    let mut buf = [0u8; 64];
    assert_eq!(
        encode_from_str(text.as_bytes(), &mut buf),
        Err(EncodeError {
            character: '\u{00C0}',
            error_range: (1, 3),
            output_bytes_written: 1,
        })
    );
}

#[test]
fn encode_error_05() {
    let text = "Heこlo world!";
    let mut buf = [0u8; 3];
    assert_eq!(
        encode_from_str(text.as_bytes(), &mut buf),
        Err(EncodeError {
            character: 'こ',
            error_range: (2, 5),
            output_bytes_written: 2,
        })
    );
}

#[test]
fn encode_error_06() {
    let text = "He\u{00C0}lo world!";
    let mut buf = [0u8; 3];
    assert_eq!(
        encode_from_str(text.as_bytes(), &mut buf),
        Err(EncodeError {
            character: '\u{00C0}',
            error_range: (2, 4),
            output_bytes_written: 2,
        })
    );
}

#[test]
fn single_byte_decode_error_01() {
    let data = [
        0x48, 0xAE, 0x6C, 0x6C, 0x6F, 0x20, 0x77, 0x6F, 0x72, 0x6C, 0x64, 0x21,
    ]; // "Hello world!" with an error on the second byte (undefined byte).
    let mut buf = [0u8; 64];
    let error = decode_to_str(&data, &mut buf);
    assert_eq!(
        error,
        Err(DecodeError {
            cause: DecodeErrorCause::InvalidData,
            error_range: (1, 2),
            output_bytes_written: 1,
        })
    );
}

#[test]
fn single_byte_decode_error_02() {
    let data = [
        0x48, 0xD2, 0x6C, 0x6C, 0x6F, 0x20, 0x77, 0x6F, 0x72, 0x6C, 0x64, 0x21,
    ]; // "Hello world!" with an error on the second byte (undefined byte).
    let mut buf = [0u8; 64];
    let error = decode_to_str(&data, &mut buf);
    assert_eq!(
        error,
        Err(DecodeError {
            cause: DecodeErrorCause::InvalidData,
            error_range: (1, 2),
            output_bytes_written: 1,
        })
    );
}

#[test]
fn single_byte_decode_error_03() {
    let data = [
        0x48, 0xFF, 0x6C, 0x6C, 0x6F, 0x20, 0x77, 0x6F, 0x72, 0x6C, 0x64, 0x21,
    ]; // "Hello world!" with an error on the second byte (undefined byte).
    let mut buf = [0u8; 64];
    let error = decode_to_str(&data, &mut buf);
    assert_eq!(
        error,
        Err(DecodeError {
            cause: DecodeErrorCause::InvalidData,
            error_range: (1, 2),
            output_bytes_written: 1,
        })
    );
}

#[test]
fn ascii_encode_error_01() {
    let text = "\u{0080}ello world!";
    let mut buf = [0u8; 64];
    assert_eq!(
        ascii::encode_from_str(text.as_bytes(), &mut buf),
        Err(EncodeError {
            character: '\u{0080}',
            error_range: (0, 2),
            output_bytes_written: 0,
        })
    );
}

#[test]
fn ascii_encode_error_02() {
    let text = "\u{00FF}ello world!";
    let mut buf = [0u8; 64];
    assert_eq!(
        ascii::encode_from_str(text.as_bytes(), &mut buf),
        Err(EncodeError {
            character: '\u{00FF}',
            error_range: (0, 2),
            output_bytes_written: 0,
        })
    );
}

#[test]
fn ascii_decode_error_01() {
    let data = [
        0x48, 0x80, 0x6C, 0x6C, 0x6F, 0x20, 0x77, 0x6F, 0x72, 0x6C, 0x64, 0x21,
    ]; // "Hello world!" with an error on the second byte (undefined byte).
    let mut buf = [0u8; 64];
    let error = ascii::decode_to_str(&data, &mut buf);
    assert_eq!(
        error,
        Err(DecodeError {
            cause: DecodeErrorCause::InvalidData,
            error_range: (1, 2),
            output_bytes_written: 1,
        })
    );
}

#[test]
fn ascii_decode_error_02() {
    let data = [
        0x48, 0xFF, 0x6C, 0x6C, 0x6F, 0x20, 0x77, 0x6F, 0x72, 0x6C, 0x64, 0x21,
    ]; // "Hello world!" with an error on the second byte (undefined byte).
    let mut buf = [0u8; 64];
    let error = ascii::decode_to_str(&data, &mut buf);
    assert_eq!(
        error,
        Err(DecodeError {
            cause: DecodeErrorCause::InvalidData,
            error_range: (1, 2),
            output_bytes_written: 1,
        })
    );
}

#[test]
fn encode_latin1_01() {
    let mut buf = [0u8; 64];
    // Make sure all the allowed code points encode correctly.
    for i in 0..=255u8 {
        let (written, consumed_count) = iso_8859_1::encode_from_str(
            (i as char).encode_utf8(&mut [0u8; 4]).as_bytes(),
            &mut buf,
        )
        .unwrap();
        assert_eq!(consumed_count, (i as char).len_utf8());
        assert_eq!(&buf[..written], &[i]);
    }
}

#[test]
fn decode_latin1_01() {
    let mut buf = [0u8; 64];
    // Make sure all the allowed code points encode correctly.
    for i in 0..=255u8 {
        let (written, consumed_count) = iso_8859_1::decode_to_str(&[i], &mut buf).unwrap();
        assert_eq!(consumed_count, 1);
        assert_eq!(&buf[..written], (i as char).encode_utf8(&mut [0u8; 4]).as_bytes());
    }
}
