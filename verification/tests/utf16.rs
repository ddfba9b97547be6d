use text_encoding::utf16_be;
use text_encoding::utf16_le;
use text_encoding::utf32_be;
use text_encoding::DecodeError;
use text_encoding::DecodeErrorCause;

#[test]
fn utf16_le_encode_bmp_and_pair() {
    let text = "aこ😺";
    let mut buf = [0u8; 16];
    let (w, c) = utf16_le::encode_from_str(text.as_bytes(), &mut buf).unwrap();
    assert_eq!(c, text.len());
    // 'a' = 0061, 'こ' = 3053, '😺' = D83D DE3A
    assert_eq!(&buf[..w], &[0x61, 0x00, 0x53, 0x30, 0x3D, 0xD8, 0x3A, 0xDE]);
}

#[test]
fn utf16_be_encode_bmp_and_pair() {
    let text = "aこ😺";
    let mut buf = [0u8; 16];
    let (w, c) = utf16_be::encode_from_str(text.as_bytes(), &mut buf).unwrap();
    assert_eq!(c, text.len());
    assert_eq!(&buf[..w], &[0x00, 0x61, 0x30, 0x53, 0xD8, 0x3D, 0xDE, 0x3A]);
}

#[test]
fn utf16_le_decode_pair() {
    let data = [0x3D, 0xD8, 0x3A, 0xDE]; // "😺"
    let mut buf = [0u8; 8];
    let (w, c) = utf16_le::decode_to_str(&data, &mut buf, true).unwrap();
    assert_eq!(c, 4);
    assert_eq!(&buf[..w], "😺".as_bytes());
}

#[test]
fn utf16_be_decode_pair() {
    let data = [0xD8, 0x3D, 0xDE, 0x3A]; // "😺"
    let mut buf = [0u8; 8];
    let (w, c) = utf16_be::decode_to_str(&data, &mut buf, true).unwrap();
    assert_eq!(c, 4);
    assert_eq!(&buf[..w], "😺".as_bytes());
}

#[test]
fn utf16_le_decode_waits_for_partial_unit() {
    // One whole unit and a dangling single byte.
    let data = [0x61, 0x00, 0x62];
    let mut buf = [0u8; 8];
    let (w, c) = utf16_le::decode_to_str(&data, &mut buf, false).unwrap();
    assert_eq!(c, 2);
    assert_eq!(&buf[..w], b"a");
}

#[test]
fn utf16_le_decode_waits_for_low_surrogate() {
    // A high surrogate with no partner yet.
    let data = [0x3D, 0xD8];
    let mut buf = [0u8; 8];
    let (w, c) = utf16_le::decode_to_str(&data, &mut buf, false).unwrap();
    assert_eq!((w, c), (0, 0));
}

#[test]
fn utf16_le_decode_error_partial_at_end() {
    let data = [0x61, 0x00, 0x62];
    let mut buf = [0u8; 8];
    assert_eq!(
        utf16_le::decode_to_str(&data, &mut buf, true),
        Err(DecodeError {
            cause: DecodeErrorCause::InvalidData,
            error_range: (2, 3),
            output_bytes_written: 1,
        })
    );
}

#[test]
fn utf16_le_decode_error_unpaired_high() {
    // A high surrogate followed by an ordinary unit.
    let data = [0x3D, 0xD8, 0x61, 0x00];
    let mut buf = [0u8; 8];
    assert_eq!(
        utf16_le::decode_to_str(&data, &mut buf, true),
        Err(DecodeError {
            cause: DecodeErrorCause::InvalidData,
            error_range: (0, 2),
            output_bytes_written: 0,
        })
    );
}

#[test]
fn utf16_le_decode_error_dangling_low() {
    let data = [0x3A, 0xDE, 0x61, 0x00];
    let mut buf = [0u8; 8];
    assert_eq!(
        utf16_le::decode_to_str(&data, &mut buf, true),
        Err(DecodeError {
            cause: DecodeErrorCause::InvalidData,
            error_range: (0, 2),
            output_bytes_written: 0,
        })
    );
}

#[test]
fn utf16_round_trip_bytes() {
    let text = "text in utf16 🎉 with surrogates";
    for be in [false, true] {
        let encode = if be { utf16_be::encode_from_str } else { utf16_le::encode_from_str };
        let decode = if be { utf16_be::decode_to_str } else { utf16_le::decode_to_str };
        let mut enc = [0u8; 128];
        let (we, ce) = encode(text.as_bytes(), &mut enc).unwrap();
        assert_eq!(ce, text.len());
        let mut dec = [0u8; 128];
        let (wd, cd) = decode(&enc[..we], &mut dec, true).unwrap();
        assert_eq!(cd, we);
        assert_eq!(&dec[..wd], text.as_bytes());
        let mut enc2 = [0u8; 128];
        let (we2, _) = encode(&dec[..wd], &mut enc2).unwrap();
        assert_eq!(&enc2[..we2], &enc[..we]);
    }
}

#[test]
fn utf32_be_encode_decode() {
    let text = "A😼";
    let mut buf = [0u8; 16];
    let (w, c) = utf32_be::encode_from_str(text.as_bytes(), &mut buf).unwrap();
    assert_eq!(c, text.len());
    assert_eq!(&buf[..w], &[0x00, 0x00, 0x00, 0x41, 0x00, 0x01, 0xF6, 0x3C]);

    let mut dec = [0u8; 16];
    let (wd, cd) = utf32_be::decode_to_str(&buf[..w], &mut dec, true).unwrap();
    assert_eq!(cd, w);
    assert_eq!(&dec[..wd], text.as_bytes());
}

#[test]
fn utf32_be_decode_error_out_of_range() {
    let data = [0x00, 0x11, 0x00, 0x00];
    let mut buf = [0u8; 8];
    assert_eq!(
        utf32_be::decode_to_str(&data, &mut buf, true),
        Err(DecodeError {
            cause: DecodeErrorCause::InvalidData,
            error_range: (0, 4),
            output_bytes_written: 0,
        })
    );
}
