use scalpel::errors::ScalpelError;
use scalpel::intelhex::{decode, encode};

#[test]
fn test_write_hex() {
    let mut bytes: Vec<u8> = Vec::new();
    for v in [1u64, 2, 3, 4, 5, 6, 7, 8, 9, 10, 11, 254] {
        bytes.extend_from_slice(&v.to_le_bytes());
    }

    let text = encode(&bytes);
    let content = String::from_utf8(text).expect("Encoded text is not valid text");

    let hex = ":1000000001000000000000000200000000000000ED
:1000100003000000000000000400000000000000D9
:1000200005000000000000000600000000000000C5
:1000300007000000000000000800000000000000B1
:1000400009000000000000000A000000000000009D
:100050000B00000000000000FE0000000000000097
:00000001FF";

    assert_eq!(content, hex);
}

#[test]
fn hex_convert_test_hex_convert() {
    let text = b":1000000004050607080A0B0C0D0E0F10111213142D\n:00000001FF";
    let res = decode(text);
    assert!(res.is_ok());
    assert_eq!(
        res.unwrap(),
        vec![0x04u8, 5, 6, 7, 8, 0x0A, 0x0B, 0x0C, 0x0D, 0x0E, 0x0F, 0x10, 0x11, 0x12, 0x13, 0x14]
    );
}

#[test]
fn intelhex_test_hex_convert() {
    let data = vec![0xDEu8, 0xAD, 0xBE, 0xEF];
    let text = encode(&data);
    let res = decode(&text);
    assert_eq!(res, Ok(data));
}

#[test]
fn hex_convert_test_eof_record() {
    // two zero bytes laid down, then the end-of-file record: the buffer
    // passes through unchanged
    let text = b":020000000000FE\n:00000001FF";
    // length 02, offset 0000, type 00, data 00 00, checksum FE
    let text = &text[..];
    let res = decode(text);
    assert_eq!(res, Ok(vec![0u8, 0]));
}

#[test]
fn intelhex_test_eof_record() {
    // everything after the end-of-file record is ignored
    let text = b":020000000000FE\n:00000001FF\n:02000000AAAAAA";
    let res = decode(&text[..]);
    assert_eq!(res, Ok(vec![0u8, 0]));
}

#[test]
fn hex_convert_test_bad_record() {
    // an extended-linear-address record (type 04) is unsupported
    let text = b":02000004000AF0";
    let res = decode(&text[..]);
    assert_eq!(res, Err(ScalpelError::HexError));
}

#[test]
fn intelhex_test_bad_record() {
    // record type 08 with payload 0x08: two's complement checksum of
    // 01 00 00 08 08 is EF
    let text = b":0100000808EF";
    let res = decode(&text[..]);
    assert_eq!(res, Err(ScalpelError::HexError));
}

#[test]
fn round_trip() {
    let mut data: Vec<u8> = Vec::new();
    let mut v: u8 = 0;
    for _ in 0..1000 {
        data.push(v);
        v = v.wrapping_add(37);
    }
    let text = encode(&data);
    assert_eq!(decode(&text), Ok(data));
}

#[test]
fn round_trip_empty_buffer() {
    let text = encode(&[]);
    assert_eq!(String::from_utf8(text.clone()).unwrap(), ":00000001FF");
    assert_eq!(decode(&text), Ok(vec![]));
}

#[test]
fn checksum_mismatch_is_refused() {
    let text = b":020000000000FF\n:00000001FF";
    let res = decode(&text[..]);
    assert_eq!(res, Err(ScalpelError::ChecksumError));
}

#[test]
fn malformed_line_is_refused() {
    assert_eq!(decode(b"garbage"), Err(ScalpelError::ContentError));
    // too short for even an empty record
    assert_eq!(decode(b":0000"), Err(ScalpelError::ContentError));
    // length byte does not match the data present
    assert_eq!(decode(b":030000000000FD"), Err(ScalpelError::ContentError));
}

#[test]
fn decode_zero_fills_gaps() {
    // two bytes at offset 4: the gap before them is zero-filled
    let text = b":02000400AABB95\n:00000001FF";
    let res = decode(&text[..]);
    assert_eq!(res, Ok(vec![0u8, 0, 0, 0, 0xAA, 0xBB]));
}

#[test]
fn decode_without_eof_keeps_what_was_read() {
    let text = b":02000000AABB99";
    let res = decode(&text[..]);
    assert_eq!(res, Ok(vec![0xAAu8, 0xBB]));
}
