use curvepress::varint::{read_uvarint, write_uvarint, zigzag_decode, zigzag_encode};
use curvepress::CpError;

fn encode(v: u64) -> Vec<u8> {
    let mut out = Vec::new();
    write_uvarint(&mut out, v);
    out
}

#[test]
fn zigzag_small_values_interleave() {
    assert_eq!(zigzag_encode(0), 0);
    assert_eq!(zigzag_encode(-1), 1);
    assert_eq!(zigzag_encode(1), 2);
    assert_eq!(zigzag_encode(-2), 3);
    assert_eq!(zigzag_encode(2), 4);
}

#[test]
fn zigzag_extremes() {
    assert_eq!(zigzag_encode(i64::MIN), u64::MAX);
    assert_eq!(zigzag_encode(i64::MAX), u64::MAX - 1);
    assert_eq!(zigzag_decode(u64::MAX), i64::MIN);
    assert_eq!(zigzag_decode(u64::MAX - 1), i64::MAX);
}

#[test]
fn zigzag_roundtrip_on_samples() {
    for n in [0i64, 1, -1, 63, -64, 12345, -98765, i64::MIN, i64::MAX, i64::MIN + 1] {
        assert_eq!(zigzag_decode(zigzag_encode(n)), n);
    }
    for u in [0u64, 1, 2, 3, 1000, u64::MAX, u64::MAX - 1, 1 << 63] {
        assert_eq!(zigzag_encode(zigzag_decode(u)), u);
    }
}

#[test]
fn leb128_known_encodings() {
    assert_eq!(encode(0), vec![0x00]);
    assert_eq!(encode(1), vec![0x01]);
    assert_eq!(encode(127), vec![0x7f]);
    assert_eq!(encode(128), vec![0x80, 0x01]);
    assert_eq!(encode(300), vec![0xac, 0x02]);
    assert_eq!(encode(16384), vec![0x80, 0x80, 0x01]);
    assert_eq!(
        encode(u64::MAX),
        vec![0xff, 0xff, 0xff, 0xff, 0xff, 0xff, 0xff, 0xff, 0xff, 0x01]
    );
}

#[test]
fn leb128_appends_to_existing_bytes() {
    let mut out = vec![9u8, 9];
    write_uvarint(&mut out, 300);
    assert_eq!(out, vec![9, 9, 0xac, 0x02]);
}

#[test]
fn leb128_roundtrip_with_trailing_bytes() {
    for v in [0u64, 5, 127, 128, 300, 1 << 40, u64::MAX] {
        let mut bytes = vec![0xee];
        write_uvarint(&mut bytes, v);
        let n = bytes.len() - 1;
        bytes.extend_from_slice(&[0x80, 0x00, 0x7f]);
        assert_eq!(read_uvarint(&bytes, 1), Ok((v, n)));
    }
}

#[test]
fn read_truncated_is_corrupt() {
    assert_eq!(read_uvarint(&[], 0), Err(CpError::Corrupt));
    assert_eq!(read_uvarint(&[0x80], 0), Err(CpError::Corrupt));
    assert_eq!(read_uvarint(&[0x01, 0xff, 0xff], 1), Err(CpError::Corrupt));
    assert_eq!(read_uvarint(&[0x01], 1), Err(CpError::Corrupt));
}

#[test]
fn read_non_canonical_is_corrupt() {
    assert_eq!(read_uvarint(&[0x80, 0x00], 0), Err(CpError::Corrupt));
    assert_eq!(read_uvarint(&[0x81, 0x80, 0x00], 0), Err(CpError::Corrupt));
}

#[test]
fn read_overflow_is_corrupt() {
    // 2^64: nine continuation bytes of zero groups, then a group of 2.
    let over = [0x80, 0x80, 0x80, 0x80, 0x80, 0x80, 0x80, 0x80, 0x80, 0x02];
    assert_eq!(read_uvarint(&over, 0), Err(CpError::Corrupt));
    // Eleven bytes: longer than any u64 encoding.
    let long = [0xff; 11];
    assert_eq!(read_uvarint(&long, 0), Err(CpError::Corrupt));
}

#[test]
fn read_largest_value() {
    let max = [0xff, 0xff, 0xff, 0xff, 0xff, 0xff, 0xff, 0xff, 0xff, 0x01];
    assert_eq!(read_uvarint(&max, 0), Ok((u64::MAX, 10)));
}
