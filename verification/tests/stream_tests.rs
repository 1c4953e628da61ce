use curvepress::stream::{decode_stream, encode_stream, raw_size, QuantHeader};
use curvepress::CpError;

fn header() -> QuantHeader {
    QuantHeader { quant_bits: 12, offset_bits: 1.5f64.to_bits(), step_bits: 0.25f64.to_bits() }
}

#[test]
fn encode_known_bytes() {
    let h = QuantHeader { quant_bits: 3, offset_bits: 0, step_bits: 1 };
    let out = encode_stream(&[10, 20], &[1, -1], h).unwrap();
    // n = 2, quant_bits = 3, offset 0, step 1, ts deltas 10, 10 -> 20, 20,
    // values deltas 1, -2 -> 2, 3
    assert_eq!(out, vec![2, 3, 0, 1, 20, 20, 2, 3]);
}

#[test]
fn encode_decode_roundtrip() {
    let ts: Vec<i64> = (0..500).map(|i| 1_700_000_000_000_000_000 + i * 100_000).collect();
    let q: Vec<i64> = (0..500).map(|i| (i * 37) % 4096 - 100).collect();
    let h = header();
    let out = encode_stream(&ts, &q, h).unwrap();
    let (ts2, q2, h2) = decode_stream(&out).unwrap();
    assert_eq!(ts2, ts);
    assert_eq!(q2, q);
    assert_eq!(h2, h);
}

#[test]
fn roundtrip_extreme_values() {
    let ts = [i64::MIN, -1, 0, i64::MAX];
    let q = [i64::MAX, i64::MIN, 0, 7];
    let h = QuantHeader { quant_bits: u32::MAX, offset_bits: u64::MAX, step_bits: 0 };
    let out = encode_stream(&ts, &q, h).unwrap();
    assert_eq!(decode_stream(&out), Ok((ts.to_vec(), q.to_vec(), h)));
}

#[test]
fn encode_rejects_bad_series() {
    let h = header();
    assert_eq!(encode_stream(&[], &[], h), Err(CpError::BadInput));
    assert_eq!(encode_stream(&[1, 2], &[5], h), Err(CpError::BadInput));
    assert_eq!(encode_stream(&[2, 2], &[5, 6], h), Err(CpError::BadInput));
}

#[test]
fn decode_rejects_empty_and_truncated() {
    assert_eq!(decode_stream(&[]), Err(CpError::Corrupt));
    let out = encode_stream(&[10, 20, 30], &[1, 2, 3], header()).unwrap();
    for cut in 0..out.len() {
        assert_eq!(decode_stream(&out[..cut]), Err(CpError::Corrupt));
    }
}

#[test]
fn decode_rejects_trailing_bytes() {
    let mut out = encode_stream(&[10, 20, 30], &[1, 2, 3], header()).unwrap();
    out.push(0);
    assert_eq!(decode_stream(&out), Err(CpError::Corrupt));
}

#[test]
fn decode_rejects_zero_points() {
    assert_eq!(decode_stream(&[0, 1, 0, 0]), Err(CpError::Corrupt));
}

#[test]
fn decode_rejects_non_increasing_timestamps() {
    // n = 2, header, timestamps 5, 5 (deltas 5, 0), values 0, 0
    assert_eq!(decode_stream(&[2, 1, 0, 0, 10, 0, 0, 0]), Err(CpError::Corrupt));
}

#[test]
fn decode_rejects_wide_quant_bits() {
    // quant_bits = 2^32 does not fit a u32.
    let bytes = [1, 0x80, 0x80, 0x80, 0x80, 0x10, 0, 0, 2, 0];
    assert_eq!(decode_stream(&bytes), Err(CpError::Corrupt));
}

#[test]
fn decode_rejects_count_beyond_data() {
    assert_eq!(decode_stream(&[100, 1, 0, 0, 2, 2]), Err(CpError::Corrupt));
}

#[test]
fn raw_size_is_sixteen_bytes_per_point() {
    assert_eq!(raw_size(0), 0);
    assert_eq!(raw_size(1), 16);
    assert_eq!(raw_size(100_000), 1_600_000);
}
