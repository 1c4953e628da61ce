use curvepress::packing::{pack, unpack};
use curvepress::CpError;

#[test]
fn pack_known_bytes() {
    // deltas 1, 2, -1 -> zigzag 2, 4, 1
    assert_eq!(pack(&[1, 3, 2]), vec![2, 4, 1]);
    // first delta is taken from zero
    assert_eq!(pack(&[-1]), vec![1]);
    assert_eq!(pack(&[]), Vec::<u8>::new());
}

#[test]
fn pack_timestamps_in_nanoseconds() {
    // 100 us spacing: delta 100_000 -> zigzag 200_000 -> 0xc0 0x9a 0x0c
    let ts = [0i64, 100_000, 200_000];
    assert_eq!(pack(&ts), vec![0x00, 0xc0, 0x9a, 0x0c, 0xc0, 0x9a, 0x0c]);
}

#[test]
fn unpack_pack_roundtrip() {
    let streams: Vec<Vec<i64>> = vec![
        vec![],
        vec![0],
        vec![1, 3, 2],
        vec![i64::MIN, i64::MAX, 0, i64::MAX, i64::MIN],
        vec![1_700_000_000_000_000_000, 1_700_000_000_000_100_000, 1_700_000_000_000_200_000],
        (0..200).map(|i| i * i - 5000).collect(),
    ];
    for xs in streams {
        let mut bytes = vec![0x7f, 0x7f];
        let packed = pack(&xs);
        bytes.extend_from_slice(&packed);
        bytes.extend_from_slice(&[0xff, 0x00]);
        let (back, end) = unpack(&bytes, 2, xs.len()).unwrap();
        assert_eq!(back, xs);
        assert_eq!(end, 2 + packed.len());
    }
}

#[test]
fn unpack_zero_count_reads_nothing() {
    assert_eq!(unpack(&[0x80], 1, 0), Ok((vec![], 1)));
}

#[test]
fn unpack_too_many_is_corrupt() {
    let bytes = pack(&[5, 6, 7]);
    assert_eq!(unpack(&bytes, 0, 4), Err(CpError::Corrupt));
}

#[test]
fn unpack_truncated_is_corrupt() {
    let bytes = pack(&[0, 100_000]);
    assert_eq!(unpack(&bytes[..bytes.len() - 1], 0, 2), Err(CpError::Corrupt));
}
