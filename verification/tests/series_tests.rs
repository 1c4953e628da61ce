use curvepress::interp::{locate, Bracket};
use curvepress::series::{check_series, clamp_target};
use curvepress::{version, CpError};

#[test]
fn version_string() {
    assert_eq!(version(), "0.1.0");
}

#[test]
fn error_messages() {
    assert_eq!(CpError::BadInput.message(), "bad input");
    assert_eq!(CpError::Corrupt.message(), "corrupt stream");
}

#[test]
fn check_series_accepts_well_formed() {
    assert_eq!(check_series(&[0, 100_000, 200_000], 3), Ok(()));
    assert_eq!(check_series(&[i64::MIN, i64::MAX], 2), Ok(()));
    assert_eq!(check_series(&[42], 1), Ok(()));
}

#[test]
fn check_series_rejects_empty() {
    assert_eq!(check_series(&[], 0), Err(CpError::BadInput));
}

#[test]
fn check_series_rejects_length_mismatch() {
    assert_eq!(check_series(&[1, 2, 3], 2), Err(CpError::BadInput));
    assert_eq!(check_series(&[1, 2, 3], 4), Err(CpError::BadInput));
}

#[test]
fn check_series_rejects_non_monotonic() {
    assert_eq!(check_series(&[1, 2, 2, 3], 4), Err(CpError::BadInput));
    assert_eq!(check_series(&[1, 3, 2], 3), Err(CpError::BadInput));
}

#[test]
fn locate_clamps_before_first_and_after_last() {
    let ts = [10i64, 20, 30];
    assert_eq!(locate(&ts, 3, -5), Ok(Bracket::At(0)));
    assert_eq!(locate(&ts, 3, 31), Ok(Bracket::At(2)));
    assert_eq!(locate(&ts, 3, i64::MAX), Ok(Bracket::At(2)));
}

#[test]
fn locate_exact_support_points() {
    let ts = [10i64, 20, 30, 40];
    assert_eq!(locate(&ts, 4, 10), Ok(Bracket::At(0)));
    assert_eq!(locate(&ts, 4, 20), Ok(Bracket::At(1)));
    assert_eq!(locate(&ts, 4, 30), Ok(Bracket::At(2)));
    assert_eq!(locate(&ts, 4, 40), Ok(Bracket::At(3)));
}

#[test]
fn locate_between_points() {
    let ts = [10i64, 20, 30, 40, 50];
    assert_eq!(locate(&ts, 5, 11), Ok(Bracket::Between(0)));
    assert_eq!(locate(&ts, 5, 25), Ok(Bracket::Between(1)));
    assert_eq!(locate(&ts, 5, 39), Ok(Bracket::Between(2)));
    assert_eq!(locate(&ts, 5, 49), Ok(Bracket::Between(3)));
}

#[test]
fn locate_single_point() {
    assert_eq!(locate(&[7], 1, 0), Ok(Bracket::At(0)));
    assert_eq!(locate(&[7], 1, 7), Ok(Bracket::At(0)));
    assert_eq!(locate(&[7], 1, 9), Ok(Bracket::At(0)));
}

#[test]
fn locate_rejects_bad_series() {
    assert_eq!(locate(&[], 0, 0), Err(CpError::BadInput));
    assert_eq!(locate(&[1, 2], 3, 1), Err(CpError::BadInput));
    assert_eq!(locate(&[2, 1], 2, 1), Err(CpError::BadInput));
}

#[test]
fn locate_many_points_matches_linear_scan() {
    let ts: Vec<i64> = (0..1000).map(|i| i * 7 + 3).collect();
    for t in -10..7020 {
        let expected = if t <= ts[0] {
            Bracket::At(0)
        } else if t >= ts[999] {
            Bracket::At(999)
        } else {
            let i = ts.iter().rposition(|&x| x <= t).unwrap();
            if ts[i] == t {
                Bracket::At(i)
            } else {
                Bracket::Between(i)
            }
        };
        assert_eq!(locate(&ts, 1000, t), Ok(expected));
    }
}

#[test]
fn clamp_target_cases() {
    assert_eq!(clamp_target(200, 1000), 200);
    assert_eq!(clamp_target(0, 1000), 2);
    assert_eq!(clamp_target(1, 1000), 2);
    assert_eq!(clamp_target(5000, 1000), 1000);
    assert_eq!(clamp_target(10, 1), 1);
    assert_eq!(clamp_target(10, 0), 0);
    assert_eq!(clamp_target(clamp_target(1, 3), 3), 2);
}
