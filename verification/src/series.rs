//! The checks that a series of support points must pass.
use crate::error::CpError;
use vstd::prelude::*;

verus! {

/// Every timestamp is strictly greater than the one before it.
pub open spec fn strictly_increasing(ts: Seq<i64>) -> bool {
    forall|i: int, j: int| 0 <= i < j < ts.len() ==> ts[i] < ts[j]
}

/// A series is well formed when it is non-empty, has one value per
/// timestamp and its timestamps are strictly increasing.
pub open spec fn valid_series(ts: Seq<i64>, n_values: nat) -> bool {
    &&& ts.len() > 0
    &&& ts.len() == n_values
    &&& strictly_increasing(ts)
}

/// Checks the timestamps of a series against the number of values that
/// come with them.
///
/// Returns `Ok(())` exactly when the series is well formed, and
/// `Err(CpError::BadInput)` otherwise.
pub fn check_series(ts: &[i64], n_values: usize) -> (r: Result<(), CpError>)
    ensures
        r is Ok <==> valid_series(ts@, n_values as nat),
        r is Err ==> r == Err::<(), CpError>(CpError::BadInput),
{
    if ts.len() == 0 || ts.len() != n_values {
        return Err(CpError::BadInput);
    }
    let mut i: usize = 1;
    while i < ts.len()
        invariant
            1 <= i <= ts.len(),
            forall|a: int, b: int| 0 <= a < b < i ==> ts@[a] < ts@[b],
        decreases ts.len() - i,
    {
        if ts[i - 1] >= ts[i] {
            return Err(CpError::BadInput);
        }
        i = i + 1;
    }
    Ok(())
}

/// The number of points that a count-targeted reduction keeps out of
/// `n_input`, when `n_out` are asked for: `n_out` clamped to `[2, n_input]`.
/// A series of fewer than two points is kept whole.
pub open spec fn target_points(n_out: nat, n_input: nat) -> nat {
    if n_input < 2 {
        n_input
    } else if n_out < 2 {
        2
    } else if n_out > n_input {
        n_input
    } else {
        n_out
    }
}

/// Clamps a requested number of output points to what a series of
/// `n_input` points can give.
pub fn clamp_target(n_out: usize, n_input: usize) -> (k: usize)
    ensures
        k == target_points(n_out as nat, n_input as nat),
        n_input < 2 ==> k == n_input,
        n_input >= 2 ==> k == vstd::math::min(vstd::math::max(n_out as int, 2), n_input as int),
        n_input >= 2 && n_out > n_input ==> k == n_input,
{
    if n_input < 2 {
        n_input
    } else if n_out < 2 {
        2
    } else if n_out > n_input {
        n_input
    } else {
        n_out
    }
}

/// A clamped target is `n_out` clamped to `[2, n_input]`, that is
/// `min(max(n_out, 2), n_input)`, and the whole series where it has fewer
/// than two points: asking for more points than there are keeps them all,
/// asking for fewer than two keeps two, and a request inside the range is
/// kept as it is. It never asks for more points than there are, and
/// clamping twice changes nothing.
pub proof fn lemma_target_points(n_out: nat, n_input: nat)
    ensures
        n_input < 2 ==> target_points(n_out, n_input) == n_input,
        n_input >= 2 ==> target_points(n_out, n_input) == vstd::math::min(
            vstd::math::max(n_out as int, 2),
            n_input as int,
        ),
        n_input >= 2 && n_out >= n_input ==> target_points(n_out, n_input) == n_input,
        n_input >= 2 && n_out <= 2 ==> target_points(n_out, n_input) == 2,
        target_points(n_out, n_input) <= n_input,
        n_input >= 2 ==> target_points(n_out, n_input) >= 2,
        2 <= n_out <= n_input ==> target_points(n_out, n_input) == n_out,
        target_points(target_points(n_out, n_input), n_input) == target_points(n_out, n_input),
{
}

} // verus!
