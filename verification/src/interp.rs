//! Locating a query timestamp among the support points of a series.
//!
//! Interpolation at `t` reads one support value where `t` falls on a
//! support timestamp or outside the covered range (flat extrapolation), and
//! two neighbouring values where `t` falls strictly between two support
//! timestamps. [`locate`] decides which, and where.
use crate::error::CpError;
use crate::series::{check_series, strictly_increasing, valid_series};
use vstd::prelude::*;

verus! {

/// Where a query timestamp falls among the support timestamps.
#[derive(Debug, Clone, Copy, PartialEq, Eq, Structural)]
pub enum Bracket {
    /// The query takes the value at this index as it is: it is that
    /// support timestamp, or lies before the first or after the last.
    At(usize),
    /// The query lies strictly between the timestamps at this index and
    /// the next one.
    Between(usize),
}

/// `b` is where `t` falls among the timestamps `ts`.
pub open spec fn brackets(ts: Seq<i64>, t: i64, b: Bracket) -> bool {
    match b {
        Bracket::At(i) => {
            &&& i < ts.len()
            &&& (ts[i as int] == t || (i == 0 && t < ts[0]) || (i == ts.len() - 1 && t
                > ts[ts.len() - 1]))
        },
        Bracket::Between(i) => {
            &&& i + 1 < ts.len()
            &&& ts[i as int] < t < ts[i + 1]
        },
    }
}

/// Locates `t` among the support timestamps `ts` of a series with
/// `n_values` values.
///
/// Fails with `CpError::BadInput` exactly when the series is not well
/// formed (empty, mismatched lengths, timestamps not strictly increasing);
/// otherwise returns where `t` falls ([`lemma_bracket_unique`] shows that
/// there is one such answer).
pub fn locate(ts: &[i64], n_values: usize, t: i64) -> (r: Result<Bracket, CpError>)
    ensures
        r is Ok <==> valid_series(ts@, n_values as nat),
        r is Err ==> r == Err::<Bracket, CpError>(CpError::BadInput),
        r matches Ok(b) ==> brackets(ts@, t, b),
{
    check_series(ts, n_values)?;
    let n: usize = ts.len();
    if t <= ts[0] {
        return Ok(Bracket::At(0));
    }
    if t >= ts[n - 1] {
        return Ok(Bracket::At(n - 1));
    }
    let mut lo: usize = 0;
    let mut hi: usize = n - 1;
    while hi - lo > 1
        invariant
            n == ts.len(),
            lo < hi < n,
            ts@[lo as int] < t < ts@[hi as int] || (ts@[lo as int] == t && t < ts@[hi as int]),
        decreases hi - lo,
    {
        let mid: usize = lo + (hi - lo) / 2;
        if ts[mid] <= t {
            lo = mid;
        } else {
            hi = mid;
        }
    }
    if ts[lo] == t {
        Ok(Bracket::At(lo))
    } else {
        Ok(Bracket::Between(lo))
    }
}

/// In a well-formed series, each query timestamp falls in one place only.
pub proof fn lemma_bracket_unique(ts: Seq<i64>, t: i64, b1: Bracket, b2: Bracket)
    requires
        strictly_increasing(ts),
        brackets(ts, t, b1),
        brackets(ts, t, b2),
    ensures
        b1 == b2,
{
    match (b1, b2) {
        (Bracket::At(i), Bracket::At(j)) => {
            if i != j {
                assert(ts[0] <= ts[i as int] || i == 0);
                assert(ts[0] <= ts[j as int] || j == 0);
                assert(ts[ts.len() - 1] >= ts[i as int] || i == ts.len() - 1);
                assert(ts[ts.len() - 1] >= ts[j as int] || j == ts.len() - 1);
                if i < j {
                    assert(ts[i as int] < ts[j as int]);
                } else {
                    assert(ts[j as int] < ts[i as int]);
                }
            }
        },
        (Bracket::At(i), Bracket::Between(j)) => {
            assert(ts[0] <= ts[j as int]);
            assert(ts[j + 1] <= ts[ts.len() - 1]);
            if i <= j {
                assert(ts[i as int] <= ts[j as int]);
            } else {
                assert(ts[j + 1] <= ts[i as int]);
            }
        },
        (Bracket::Between(i), Bracket::At(j)) => {
            assert(ts[0] <= ts[i as int]);
            assert(ts[i + 1] <= ts[ts.len() - 1]);
            if j <= i {
                assert(ts[j as int] <= ts[i as int]);
            } else {
                assert(ts[i + 1] <= ts[j as int]);
            }
        },
        (Bracket::Between(i), Bracket::Between(j)) => {
            if i < j {
                assert(ts[i + 1] <= ts[j as int]);
            } else if j < i {
                assert(ts[j + 1] <= ts[i as int]);
            }
        },
    }
}

} // verus!
