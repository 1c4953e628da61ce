//! curvepress: the integer core of a lossy time series compressor.
//!
//! The library holds the parts of the pipeline that work on integers and
//! bytes, each with a contract:
//! - [`series`]: the checks that a series of timestamps must pass
//!   (non-empty, as many values as timestamps, strictly increasing), and
//!   the clamping of a target point count;
//! - [`varint`]: zigzag mapping of signed integers and LEB128 varints;
//! - [`packing`]: delta + zigzag + LEB128 packing of an integer stream;
//! - [`stream`]: the compressed byte stream (header, kept timestamps,
//!   quantized values) and its reader, which rejects every byte string that
//!   is not such a stream;
//! - [`interp`]: locating a query timestamp among the support points,
//!   which is what linear interpolation needs before any arithmetic.
//!
//! The `f64` work (point reduction, quantization of values to integers and
//! back, the interpolation formula) is done by the caller, which hands this
//! library timestamps, quantized integers and the bit patterns of the
//! quantization parameters.
mod error;
pub mod interp;
pub mod packing;
pub mod series;
pub mod stream;
pub mod varint;

pub use error::CpError;

use vstd::prelude::*;

verus! {

/// The version string of this library.
pub open spec fn spec_version() -> Seq<char> {
    "0.1.0"@
}

/// Semver string of this build.
pub fn version() -> (v: &'static str)
    ensures
        v@ == spec_version(),
{
    "0.1.0"
}

} // verus!
