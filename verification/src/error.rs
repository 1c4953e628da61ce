use vstd::prelude::*;

verus! {

/// Errors of the library.
///
/// - `BadInput`: the caller's data breaks a precondition of the format
///   (empty arrays, mismatched lengths, timestamps that are not strictly
///   increasing).
/// - `Corrupt`: a byte stream is truncated or malformed.
#[derive(Debug, Clone, Copy, PartialEq, Eq, Structural)]
pub enum CpError {
    BadInput,
    Corrupt,
}

impl CpError {
    /// A short human-readable description of the error.
    pub fn message(&self) -> (m: &'static str)
        ensures
            m@ == (match *self {
                CpError::BadInput => "bad input"@,
                CpError::Corrupt => "corrupt stream"@,
            }),
    {
        match self {
            CpError::BadInput => "bad input",
            CpError::Corrupt => "corrupt stream",
        }
    }
}

} // verus!
