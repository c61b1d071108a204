use vstd::prelude::*;

verus! {

/// The ways an index operation can be rejected. Every error is reported
/// synchronously at the offending call; a rejected operation mutates nothing.
#[derive(Clone, Copy, Debug, PartialEq, Eq, Structural)]
pub enum Error {
    /// Two points of different shapes (for vectors: different lengths) were
    /// asked for their distance.
    DimensionMismatch,
    /// A query was run against an index holding no entries.
    EmptyIndex,
    /// An insert re-used a key that the index already holds.
    DuplicateKey,
    /// An index was constructed with degenerate parameters.
    InvalidParameter,
}

impl Error {
    /// A short human-readable name for the error.
    pub fn describe(&self) -> (r: &'static str)
        ensures
            r@ == match self {
                Error::DimensionMismatch => "dimension mismatch"@,
                Error::EmptyIndex => "empty index"@,
                Error::DuplicateKey => "duplicate key"@,
                Error::InvalidParameter => "invalid parameter"@,
            },
    {
        match self {
            Error::DimensionMismatch => "dimension mismatch",
            Error::EmptyIndex => "empty index",
            Error::DuplicateKey => "duplicate key",
            Error::InvalidParameter => "invalid parameter",
        }
    }
}

} // verus!
