//! The errors of the index.

use vstd::prelude::*;

verus! {

/// Why a vector or a parameter was refused.
///
/// A query on an empty index is no error: it answers with an empty list.
/// An index that lacks its entry point while it holds points is not
/// well formed; every operation keeps the index well formed, so no
/// operation has to report that state.
#[derive(Clone, Copy, Debug, PartialEq, Eq, Structural)]
pub enum IndexError {
    /// The vector does not have the dimension of the stored points.
    DimensionMismatch,
    /// A count that must be positive is zero, or the beam is narrower than
    /// the number of results asked for.
    InvalidParameter,
}

impl IndexError {
    /// A short description of the error.
    pub fn message(&self) -> (text: String)
        ensures
            text@ == (match *self {
                IndexError::DimensionMismatch => "dimension mismatch"@,
                IndexError::InvalidParameter => "invalid parameter"@,
            }),
    {
        match self {
            IndexError::DimensionMismatch => "dimension mismatch".to_string(),
            IndexError::InvalidParameter => "invalid parameter".to_string(),
        }
    }
}

} // verus!
