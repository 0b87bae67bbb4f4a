//! The failures that this library reports.

use vstd::prelude::*;

verus! {

/// Why a call was refused.
#[derive(Debug, Clone, Copy, PartialEq, Eq, Structural)]
pub enum SilenceError {
    /// A parameter has a value with which the operation is not defined, such
    /// as a chunk size of zero.
    InvalidParameter,
}

impl SilenceError {
    /// A line of text that describes the failure.
    pub fn message(&self) -> (text: &'static str)
        ensures
            text@ == "chunk_size must be greater than 0"@,
    {
        match self {
            SilenceError::InvalidParameter => "chunk_size must be greater than 0",
        }
    }
}

} // verus!
