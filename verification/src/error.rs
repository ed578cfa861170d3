//! Error type shared by the library.

use vstd::prelude::*;

verus! {

/// Main error type for the library.
#[derive(Debug, Clone, PartialEq)]
pub enum SdfError {
    /// A parameter is out of its admissible range.
    InvalidParameter(String),
    /// A computation could not be carried out.
    ComputationError(String),
    /// Signal processing failed.
    SignalProcessingError(String),
    /// The wavelet is not known.
    InvalidWavelet(String),
    /// Two shapes do not agree.
    ShapeMismatch { expected: String, actual: String },
}

/// Result type of the library's fallible operations.
pub type SdfResult<T> = core::result::Result<T, SdfError>;

/// Builds an `InvalidParameter` error from a message.
pub fn invalid_parameter(msg: &str) -> (e: SdfError)
    ensures
        e matches SdfError::InvalidParameter(m) && m@ == msg@,
{
    SdfError::InvalidParameter(String::from_str(msg))
}

/// Builds a `ComputationError` from a message.
pub fn computation_error(msg: &str) -> (e: SdfError)
    ensures
        e matches SdfError::ComputationError(m) && m@ == msg@,
{
    SdfError::ComputationError(String::from_str(msg))
}

} // verus!
