//! Error types for point cloud operations.

use vstd::prelude::*;

verus! {

/// Result alias for point cloud operations.
pub type CloudResult<T> = Result<T, CloudError>;

/// Error raised by point cloud operations.
///
/// Each variant carries a human-readable message; conversion to and from
/// richer error types (I/O errors, serialization errors) happens at the
/// boundary, outside the verified core.
#[derive(Clone, Debug)]
pub enum CloudError {
    /// I/O related errors.
    Io(String),
    /// Invalid point cloud format.
    FormatError(String),
    /// Algorithm execution failed.
    AlgorithmError(String),
    /// Invalid parameters provided.
    InvalidParameter(String),
    /// Memory allocation error.
    MemoryError(String),
    /// Search operation failed.
    SearchError(String),
    /// Serialization or deserialization error.
    SerializationError(String),
    /// Generic error with a custom message.
    Custom(String),
}

impl CloudError {
    /// Create a new format error.
    pub fn format_error(msg: String) -> (r: Self)
        ensures
            r == CloudError::FormatError(msg),
    {
        CloudError::FormatError(msg)
    }

    /// Create a new algorithm error.
    pub fn algorithm_error(msg: String) -> (r: Self)
        ensures
            r == CloudError::AlgorithmError(msg),
    {
        CloudError::AlgorithmError(msg)
    }

    /// Create a new invalid parameter error.
    pub fn invalid_parameter(msg: String) -> (r: Self)
        ensures
            r == CloudError::InvalidParameter(msg),
    {
        CloudError::InvalidParameter(msg)
    }

    /// Create a new memory error.
    pub fn memory_error(msg: String) -> (r: Self)
        ensures
            r == CloudError::MemoryError(msg),
    {
        CloudError::MemoryError(msg)
    }

    /// Create a new search error.
    pub fn search_error(msg: String) -> (r: Self)
        ensures
            r == CloudError::SearchError(msg),
    {
        CloudError::SearchError(msg)
    }

    /// Create a custom error.
    pub fn custom(msg: String) -> (r: Self)
        ensures
            r == CloudError::Custom(msg),
    {
        CloudError::Custom(msg)
    }
}

} // verus!
