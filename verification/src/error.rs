//! Errors of the storage layer.

use vstd::prelude::*;
use vstd::string::StringExecFns;

verus! {

/// What can go wrong in the storage layer.
#[derive(Debug, PartialEq, Eq)]
pub enum StorageError {
    /// Generic database/storage backend error
    Backend(String),
    /// Serialization/deserialization error
    Serialization(String),
    /// Invalid or corrupted data
    InvalidData(String),
    /// I/O error, as the text that describes it
    Io(String),
}

/// The text that stands before the description of an error of this kind.
pub open spec fn error_prefix(error: StorageError) -> Seq<char> {
    match error {
        StorageError::Backend(_) => "Storage backend error: "@,
        StorageError::Serialization(_) => "Serialization error: "@,
        StorageError::InvalidData(_) => "Invalid data: "@,
        StorageError::Io(_) => "I/O error: "@,
    }
}

/// The description that an error carries.
pub open spec fn error_detail(error: StorageError) -> Seq<char> {
    match error {
        StorageError::Backend(e) => e@,
        StorageError::Serialization(msg) => msg@,
        StorageError::InvalidData(msg) => msg@,
        StorageError::Io(e) => e@,
    }
}

impl StorageError {
    /// The error as a line of text: its kind, then its description.
    pub fn message(&self) -> (text: String)
        ensures
            text@ == error_prefix(*self) + error_detail(*self),
    {
        match self {
            StorageError::Backend(e) => "Storage backend error: ".to_owned().concat(e.as_str()),
            StorageError::Serialization(msg) => "Serialization error: ".to_owned().concat(
                msg.as_str(),
            ),
            StorageError::InvalidData(msg) => "Invalid data: ".to_owned().concat(msg.as_str()),
            StorageError::Io(e) => "I/O error: ".to_owned().concat(e.as_str()),
        }
    }
}

/// The result of a storage operation.
pub type Result<T> = std::result::Result<T, StorageError>;

} // verus!
