//! The error taxonomy of the store.
//!
//! Every operation reports failure through [`StoreError`]; no operation
//! terminates the process.

use vstd::prelude::*;

verus! {

/// Why a store operation failed.
#[derive(Debug, Clone, Copy, PartialEq, Eq, Structural)]
pub enum StoreError {
    /// The storage is missing or could not be opened.
    StorageUnreadable,
    /// The storage exists but its contents do not parse as a collection.
    CorruptFormat,
    /// Writing the storage back failed.
    StorageWriteFailed,
    /// The referenced list name has no entry in the collection.
    ListNotFound,
    /// An item index lies outside `[0, len)` of its list.
    OutOfRange,
}

impl StoreError {
    /// A human-readable description of the error, for callers that report it.
    pub fn describe(&self) -> (r: &'static str)
        ensures
            r@ == self.spec_describe(),
    {
        match self {
            StoreError::StorageUnreadable => "storage file is missing or unreadable",
            StoreError::CorruptFormat => "storage contents are not a valid collection",
            StoreError::StorageWriteFailed => "writing the storage back failed",
            StoreError::ListNotFound => "no list with that name exists",
            StoreError::OutOfRange => "item index is out of range",
        }
    }

    /// What [`StoreError::describe`] returns for each variant.
    pub open spec fn spec_describe(self) -> Seq<char> {
        match self {
            StoreError::StorageUnreadable => "storage file is missing or unreadable"@,
            StoreError::CorruptFormat => "storage contents are not a valid collection"@,
            StoreError::StorageWriteFailed => "writing the storage back failed"@,
            StoreError::ListNotFound => "no list with that name exists"@,
            StoreError::OutOfRange => "item index is out of range"@,
        }
    }
}

} // verus!
