//! A personal task-list manager: named lists of checkable text items,
//! persisted wholesale as a single serialized collection.
//!
//! The crate is organised leaves-first:
//! - [`error`] holds the error taxonomy shared by all operations;
//! - [`model`] holds the data model (`Item`, `List`, `Collection`) and its
//!   textual rendering;
//! - [`codec`] holds the storage format: a length-prefixed text encoding of a
//!   collection, with a proven decode-of-encode round trip;
//! - [`store`] holds the `Store`: whole-contents read-modify-write operations
//!   over the storage snapshot. Callers own the actual file I/O and hand the
//!   file's contents (or their absence) to the `Store`.

pub mod codec;
pub mod error;
pub mod model;
pub mod store;
