//! Errors of the metadata tree.

use vstd::prelude::*;

verus! {

/// The standard library's I/O error, carried through unchanged.
#[verifier::external_type_specification]
#[verifier::external_body]
pub struct ExIoError(std::io::Error);

/// serde_json's error, carried through unchanged.
#[verifier::external_type_specification]
#[verifier::external_body]
pub struct ExJsonError(serde_json::Error);

/// What can go wrong while reading or changing the metadata tree.
#[derive(Debug)]
pub enum MetadataError {
    /// A character or form that names may not have.
    InvalidPathComponent(String),
    /// A name with no characters.
    EmptyPathComponent,
    /// The listing already holds an entry under this name.
    EntryAlreadyExists(String),
    /// The file system failed.
    Io(std::io::Error),
    /// A listing or block map could not be encoded or decoded.
    Json(serde_json::Error),
    /// A path component names a file, not a directory.
    NotADirectory(String),
}

} // verus!
