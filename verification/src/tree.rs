//! The snapshot data model and the failure taxonomy.

use vstd::prelude::*;

verus! {

/// One filesystem entry discovered while enumerating a directory, together
/// with the (already enumerated) entries below it. A snapshot is read fresh
/// for every invocation; for a non-directory entry `children` is ignored by
/// every consumer in this crate.
pub struct DirectoryEntry {
    /// The entry's base name, not a full path.
    pub name: String,
    /// Whether the entry is a directory.
    pub is_directory: bool,
    /// The entries contained in this entry, when it is a directory.
    pub children: Vec<DirectoryEntry>,
}

/// Why a tree request failed.
pub enum TreeError {
    /// The supplied path does not resolve to any filesystem entry.
    PathNotFound { path: String },
    /// The supplied path resolves to an entry that is not a directory.
    NotADirectory { path: String },
    /// An I/O error occurred while enumerating a directory's children.
    DirectoryReadFailure { detail: String },
}

/// The human-readable message carried to the caller for `e`.
pub open spec fn spec_message(e: TreeError) -> Seq<char> {
    match e {
        TreeError::PathNotFound { path } => "Percorso non esistente: "@ + path@,
        TreeError::NotADirectory { path } => "Il percorso non è una directory: "@ + path@,
        TreeError::DirectoryReadFailure { detail } => "Errore nella lettura della directory: "@
            + detail@,
    }
}

impl TreeError {
    /// The descriptive failure message surfaced to the caller; it always
    /// mentions the offending path (or the underlying I/O error text).
    pub fn message(&self) -> (m: String)
        ensures
            m@ == spec_message(*self),
    {
        match self {
            TreeError::PathNotFound { path } => String::from_str(
                "Percorso non esistente: ",
            ).concat(path.as_str()),
            TreeError::NotADirectory { path } => String::from_str(
                "Il percorso non è una directory: ",
            ).concat(path.as_str()),
            TreeError::DirectoryReadFailure { detail } => String::from_str(
                "Errore nella lettura della directory: ",
            ).concat(detail.as_str()),
        }
    }
}

} // verus!
