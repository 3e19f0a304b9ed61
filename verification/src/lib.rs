//! Storage core of a desktop note-taking application.
//!
//! Notes are individual text files in a memo directory; two sidecar
//! documents track pin state and a custom listing order, keyed by
//! filename.  This crate holds the verified logic: merging files with
//! the sidecar stores into one deterministically ordered listing,
//! self-healing the order store, and the mutation rules (save/rename,
//! pin toggling, reorder, import collision resolution, filename
//! sanitization).  All file and directory I/O lives outside the crate;
//! callers hand in plain values and apply the returned plans.

pub mod config;
pub mod ext;
pub mod laws;
pub mod listing;
pub mod notes;
pub mod sidecar;
pub mod strutil;

use vstd::prelude::*;

verus! {

/// Failures the storage core itself can decide (I/O failures are the
/// caller's to report).
#[derive(Clone, Copy, PartialEq, Eq, Structural, Debug)]
pub enum MemoError {
    /// A source file's extension is not one of the accepted note kinds.
    UnsupportedType,
    /// Collision resolution ran out of numeric suffixes.
    CapacityExceeded,
    /// The platform reported no home directory.
    NoHomeDirectory,
}

impl MemoError {
    /// A short description, for callers that surface errors as text.
    pub fn message(&self) -> (r: &'static str)
        ensures
            r@.len() > 0,
    {
        proof {
            reveal_strlit("unsupported file type");
            reveal_strlit("too many files with this name");
            reveal_strlit("could not determine home directory");
        }
        match self {
            MemoError::UnsupportedType => "unsupported file type",
            MemoError::CapacityExceeded => "too many files with this name",
            MemoError::NoHomeDirectory => "could not determine home directory",
        }
    }
}

} // verus!
