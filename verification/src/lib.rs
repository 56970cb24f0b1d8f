//! Core of a local clipboard-history manager: text normalization and
//! previews, a change-detecting monitor state machine, and a verified,
//! size-bounded history store with search, favorites and tags.

use vstd::prelude::*;

pub mod config;
pub mod monitor;
pub mod preview;
pub mod snapshot;
pub mod store;
pub mod text;

verus! {

/// Error taxonomy of the library.
#[derive(Debug, Clone, PartialEq, Eq, Structural)]
pub enum ClipboardError {
    /// The shared clipboard resource could not be acquired after retries.
    ResourceUnavailable,
    /// The clipboard data could not be read or converted.
    ExtractionFailed,
    /// Writing new content to the clipboard failed.
    WriteFailed,
    /// The history store could not complete an operation.
    StorageError,
}

impl ClipboardError {
    /// A short human-readable description of the error.
    pub fn message(&self) -> (r: &'static str)
        ensures
            r@ == match self {
                ClipboardError::ResourceUnavailable => "unable to open clipboard"@,
                ClipboardError::ExtractionFailed => "failed to extract clipboard content"@,
                ClipboardError::WriteFailed => "failed to write clipboard content"@,
                ClipboardError::StorageError => "history store operation failed"@,
            },
    {
        match self {
            ClipboardError::ResourceUnavailable => "unable to open clipboard",
            ClipboardError::ExtractionFailed => "failed to extract clipboard content",
            ClipboardError::WriteFailed => "failed to write clipboard content",
            ClipboardError::StorageError => "history store operation failed",
        }
    }
}

} // verus!
