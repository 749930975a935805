//! The error taxonomy of the provenance engine.
//!
//! Every error aborts the whole invocation: the engine never retries (the
//! history it reads is immutable) and never returns a partial result.

use vstd::prelude::*;

verus! {

/// A fatal condition met while building an annotated listing.
#[derive(Clone, Debug, PartialEq, Eq)]
pub enum ListingError {
    /// The backend reported a file mode outside the five known kinds.
    UnrecognizedMode { mode: i32 },
    /// The requested path does not exist at the starting revision, carrying
    /// the offending repository-relative path.
    PathNotFound { path: Vec<String> },
    /// An I/O or object-store failure reported by the backend, wrapping the
    /// backend's own diagnostic.
    BackendReadFailure { detail: String },
    /// A fingerprint present in the current directory listing has no entry
    /// in the completed provenance index; a programming-error-class
    /// condition that a correct traversal never produces.
    InternalConsistency,
}

impl ListingError {
    /// A short description of this error, for presentation layers.
    pub fn describe(&self) -> (r: String)
        ensures
            r@.len() > 0,
    {
        let r = match self {
            ListingError::UnrecognizedMode { .. } => "unrecognized file mode",
            ListingError::PathNotFound { .. } => "path not found at the starting revision",
            ListingError::BackendReadFailure { .. } => "backend read failure",
            ListingError::InternalConsistency => "internal consistency failure",
        };
        proof {
            reveal_strlit("unrecognized file mode");
            reveal_strlit("path not found at the starting revision");
            reveal_strlit("backend read failure");
            reveal_strlit("internal consistency failure");
        }
        r.to_owned()
    }
}

} // verus!
