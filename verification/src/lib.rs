//! Provenance resolution engine for a version-controlled directory listing.
//!
//! Given a starting revision and a repository-relative path, the engine
//! resolves the directory at that path, walks the full ancestry of the
//! starting revision, builds an index from content fingerprint to the oldest
//! ancestor revision observed to contain that content, and joins the index
//! against the directory's entries to produce an annotated listing.

pub mod backend;
pub mod error;
pub mod index;
pub mod listing;
pub mod mode;
pub mod paths;
pub mod reach;

pub use backend::Backend;
pub use error::ListingError;
pub use listing::AnnotatedEntry;
pub use listing::build_listing;
pub use mode::EntryKind;
pub use mode::FileMode;
