//! Classification of backend-reported numeric file modes.
//!
//! The backend describes each directory entry with a numeric mode. `FileMode`
//! enumerates the mode constants themselves, including the legacy
//! group-writeable variant; `EntryKind` is the closed five-kind classification
//! the provenance engine works with, where an unrecognized mode is a fatal
//! classification error.

use vstd::prelude::*;

verus! {

use crate::error::ListingError;

/// The numeric file modes a backend may report for a directory entry.
#[derive(Clone, Copy, Debug, PartialEq, Eq, Structural)]
pub enum FileMode {
    Directory,
    File,
    GroupWriteableFile,
    Executable,
    Symlink,
    Gitlink,
}

impl FileMode {
    /// The numeric value of this mode.
    pub open spec fn spec_value(self) -> i32 {
        match self {
            FileMode::Directory => 0o040000,
            FileMode::File => 0o100644,
            FileMode::GroupWriteableFile => 0o100664,
            FileMode::Executable => 0o100755,
            FileMode::Symlink => 0o120000,
            FileMode::Gitlink => 0o160000,
        }
    }

    /// The numeric value of this mode.
    pub fn value(self) -> (r: i32)
        ensures
            r == self.spec_value(),
    {
        match self {
            FileMode::Directory => 0o040000,
            FileMode::File => 0o100644,
            FileMode::GroupWriteableFile => 0o100664,
            FileMode::Executable => 0o100755,
            FileMode::Symlink => 0o120000,
            FileMode::Gitlink => 0o160000,
        }
    }

    /// Whether `other` is the numeric value of this mode.
    pub fn is(self, other: i32) -> (r: bool)
        ensures
            r == (self.spec_value() == other),
    {
        self.value() == other
    }

    /// The mode whose numeric value is `from`, if any.
    pub fn from_i32(from: i32) -> (r: Option<Self>)
        ensures
            match r {
                Some(m) => m.spec_value() == from,
                None => forall|m: FileMode| m.spec_value() != from,
            },
    {
        if FileMode::Directory.is(from) {
            Some(FileMode::Directory)
        } else if FileMode::File.is(from) {
            Some(FileMode::File)
        } else if FileMode::GroupWriteableFile.is(from) {
            Some(FileMode::GroupWriteableFile)
        } else if FileMode::Executable.is(from) {
            Some(FileMode::Executable)
        } else if FileMode::Symlink.is(from) {
            Some(FileMode::Symlink)
        } else if FileMode::Gitlink.is(from) {
            Some(FileMode::Gitlink)
        } else {
            None
        }
    }

    /// Whether this mode denotes a regular or executable file.
    pub fn is_file(self) -> (r: bool)
        ensures
            r == (self is File || self is GroupWriteableFile || self is Executable),
    {
        match self {
            FileMode::File | FileMode::GroupWriteableFile | FileMode::Executable => true,
            _ => false,
        }
    }

    /// Whether this mode denotes a directory.
    pub fn is_dir(self) -> (r: bool)
        ensures
            r == (self is Directory),
    {
        match self {
            FileMode::Directory => true,
            _ => false,
        }
    }

    /// Whether this mode denotes a symbolic link.
    pub fn is_symlink(self) -> (r: bool)
        ensures
            r == (self is Symlink),
    {
        match self {
            FileMode::Symlink => true,
            _ => false,
        }
    }

    /// Whether this mode denotes a link to another repository.
    pub fn is_gitlink(self) -> (r: bool)
        ensures
            r == (self is Gitlink),
    {
        match self {
            FileMode::Gitlink => true,
            _ => false,
        }
    }
}

/// The kind of a directory entry, derived from its numeric mode.
///
/// This is a closed set: the backend's contract guarantees that only these
/// five shapes exist, so classification rejects every other mode instead of
/// guessing.
#[derive(Clone, Copy, Debug, PartialEq, Eq, Structural)]
pub enum EntryKind {
    Directory,
    RegularFile,
    ExecutableFile,
    Symlink,
    SubmoduleLink,
}

/// The numeric mode of a directory.
pub const MODE_DIRECTORY: i32 = 0o040000;

/// The numeric mode of a regular file.
pub const MODE_REGULAR_FILE: i32 = 0o100644;

/// The numeric mode of an executable file.
pub const MODE_EXECUTABLE_FILE: i32 = 0o100755;

/// The numeric mode of a symbolic link.
pub const MODE_SYMLINK: i32 = 0o120000;

/// The numeric mode of a submodule link.
pub const MODE_SUBMODULE_LINK: i32 = 0o160000;

/// The classification of numeric mode `mode`: one of the five standard
/// kinds, or `None` for every other value.
pub open spec fn classify_spec(mode: i32) -> Option<EntryKind> {
    if mode == MODE_DIRECTORY {
        Some(EntryKind::Directory)
    } else if mode == MODE_REGULAR_FILE {
        Some(EntryKind::RegularFile)
    } else if mode == MODE_EXECUTABLE_FILE {
        Some(EntryKind::ExecutableFile)
    } else if mode == MODE_SYMLINK {
        Some(EntryKind::Symlink)
    } else if mode == MODE_SUBMODULE_LINK {
        Some(EntryKind::SubmoduleLink)
    } else {
        None
    }
}

/// Classify a backend-reported numeric mode into an `EntryKind`.
///
/// Total over the five standard modes; every other value fails with
/// `UnrecognizedMode` instead of guessing.
pub fn classify(mode: i32) -> (r: Result<EntryKind, ListingError>)
    ensures
        match r {
            Ok(k) => classify_spec(mode) == Some(k),
            Err(e) => classify_spec(mode) is None && e == (ListingError::UnrecognizedMode {
                mode,
            }),
        },
{
    if mode == MODE_DIRECTORY {
        Ok(EntryKind::Directory)
    } else if mode == MODE_REGULAR_FILE {
        Ok(EntryKind::RegularFile)
    } else if mode == MODE_EXECUTABLE_FILE {
        Ok(EntryKind::ExecutableFile)
    } else if mode == MODE_SYMLINK {
        Ok(EntryKind::Symlink)
    } else if mode == MODE_SUBMODULE_LINK {
        Ok(EntryKind::SubmoduleLink)
    } else {
        Err(ListingError::UnrecognizedMode { mode })
    }
}

/// Whether entries of mode `mode` take part in provenance indexing and in
/// the annotated listing: directories, files and symbolic links do, while
/// submodule links point outside the repository's object store and are
/// skipped.
pub open spec fn indexable_spec(mode: i32) -> bool {
    match classify_spec(mode) {
        Some(k) => !(k is SubmoduleLink),
        None => false,
    }
}

/// Whether entries of mode `mode` take part in provenance indexing.
pub fn indexable(mode: i32) -> (r: bool)
    ensures
        r == indexable_spec(mode),
{
    match classify(mode) {
        Ok(k) => match k {
            EntryKind::SubmoduleLink => false,
            _ => true,
        },
        Err(_) => false,
    }
}

} // verus!
