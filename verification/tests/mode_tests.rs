use glcm::error::ListingError;
use glcm::mode::classify;
use glcm::mode::indexable;
use glcm::mode::EntryKind;
use glcm::mode::FileMode;

#[test]
fn classify_is_total_over_the_five_standard_modes() {
    assert_eq!(classify(0o040000), Ok(EntryKind::Directory));
    assert_eq!(classify(0o100644), Ok(EntryKind::RegularFile));
    assert_eq!(classify(0o100755), Ok(EntryKind::ExecutableFile));
    assert_eq!(classify(0o120000), Ok(EntryKind::Symlink));
    assert_eq!(classify(0o160000), Ok(EntryKind::SubmoduleLink));
}

#[test]
fn classify_rejects_every_other_mode() {
    assert_eq!(classify(0), Err(ListingError::UnrecognizedMode { mode: 0 }));
    assert_eq!(classify(-1), Err(ListingError::UnrecognizedMode { mode: -1 }));
    assert_eq!(
        classify(0o100664),
        Err(ListingError::UnrecognizedMode { mode: 0o100664 })
    );
    assert_eq!(
        classify(0o040001),
        Err(ListingError::UnrecognizedMode { mode: 0o040001 })
    );
}

#[test]
fn from_i32_recognizes_each_mode_constant() {
    assert_eq!(FileMode::from_i32(0o040000), Some(FileMode::Directory));
    assert_eq!(FileMode::from_i32(0o100644), Some(FileMode::File));
    assert_eq!(
        FileMode::from_i32(0o100664),
        Some(FileMode::GroupWriteableFile)
    );
    assert_eq!(FileMode::from_i32(0o100755), Some(FileMode::Executable));
    assert_eq!(FileMode::from_i32(0o120000), Some(FileMode::Symlink));
    assert_eq!(FileMode::from_i32(0o160000), Some(FileMode::Gitlink));
    assert_eq!(FileMode::from_i32(0), None);
    assert_eq!(FileMode::from_i32(0o777), None);
}

#[test]
fn mode_value_round_trips_through_is() {
    let modes = [
        FileMode::Directory,
        FileMode::File,
        FileMode::GroupWriteableFile,
        FileMode::Executable,
        FileMode::Symlink,
        FileMode::Gitlink,
    ];
    for m in modes {
        assert!(m.is(m.value()));
        assert_eq!(FileMode::from_i32(m.value()), Some(m));
    }
    assert!(!FileMode::Directory.is(0o100644));
}

#[test]
fn mode_predicates_follow_the_variant() {
    assert!(FileMode::File.is_file());
    assert!(FileMode::GroupWriteableFile.is_file());
    assert!(FileMode::Executable.is_file());
    assert!(!FileMode::Directory.is_file());
    assert!(FileMode::Directory.is_dir());
    assert!(!FileMode::Symlink.is_dir());
    assert!(FileMode::Symlink.is_symlink());
    assert!(!FileMode::Gitlink.is_symlink());
    assert!(FileMode::Gitlink.is_gitlink());
    assert!(!FileMode::File.is_gitlink());
}

#[test]
fn indexable_excludes_submodules_and_unknown_modes() {
    assert!(indexable(0o040000));
    assert!(indexable(0o100644));
    assert!(indexable(0o100755));
    assert!(indexable(0o120000));
    assert!(!indexable(0o160000));
    assert!(!indexable(0o100664));
    assert!(!indexable(7));
}

#[test]
fn errors_describe_themselves() {
    assert!(!ListingError::InternalConsistency.describe().is_empty());
    assert!(!ListingError::UnrecognizedMode { mode: 1 }.describe().is_empty());
    assert!(!ListingError::PathNotFound { path: vec![] }.describe().is_empty());
    assert!(!ListingError::BackendReadFailure {
        detail: "missing object".to_string()
    }
    .describe()
    .is_empty());
}
