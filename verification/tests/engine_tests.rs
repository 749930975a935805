use glcm::backend::Backend;
use glcm::backend::RevisionRecord;
use glcm::backend::TreeEntryRecord;
use glcm::backend::TreeRecord;
use glcm::error::ListingError;
use glcm::index::build_index;
use glcm::listing::build_listing;
use glcm::mode::EntryKind;
use glcm::paths::PathComponent;
use glcm::reach::is_strict_ancestor;
use glcm::reach::reachable_from;

const DIR: i32 = 0o040000;
const FILE: i32 = 0o100644;
const LINK: i32 = 0o160000;

fn entry(name: &str, mode: i32, fingerprint: u64) -> TreeEntryRecord {
    TreeEntryRecord {
        name: name.to_string(),
        mode,
        fingerprint,
    }
}

fn tree(fingerprint: u64, entries: Vec<TreeEntryRecord>) -> TreeRecord {
    TreeRecord {
        fingerprint,
        entries,
    }
}

fn rev(parents: Vec<usize>, root_tree: u64, message: &str) -> RevisionRecord {
    RevisionRecord {
        parents,
        root_tree,
        message: message.to_string(),
    }
}

fn dir_path(name: &str) -> Vec<PathComponent> {
    vec![PathComponent::Normal {
        name: name.to_string(),
    }]
}

/// Root revision `A` holds `dir/f.txt` with content fingerprint 1; `B`
/// leaves it unchanged; `C` changes it to fingerprint 2.
fn three_revision_history() -> Backend {
    Backend {
        revisions: vec![
            rev(vec![], 20, "add f"),
            rev(vec![0], 20, "unrelated work"),
            rev(vec![1], 21, "change f"),
        ],
        trees: vec![
            tree(10, vec![entry("f.txt", FILE, 1)]),
            tree(11, vec![entry("f.txt", FILE, 2)]),
            tree(20, vec![entry("dir", DIR, 10)]),
            tree(21, vec![entry("dir", DIR, 11)]),
        ],
    }
}

/// A diamond: revision 3 merges the two branches 1 and 2 that share the
/// root 0.
fn diamond_history() -> Backend {
    Backend {
        revisions: vec![
            rev(vec![], 20, "root"),
            rev(vec![0], 20, "left branch"),
            rev(vec![0], 20, "right branch"),
            rev(vec![1, 2], 20, "merge"),
        ],
        trees: vec![
            tree(10, vec![entry("f.txt", FILE, 1)]),
            tree(20, vec![entry("dir", DIR, 10)]),
        ],
    }
}

#[test]
fn ancestry_covers_exactly_the_reachable_revisions() {
    let b = three_revision_history();
    let from_newest = reachable_from(&b, 2);
    assert_eq!(from_newest, vec![true, true, true]);
    let from_middle = reachable_from(&b, 1);
    assert_eq!(from_middle, vec![true, true, false]);
    let from_root = reachable_from(&b, 0);
    assert_eq!(from_root, vec![true, false, false]);
}

#[test]
fn diamond_merge_visits_every_revision_exactly_once() {
    let b = diamond_history();
    let visited = reachable_from(&b, 3);
    assert_eq!(visited, vec![true, true, true, true]);
    let distinct_reachable = 4;
    let visit_count = visited.iter().filter(|v| **v).count();
    assert_eq!(visit_count, distinct_reachable);
    let sibling_view = reachable_from(&b, 1);
    assert_eq!(sibling_view, vec![true, true, false, false]);
}

#[test]
fn strict_ancestors_follow_parent_links_only() {
    let b = diamond_history();
    assert!(is_strict_ancestor(&b, 0, 3));
    assert!(is_strict_ancestor(&b, 1, 3));
    assert!(is_strict_ancestor(&b, 2, 3));
    assert!(!is_strict_ancestor(&b, 3, 0));
    assert!(!is_strict_ancestor(&b, 1, 2));
    assert!(!is_strict_ancestor(&b, 1, 1));
}

#[test]
fn index_attributes_each_fingerprint_to_the_oldest_revision() {
    // `f` is introduced at revision 0 with fingerprint 1 and changed at
    // revision 2 to fingerprint 2; `g` keeps fingerprint 3 throughout.
    let b = Backend {
        revisions: vec![
            rev(vec![], 20, "m0"),
            rev(vec![0], 20, "m1"),
            rev(vec![1], 21, "m2"),
        ],
        trees: vec![
            tree(10, vec![entry("f", FILE, 1), entry("g", FILE, 3)]),
            tree(11, vec![entry("f", FILE, 2), entry("g", FILE, 3)]),
            tree(20, vec![entry("dir", DIR, 10)]),
            tree(21, vec![entry("dir", DIR, 11)]),
        ],
    };
    let names = vec!["dir".to_string()];
    let idx = build_index(&b, 2, &names);
    assert_eq!(idx.lookup(2), Some(2));
    assert_eq!(idx.lookup(1), Some(0));
    assert_eq!(idx.lookup(3), Some(0));
    assert_eq!(idx.lookup(99), None);
}

#[test]
fn index_covers_every_fingerprint_listed_at_the_start() {
    let b = three_revision_history();
    let names = vec!["dir".to_string()];
    let idx = build_index(&b, 2, &names);
    // Every fingerprint in the resolved directory at the starting
    // revision has an attribution: no internal-consistency miss.
    assert!(idx.lookup(2).is_some());
    let empty: Vec<String> = vec![];
    let root_idx = build_index(&b, 2, &empty);
    assert_eq!(root_idx.lookup(11), Some(2));
    assert_eq!(root_idx.lookup(10), Some(0));
}

#[test]
fn listing_attributes_a_change_to_the_revision_that_made_it() {
    let b = three_revision_history();
    let rows = build_listing(&b, 2, &dir_path("dir")).unwrap();
    assert_eq!(rows.len(), 1);
    assert_eq!(rows[0].name, "f.txt");
    assert_eq!(rows[0].kind, EntryKind::RegularFile);
    assert_eq!(rows[0].fingerprint, 2);
    assert_eq!(rows[0].attributed_revision, 2);
    assert_eq!(rows[0].attributed_message, "change f");
}

#[test]
fn listing_attributes_unchanged_content_to_its_introduction() {
    let b = three_revision_history();
    let rows = build_listing(&b, 1, &dir_path("dir")).unwrap();
    assert_eq!(rows.len(), 1);
    assert_eq!(rows[0].fingerprint, 1);
    assert_eq!(rows[0].attributed_revision, 0);
    assert_eq!(rows[0].attributed_message, "add f");
}

#[test]
fn listing_keeps_the_reported_entry_order() {
    let b = Backend {
        revisions: vec![rev(vec![], 20, "only")],
        trees: vec![
            tree(10, vec![entry("z", FILE, 1), entry("a", FILE, 2)]),
            tree(20, vec![entry("dir", DIR, 10)]),
        ],
    };
    let rows = build_listing(&b, 0, &dir_path("dir")).unwrap();
    assert_eq!(rows.len(), 2);
    assert_eq!(rows[0].name, "z");
    assert_eq!(rows[1].name, "a");
}

#[test]
fn revisions_where_the_path_is_absent_contribute_nothing() {
    // The path exists only from revision 1 onward; the root revision 0
    // must not break the build and must not appear in any attribution.
    let b = Backend {
        revisions: vec![rev(vec![], 30, "no dir yet"), rev(vec![0], 21, "add dir")],
        trees: vec![
            tree(11, vec![entry("f.txt", FILE, 2)]),
            tree(21, vec![entry("dir", DIR, 11)]),
            tree(30, vec![entry("other.txt", FILE, 9)]),
        ],
    };
    let rows = build_listing(&b, 1, &dir_path("dir")).unwrap();
    assert_eq!(rows.len(), 1);
    assert_eq!(rows[0].attributed_revision, 1);
    assert_eq!(rows[0].attributed_message, "add dir");
}

#[test]
fn merge_topology_listing_terminates_and_attributes_to_the_root() {
    let b = diamond_history();
    let rows = build_listing(&b, 3, &dir_path("dir")).unwrap();
    assert_eq!(rows.len(), 1);
    assert_eq!(rows[0].attributed_revision, 0);
    assert_eq!(rows[0].attributed_message, "root");
}

#[test]
fn empty_path_lists_the_root_directory() {
    let b = three_revision_history();
    let rows = build_listing(&b, 2, &vec![]).unwrap();
    assert_eq!(rows.len(), 1);
    assert_eq!(rows[0].name, "dir");
    assert_eq!(rows[0].kind, EntryKind::Directory);
    assert_eq!(rows[0].attributed_revision, 2);
}

#[test]
fn missing_path_is_reported_with_the_offending_path() {
    let b = three_revision_history();
    let err = build_listing(&b, 2, &dir_path("nope")).unwrap_err();
    assert_eq!(
        err,
        ListingError::PathNotFound {
            path: vec!["nope".to_string()]
        }
    );
}

#[test]
fn descending_into_a_file_is_path_not_found() {
    let b = three_revision_history();
    let path = vec![
        PathComponent::Normal {
            name: "dir".to_string(),
        },
        PathComponent::Normal {
            name: "f.txt".to_string(),
        },
    ];
    let err = build_listing(&b, 2, &path).unwrap_err();
    assert_eq!(
        err,
        ListingError::PathNotFound {
            path: vec!["dir".to_string(), "f.txt".to_string()]
        }
    );
}

#[test]
fn unnormalizable_path_is_path_not_found() {
    let b = three_revision_history();
    let path = vec![PathComponent::RootDir, PathComponent::ParentDir];
    let err = build_listing(&b, 2, &path).unwrap_err();
    assert_eq!(err, ListingError::PathNotFound { path: vec![] });
}

#[test]
fn unrecognized_mode_in_the_listing_is_fatal() {
    let b = Backend {
        revisions: vec![rev(vec![], 20, "only")],
        trees: vec![
            tree(10, vec![entry("odd", 0o100664, 1)]),
            tree(20, vec![entry("dir", DIR, 10)]),
        ],
    };
    let err = build_listing(&b, 0, &dir_path("dir")).unwrap_err();
    assert_eq!(err, ListingError::UnrecognizedMode { mode: 0o100664 });
}

#[test]
fn submodule_links_are_skipped_without_error() {
    let b = Backend {
        revisions: vec![rev(vec![], 20, "only")],
        trees: vec![
            tree(
                10,
                vec![entry("vendored", LINK, 7), entry("kept", FILE, 1)],
            ),
            tree(20, vec![entry("dir", DIR, 10)]),
        ],
    };
    let rows = build_listing(&b, 0, &dir_path("dir")).unwrap();
    assert_eq!(rows.len(), 1);
    assert_eq!(rows[0].name, "kept");
}

#[test]
fn reverted_content_is_attributed_to_its_first_introduction() {
    // Content with fingerprint 1 appears at revision 0, is replaced at
    // revision 1, and reappears at revision 2: the oldest-revision rule
    // attributes it to revision 0, not to the revert.
    let b = Backend {
        revisions: vec![
            rev(vec![], 20, "introduce"),
            rev(vec![0], 21, "replace"),
            rev(vec![1], 20, "revert"),
        ],
        trees: vec![
            tree(10, vec![entry("f", FILE, 1)]),
            tree(11, vec![entry("f", FILE, 2)]),
            tree(20, vec![entry("dir", DIR, 10)]),
            tree(21, vec![entry("dir", DIR, 11)]),
        ],
    };
    let rows = build_listing(&b, 2, &dir_path("dir")).unwrap();
    assert_eq!(rows[0].attributed_revision, 0);
    assert_eq!(rows[0].attributed_message, "introduce");
}
