use glcm::paths::normalize;
use glcm::paths::PathComponent;

fn normal(name: &str) -> PathComponent {
    PathComponent::Normal {
        name: name.to_string(),
    }
}

#[test]
fn already_normalized_path_is_returned_unchanged() {
    let path = vec![normal("src"), normal("lib"), normal("deep")];
    let names = normalize(&path).unwrap();
    assert_eq!(names, vec!["src".to_string(), "lib".to_string(), "deep".to_string()]);
}

#[test]
fn empty_path_normalizes_to_the_root() {
    let path: Vec<PathComponent> = vec![];
    assert_eq!(normalize(&path), Some(vec![]));
}

#[test]
fn leading_root_marker_is_stripped() {
    let path = vec![PathComponent::RootDir, normal("src"), normal("lib")];
    let names = normalize(&path).unwrap();
    assert_eq!(names, vec!["src".to_string(), "lib".to_string()]);
}

#[test]
fn leading_current_dir_marker_is_stripped() {
    let path = vec![PathComponent::CurDir, normal("docs")];
    assert_eq!(normalize(&path), Some(vec!["docs".to_string()]));
}

#[test]
fn leading_parent_dir_marker_is_stripped() {
    let path = vec![PathComponent::ParentDir, normal("docs")];
    assert_eq!(normalize(&path), Some(vec!["docs".to_string()]));
}

#[test]
fn leading_prefix_marker_is_stripped() {
    let path = vec![PathComponent::Prefix, PathComponent::RootDir, normal("a")];
    // The first marker ends the discarded region, so the second marker
    // survives into the remainder and the path is rejected.
    assert_eq!(normalize(&path), None);
}

#[test]
fn everything_up_to_the_first_marker_is_discarded() {
    let path = vec![normal("a"), PathComponent::ParentDir, normal("b")];
    assert_eq!(normalize(&path), Some(vec!["b".to_string()]));
}

#[test]
fn marker_in_the_remainder_is_rejected() {
    let path = vec![
        PathComponent::RootDir,
        normal("a"),
        PathComponent::ParentDir,
        normal("b"),
    ];
    assert_eq!(normalize(&path), None);
}

#[test]
fn normalizing_twice_gives_the_same_names() {
    let path = vec![PathComponent::CurDir, normal("x"), normal("y")];
    let once = normalize(&path).unwrap();
    let rewrapped: Vec<PathComponent> = once
        .iter()
        .map(|n| PathComponent::Normal { name: n.clone() })
        .collect();
    assert_eq!(normalize(&rewrapped), Some(once));
}
