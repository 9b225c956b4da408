use sendme_core::{
    canonicalized_path_to_string, export_targets, first_conflict, get_export_path,
    validate_path_component, ContentHash, Manifest, ManifestEntry, PathComponent, PathError, ReceiveError,
};

fn normal(s: &str) -> PathComponent {
    PathComponent::Normal(s.to_string())
}

fn strings(parts: &[&str]) -> Vec<String> {
    parts.iter().map(|p| p.to_string()).collect()
}

#[test]
fn encodes_relative_path() {
    let path = vec![normal("docs"), normal("sub"), normal("b.txt")];
    assert_eq!(canonicalized_path_to_string(&path, true).unwrap(), "docs/sub/b.txt");
}

#[test]
fn encodes_single_component() {
    let path = vec![normal("a.txt")];
    assert_eq!(canonicalized_path_to_string(&path, true).unwrap(), "a.txt");
}

#[test]
fn encodes_root_marker_when_absolute_allowed() {
    let path = vec![PathComponent::RootDir, normal("home"), normal("x")];
    assert_eq!(canonicalized_path_to_string(&path, false).unwrap(), "/home/x");
}

#[test]
fn rejects_root_marker_when_relative_required() {
    let path = vec![PathComponent::RootDir, normal("home")];
    assert_eq!(canonicalized_path_to_string(&path, true), Err(PathError::InvalidComponent));
}

#[test]
fn rejects_dot_components() {
    for c in [PathComponent::ParentDir, PathComponent::CurDir, PathComponent::Prefix] {
        let path = vec![normal("a"), c, normal("b")];
        assert_eq!(canonicalized_path_to_string(&path, false), Err(PathError::InvalidComponent));
    }
}

#[test]
fn rejects_separator_inside_component() {
    let path = vec![normal("a\\b")];
    assert_eq!(canonicalized_path_to_string(&path, true), Err(PathError::InvalidComponent));
    let path = vec![normal("a/b")];
    assert_eq!(canonicalized_path_to_string(&path, true), Err(PathError::InvalidComponent));
}

#[test]
fn rejects_non_unicode_component() {
    let path = vec![normal("a"), PathComponent::NotUnicode];
    assert_eq!(canonicalized_path_to_string(&path, true), Err(PathError::InvalidComponent));
}

#[test]
fn empty_path_encodes_to_empty_string() {
    assert_eq!(canonicalized_path_to_string(&Vec::new(), true).unwrap(), "");
}

#[test]
fn validates_components() {
    assert_eq!(validate_path_component("a.txt"), Ok(()));
    assert_eq!(validate_path_component("a..b"), Ok(()));
    assert_eq!(validate_path_component(".."), Err(PathError::TraversalAttempt));
    assert_eq!(validate_path_component("a/b"), Err(PathError::TraversalAttempt));
    assert_eq!(validate_path_component("a\\b"), Err(PathError::TraversalAttempt));
}

#[test]
fn export_path_joins_segments_onto_root() {
    let p = get_export_path(strings(&["out"]), "sub/b.txt").unwrap();
    assert_eq!(p, strings(&["out", "sub", "b.txt"]));
}

#[test]
fn export_path_refuses_traversal() {
    assert_eq!(get_export_path(strings(&["out"]), "../etc/passwd"), Err(PathError::TraversalAttempt));
    assert_eq!(get_export_path(strings(&["out"]), "a/../../x"), Err(PathError::TraversalAttempt));
    assert_eq!(get_export_path(strings(&["out"]), "a\\..\\x"), Err(PathError::TraversalAttempt));
}

#[test]
fn encoded_names_resolve_inside_root() {
    let path = vec![normal("docs"), normal("sub"), normal("b.txt")];
    let name = canonicalized_path_to_string(&path, true).unwrap();
    let p = get_export_path(strings(&["dest", "out"]), &name).unwrap();
    assert_eq!(p, strings(&["dest", "out", "docs", "sub", "b.txt"]));
}

#[test]
fn conflict_message_names_target() {
    let m = Manifest {
        entries: vec![
            ManifestEntry { name: "a.txt".to_string(), hash: ContentHash { bytes: [1; 32] } },
            ManifestEntry { name: "sub/b.txt".to_string(), hash: ContentHash { bytes: [2; 32] } },
        ],
        total_size: 8,
    };
    let targets = export_targets(&strings(&["out"]), &m).unwrap();
    assert_eq!(targets.len(), 2);
    assert_eq!(targets[0], strings(&["out", "a.txt"]));
    assert_eq!(targets[1], strings(&["out", "sub", "b.txt"]));
}

#[test]
fn export_targets_refuse_escaping_manifest() {
    let m = Manifest {
        entries: vec![
            ManifestEntry { name: "a.txt".to_string(), hash: ContentHash { bytes: [1; 32] } },
            ManifestEntry { name: "../evil".to_string(), hash: ContentHash { bytes: [2; 32] } },
        ],
        total_size: 0,
    };
    assert_eq!(export_targets(&strings(&["out"]), &m).err(), Some(PathError::TraversalAttempt));
}

#[test]
fn first_existing_target_is_the_conflict() {
    assert_eq!(first_conflict(&vec![false, true, true]), Some(1));
    assert_eq!(first_conflict(&vec![true, false]), Some(0));
    assert_eq!(first_conflict(&vec![false, false]), None);
    assert_eq!(first_conflict(&Vec::new()), None);
}

#[test]
fn receive_into_existing_file_reports_that_file() {
    let m = Manifest {
        entries: vec![
            ManifestEntry { name: "a.txt".to_string(), hash: ContentHash { bytes: [1; 32] } },
            ManifestEntry { name: "sub/b.txt".to_string(), hash: ContentHash { bytes: [2; 32] } },
        ],
        total_size: 8,
    };
    let targets = export_targets(&strings(&["out"]), &m).unwrap();
    let exists = vec![true, false];
    let err = first_conflict(&exists).map(|i| ReceiveError::ExportConflict(targets[i].join("/")));
    assert_eq!(err, Some(ReceiveError::ExportConflict("out/a.txt".to_string())));
}

#[test]
fn rooted_name_resolves_below_root() {
    let path = vec![PathComponent::RootDir, normal("etc"), normal("passwd")];
    let name = canonicalized_path_to_string(&path, false).unwrap();
    assert_eq!(name, "/etc/passwd");
    let p = get_export_path(strings(&["out"]), &name).unwrap();
    assert_eq!(p, strings(&["out", "", "etc", "passwd"]));
}
