use sendme_core::{
    build_manifest, plan_sources, ContentHash, EntryKind, ImportedFile, IngestError, PathComponent,
    PathError, WalkEntry,
};

fn entry(kind: EntryKind, parts: &[&str]) -> WalkEntry {
    WalkEntry {
        kind,
        relative: parts.iter().map(|p| PathComponent::Normal(p.to_string())).collect(),
    }
}

fn imported(name: &str, tag: u8, size: u64) -> ImportedFile {
    ImportedFile { name: name.to_string(), hash: ContentHash { bytes: [tag; 32] }, size }
}

#[test]
fn plan_keeps_regular_files_and_skips_links() {
    let es = vec![
        entry(EntryKind::Directory, &["docs"]),
        entry(EntryKind::File, &["docs", "a.txt"]),
        entry(EntryKind::Symlink, &["docs", "link"]),
        entry(EntryKind::Directory, &["docs", "sub"]),
        entry(EntryKind::File, &["docs", "sub", "b.txt"]),
        entry(EntryKind::Symlink, &["docs", "sub", "other"]),
    ];
    let plan = plan_sources(&es).unwrap();
    assert_eq!(plan.len(), 2);
    assert_eq!(plan[0].name, "docs/a.txt");
    assert_eq!(plan[0].index, 1);
    assert_eq!(plan[1].name, "docs/sub/b.txt");
    assert_eq!(plan[1].index, 4);
}

#[test]
fn plan_of_single_file() {
    let es = vec![entry(EntryKind::File, &["report.pdf"])];
    let plan = plan_sources(&es).unwrap();
    assert_eq!(plan.len(), 1);
    assert_eq!(plan[0].name, "report.pdf");
}

#[test]
fn plan_rejects_bad_file_name() {
    let es = vec![entry(EntryKind::File, &["docs", "a\\b"])];
    assert!(matches!(
        plan_sources(&es),
        Err(IngestError::InvalidPath(PathError::InvalidComponent))
    ));
}

#[test]
fn plan_ignores_bad_names_of_links() {
    let es = vec![entry(EntryKind::Symlink, &["docs", "a\\b"])];
    assert_eq!(plan_sources(&es).unwrap().len(), 0);
}

#[test]
fn manifest_of_two_files_is_sorted_with_total() {
    let m = build_manifest(vec![imported("sub/b.txt", 2, 5), imported("a.txt", 1, 3)]);
    assert_eq!(m.total_size, 8);
    assert_eq!(m.entries.len(), 2);
    assert_eq!(m.entries[0].name, "a.txt");
    assert_eq!(m.entries[0].hash.bytes, [1; 32]);
    assert_eq!(m.entries[1].name, "sub/b.txt");
    assert_eq!(m.entries[1].hash.bytes, [2; 32]);
}

#[test]
fn manifest_sorts_by_code_point() {
    let m = build_manifest(vec![
        imported("b", 1, 1),
        imported("a/z", 2, 1),
        imported("B", 3, 1),
        imported("a", 4, 1),
        imported("é", 5, 1),
        imported("ab", 6, 1),
    ]);
    let names: Vec<&str> = m.entries.iter().map(|e| e.name.as_str()).collect();
    assert_eq!(names, vec!["B", "a", "a/z", "ab", "b", "é"]);
    assert_eq!(m.total_size, 6);
}

#[test]
fn empty_manifest() {
    let m = build_manifest(Vec::new());
    assert_eq!(m.entries.len(), 0);
    assert_eq!(m.total_size, 0);
}

#[test]
fn manifest_total_reaches_largest_size() {
    let m = build_manifest(vec![imported("x", 1, u64::MAX - 1), imported("y", 2, 1)]);
    assert_eq!(m.total_size, u64::MAX);
}

#[test]
fn manifest_names_are_strictly_increasing() {
    let es = vec![
        entry(EntryKind::File, &["d", "b"]),
        entry(EntryKind::File, &["d", "a"]),
        entry(EntryKind::File, &["d", "c", "a"]),
    ];
    let plan = plan_sources(&es).unwrap();
    let files: Vec<ImportedFile> =
        plan.iter().rev().map(|s| imported(&s.name, s.index as u8, 1)).collect();
    let m = build_manifest(files);
    let names: Vec<&str> = m.entries.iter().map(|e| e.name.as_str()).collect();
    assert_eq!(names, vec!["d/a", "d/b", "d/c/a"]);
    assert!(names.windows(2).all(|w| w[0] < w[1]));
}
