use ion_win::fileset::{FileIdentity, FileKind, FileRecord, FileSet};


#[test]
fn projection_does_not_discard_typed_identity() {
    let mut id = [0; 16];
    id[15] = 2;
    let record = FileRecord {
        path: "a.txt".into(),
        identity: FileIdentity { volume_id: Some(1), file_id: Some(id) },
        kind: FileKind::File,
        size: 3,
        modified: None,
        sha256: None,
    };
    let files = FileSet::new(vec![record], "test").select(&["path".into()]);
    assert_eq!(files.files[0].identity.file_id, Some(id));
    assert_eq!(files.to_table().rows[0].len(), 1);
}

#[test]
fn a_set_keeps_its_roots() {
    let set = FileSet::new(vec![], "find");
    assert!(set.provenance.roots.is_empty());
    let set = set.with_roots(vec!["/d".to_string()]).select(&["path".into()]);
    assert_eq!(set.provenance.producer, "find");
    assert_eq!(set.copy().provenance.roots, ["/d"]);
}
