use knawledge::db::Database;
use knawledge::error::{KnawledgeError, StoreViolation};
use knawledge::models::{Document, EntryKind};

fn doc(id: u128, dir: u128, file_name: &str, path: &str) -> Document {
    Document {
        id,
        file_name: file_name.to_owned(),
        directory: dir,
        path: path.to_owned(),
        title: None,
        custom_id: None,
        created_at: 0,
        updated_at: 0,
    }
}

#[test]
fn insert_directory_then_get_by_path_round_trip() {
    let mut db = Database::new();
    let d = db.insert_directory("/notes", "notes", None).unwrap();
    let got = db.get_dir_by_path("/notes").unwrap().unwrap();
    assert_eq!(got.path, "/notes");
    assert_eq!(got.name, "notes");
    assert_eq!(got.parent, None);
    assert_eq!(got, d);
}

#[test]
fn insert_directory_duplicate_path_is_refused() {
    let mut db = Database::new();
    db.insert_directory("/notes", "notes", None).unwrap();
    let r = db.insert_directory("/notes", "other", None);
    assert_eq!(r, Err(KnawledgeError::Store(StoreViolation::DuplicatePath)));
}

#[test]
fn insert_directory_missing_parent_is_refused() {
    let mut db = Database::new();
    let r = db.insert_directory("/notes/sub", "sub", Some(42));
    assert_eq!(r, Err(KnawledgeError::Store(StoreViolation::MissingParent)));
}

#[test]
fn insert_document_same_id_twice_keeps_first_metadata() {
    let mut db = Database::new();
    let root = db.insert_directory("/notes", "notes", None).unwrap();
    let mut first = doc(7, root.id, "a.md", "/notes/a.md");
    first.title = Some("First title".to_owned());
    first.custom_id = Some("alias-a".to_owned());
    first.created_at = 11;
    first.updated_at = 12;
    db.insert_document(first).unwrap();

    let mut second = doc(7, root.id, "b.md", "/notes/b.md");
    second.title = Some("Second title".to_owned());
    second.custom_id = Some("alias-b".to_owned());
    second.created_at = 99;
    second.updated_at = 99;
    db.insert_document(second).unwrap();

    let rows = db.list_existing(root.id, &["a.md".to_owned(), "b.md".to_owned()]).unwrap();
    assert_eq!(rows.len(), 1);
    assert_eq!(rows[0].file_name, "a.md");
    assert_eq!(rows[0].title, Some("First title".to_owned()));
    assert_eq!(rows[0].custom_id, Some("alias-a".to_owned()));
    assert_eq!(rows[0].created_at, 11);
    assert_eq!(rows[0].updated_at, 12);
}

#[test]
fn insert_document_unknown_directory_is_refused() {
    let mut db = Database::new();
    let r = db.insert_document(doc(1, 99, "a.md", "/x/a.md"));
    assert_eq!(r, Err(KnawledgeError::Store(StoreViolation::MissingDirectory)));
}

#[test]
fn list_root_paths_returns_exactly_the_parentless_paths() {
    let mut db = Database::new();
    let a = db.insert_directory("/a", "a", None).unwrap();
    db.insert_directory("/b", "b", None).unwrap();
    db.insert_directory("/a/sub", "sub", Some(a.id)).unwrap();
    let roots = db.list_root_paths().unwrap();
    assert_eq!(roots, vec!["/a".to_owned(), "/b".to_owned()]);
}

#[test]
fn get_index_path_finds_first_index_md() {
    let mut db = Database::new();
    assert_eq!(db.get_index_path().unwrap(), None);
    let root = db.insert_directory("/a", "a", None).unwrap();
    db.insert_document(doc(1, root.id, "other.md", "/a/other.md")).unwrap();
    db.insert_document(doc(2, root.id, "index.md", "/a/index.md")).unwrap();
    db.insert_document(doc(3, root.id, "index.md", "/a/sub-index.md")).unwrap();
    assert_eq!(db.get_index_path().unwrap(), Some("/a/index.md".to_owned()));
}

#[test]
fn document_path_lookups_by_id_and_custom_id() {
    let mut db = Database::new();
    let root = db.insert_directory("/a", "a", None).unwrap();
    let mut d = doc(5, root.id, "a.md", "/a/a.md");
    d.custom_id = Some("my-note".to_owned());
    db.insert_document(d).unwrap();
    assert_eq!(db.get_document_path(5).unwrap(), Some("/a/a.md".to_owned()));
    assert_eq!(db.get_document_path(6).unwrap(), None);
    assert_eq!(
        db.get_document_path_by_custom_id("my-note").unwrap(),
        Some("/a/a.md".to_owned())
    );
    assert_eq!(db.get_document_path_by_custom_id("nope").unwrap(), None);
    assert_eq!(
        db.get_doc_id_path_by_custom_id("my-note").unwrap(),
        Some((5, "/a/a.md".to_owned()))
    );
}

#[test]
fn root_lookups_distinguish_roots_from_children() {
    let mut db = Database::new();
    let a = db.insert_directory("/a", "a", None).unwrap();
    let sub = db.insert_directory("/a/sub", "sub", Some(a.id)).unwrap();
    assert_eq!(db.get_root_by_path("/a").unwrap().unwrap().id, a.id);
    assert_eq!(db.get_root_by_path("/a/sub").unwrap(), None);
    assert_eq!(db.get_root_dir_by_name("a").unwrap().unwrap().id, a.id);
    assert_eq!(db.get_root_dir_by_name("sub").unwrap(), None);
    assert_eq!(
        db.get_dir_by_name_and_parent("sub", a.id).unwrap().unwrap().id,
        sub.id
    );
    assert_eq!(db.get_dir_by_name_and_parent("sub", sub.id).unwrap(), None);
}

#[test]
fn list_entries_returns_one_level() {
    let mut db = Database::new();
    let a = db.insert_directory("/a", "a", None).unwrap();
    let sub = db.insert_directory("/a/sub", "sub", Some(a.id)).unwrap();
    db.insert_directory("/a/sub/deep", "deep", Some(sub.id)).unwrap();
    db.insert_document(doc(1, a.id, "a.md", "/a/a.md")).unwrap();
    db.insert_document(doc(2, sub.id, "s.md", "/a/sub/s.md")).unwrap();

    let entries = db.list_entries(a.id).unwrap();
    assert_eq!(entries.len(), 2);
    assert_eq!(entries[0].name, "a.md");
    assert_eq!(entries[0].kind, EntryKind::File);
    assert_eq!(entries[0].parent, Some(a.id));
    assert_eq!(entries[1].name, "sub");
    assert_eq!(entries[1].kind, EntryKind::Directory);
    assert_eq!(entries[1].parent, Some(a.id));
}

#[test]
fn list_roots_with_entries_puts_parented_entries_first() {
    let mut db = Database::new();
    let a = db.insert_directory("/a", "a", None).unwrap();
    let sub = db.insert_directory("/a/sub", "sub", Some(a.id)).unwrap();
    db.insert_directory("/a/sub/deep", "deep", Some(sub.id)).unwrap();
    db.insert_document(doc(1, a.id, "a.md", "/a/a.md")).unwrap();
    db.insert_document(doc(2, sub.id, "s.md", "/a/sub/s.md")).unwrap();

    let entries = db.list_roots_with_entries().unwrap();
    // the document under the root, the subdirectory of the root, the root
    assert_eq!(entries.len(), 3);
    assert_eq!(entries[0].name, "a.md");
    assert_eq!(entries[0].kind, EntryKind::File);
    assert_eq!(entries[0].parent, Some(a.id));
    assert_eq!(entries[1].name, "sub");
    assert_eq!(entries[1].parent, Some(a.id));
    assert_eq!(entries[2].name, "a");
    assert_eq!(entries[2].parent, None);
    let boundary = entries.iter().position(|e| e.parent.is_none()).unwrap();
    assert!(entries[boundary..].iter().all(|e| e.parent.is_none()));
}

#[test]
fn remove_file_deletes_only_the_named_row() {
    let mut db = Database::new();
    let a = db.insert_directory("/a", "a", None).unwrap();
    db.insert_document(doc(1, a.id, "a.md", "/a/a.md")).unwrap();
    db.insert_document(doc(2, a.id, "b.md", "/a/b.md")).unwrap();
    db.remove_file("/a/a.md").unwrap();
    assert_eq!(db.get_document_path(1).unwrap(), None);
    assert_eq!(db.get_document_path(2).unwrap(), Some("/a/b.md".to_owned()));
    // deleting a path with no row is not an error
    db.remove_file("/a/a.md").unwrap();
}

#[test]
fn remove_dir_deletes_the_whole_subtree() {
    let mut db = Database::new();
    let a = db.insert_directory("/a", "a", None).unwrap();
    let sub = db.insert_directory("/a/sub", "sub", Some(a.id)).unwrap();
    let deep = db.insert_directory("/a/sub/deep", "deep", Some(sub.id)).unwrap();
    let b = db.insert_directory("/b", "b", None).unwrap();
    db.insert_document(doc(1, deep.id, "d.md", "/a/sub/deep/d.md")).unwrap();
    db.insert_document(doc(2, b.id, "b.md", "/b/b.md")).unwrap();

    db.remove_dir("/a/sub").unwrap();
    assert_eq!(db.get_dir_by_path("/a/sub").unwrap(), None);
    assert_eq!(db.get_dir_by_path("/a/sub/deep").unwrap(), None);
    assert_eq!(db.get_document_path(1).unwrap(), None);
    // untouched rows stay
    assert!(db.get_dir_by_path("/a").unwrap().is_some());
    assert_eq!(db.get_document_path(2).unwrap(), Some("/b/b.md".to_owned()));
    // deleting a path with no row is not an error
    db.remove_dir("/nothing").unwrap();
}

#[test]
fn insert_document_conflicting_custom_id_is_dropped() {
    let mut db = Database::new();
    let a = db.insert_directory("/a", "a", None).unwrap();
    let mut first = doc(1, a.id, "a.md", "/a/a.md");
    first.custom_id = Some("shared".to_owned());
    db.insert_document(first).unwrap();
    let mut second = doc(2, a.id, "b.md", "/a/b.md");
    second.custom_id = Some("shared".to_owned());
    // the conflicting insert succeeds but records nothing
    db.insert_document(second).unwrap();
    assert_eq!(
        db.get_doc_id_path_by_custom_id("shared").unwrap(),
        Some((1, "/a/a.md".to_owned()))
    );
    assert_eq!(db.get_document_path(2).unwrap(), None);
}

#[test]
fn insert_document_conflicting_path_is_dropped() {
    let mut db = Database::new();
    let a = db.insert_directory("/a", "a", None).unwrap();
    db.insert_document(doc(1, a.id, "a.md", "/a/a.md")).unwrap();
    db.insert_document(doc(2, a.id, "other.md", "/a/a.md")).unwrap();
    assert_eq!(db.get_document_path(2).unwrap(), None);
    assert_eq!(db.get_document_path(1).unwrap(), Some("/a/a.md".to_owned()));
}

#[test]
fn trim_roots_removes_unlisted_roots_with_their_subtrees() {
    let mut db = Database::new();
    let keep = db.insert_directory("/keep", "keep", None).unwrap();
    let old = db.insert_directory("/old", "old", None).unwrap();
    let old_sub = db.insert_directory("/old/sub", "sub", Some(old.id)).unwrap();
    db.insert_document(doc(1, keep.id, "k.md", "/keep/k.md")).unwrap();
    db.insert_document(doc(2, old_sub.id, "o.md", "/old/sub/o.md")).unwrap();

    db.trim_roots(&vec!["/keep".to_owned()]).unwrap();
    assert_eq!(db.list_root_paths().unwrap(), vec!["/keep".to_owned()]);
    assert_eq!(db.get_dir_by_path("/old").unwrap(), None);
    assert_eq!(db.get_dir_by_path("/old/sub").unwrap(), None);
    assert_eq!(db.get_document_path(2).unwrap(), None);
    assert_eq!(db.get_document_path(1).unwrap(), Some("/keep/k.md".to_owned()));

    // trimming again with the same list changes nothing
    db.trim_roots(&vec!["/keep".to_owned()]).unwrap();
    assert_eq!(db.list_root_paths().unwrap(), vec!["/keep".to_owned()]);
    assert_eq!(db.get_document_path(1).unwrap(), Some("/keep/k.md".to_owned()));
}
