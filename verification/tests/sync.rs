use knawledge::db::Database;
use knawledge::models::{Document, FsDirEntry, FsFileEntry};
use knawledge::state::DocumentService;

fn doc(id: u128, dir: u128, file_name: &str, path: &str) -> Document {
    Document {
        id,
        file_name: file_name.to_owned(),
        directory: dir,
        path: path.to_owned(),
        title: None,
        custom_id: None,
        created_at: 0,
        updated_at: 0,
    }
}

fn fs_dir(path: &str, name: &str, parent: Option<&str>) -> FsDirEntry {
    FsDirEntry {
        path: path.to_owned(),
        name: name.to_owned(),
        parent_path: parent.map(|p| p.to_owned()),
    }
}

fn fs_file(dir_path: &str, id: u128, file_name: &str, path: &str) -> FsFileEntry {
    FsFileEntry {
        dir_path: dir_path.to_owned(),
        id,
        file_name: file_name.to_owned(),
        path: path.to_owned(),
        title: None,
        custom_id: None,
        created_at: 0,
        updated_at: 0,
    }
}

/// Everything observable about the catalog, for state comparisons.
fn observe(svc: &DocumentService) -> (Vec<String>, Vec<String>, Vec<knawledge::models::DirectoryEntry>) {
    (
        svc.db.list_root_paths().unwrap(),
        svc.db.get_all_file_paths().unwrap(),
        svc.db.list_roots_with_entries().unwrap(),
    )
}

#[test]
fn trim_missing_files_removes_exactly_the_orphan() {
    let mut db = Database::new();
    let a = db.insert_directory("/a", "a", None).unwrap();
    db.insert_document(doc(1, a.id, "gone.md", "/a/gone.md")).unwrap();
    db.insert_document(doc(2, a.id, "kept.md", "/a/kept.md")).unwrap();

    db.trim_missing_files(&vec!["/a/kept.md".to_owned()]).unwrap();
    assert_eq!(db.get_document_path(1).unwrap(), None);
    assert_eq!(db.get_document_path(2).unwrap(), Some("/a/kept.md".to_owned()));
    // the directories are untouched
    assert!(db.get_dir_by_path("/a").unwrap().is_some());
}

#[test]
fn sync_registers_a_walk_report() {
    let db = Database::new();
    let mut svc = DocumentService::new(
        db,
        Some("Notes".to_owned()),
        vec![("notes".to_owned(), "/r".to_owned())],
    );
    let roots = vec!["/r".to_owned()];
    let dirs_found = vec![fs_dir("/r", "notes", None), fs_dir("/r/sub", "sub", Some("/r"))];
    let files_found = vec![fs_file("/r", 10, "a.md", "/r/a.md")];

    svc.sync(&roots, &vec![], &dirs_found, &files_found).unwrap();

    let root = svc.db.get_root_by_path("/r").unwrap().unwrap();
    assert_eq!(root.name, "notes");
    let sub = svc.db.get_dir_by_path("/r/sub").unwrap().unwrap();
    assert_eq!(sub.parent, Some(root.id));
    assert_eq!(svc.db.get_document_path(10).unwrap(), Some("/r/a.md".to_owned()));
}

#[test]
fn sync_twice_over_unchanged_filesystem_is_idempotent() {
    let db = Database::new();
    let mut svc = DocumentService::new(db, None, vec![("notes".to_owned(), "/r".to_owned())]);
    let roots = vec!["/r".to_owned()];
    let dirs_found = vec![fs_dir("/r", "notes", None), fs_dir("/r/sub", "sub", Some("/r"))];
    let files_found = vec![
        fs_file("/r", 10, "a.md", "/r/a.md"),
        fs_file("/r/sub", 11, "b.md", "/r/sub/b.md"),
    ];

    svc.sync(&roots, &vec![], &dirs_found, &files_found).unwrap();
    let after_first = observe(&svc);

    // on an unchanged filesystem every recorded path probes as present,
    // and a fresh walk draws new candidate identifiers for known files
    let present = svc.db.get_all_file_paths().unwrap();
    let files_again = vec![
        fs_file("/r", 20, "a.md", "/r/a.md"),
        fs_file("/r/sub", 21, "b.md", "/r/sub/b.md"),
    ];
    svc.sync(&roots, &present, &dirs_found, &files_again).unwrap();
    let after_second = observe(&svc);

    assert_eq!(after_first, after_second);
    // the originally drawn identifiers still resolve
    assert_eq!(svc.db.get_document_path(10).unwrap(), Some("/r/a.md".to_owned()));
    assert_eq!(svc.db.get_document_path(20).unwrap(), None);
}

#[test]
fn sync_drops_unconfigured_roots_and_vanished_files() {
    let db = Database::new();
    let mut svc = DocumentService::new(db, None, vec![("keep".to_owned(), "/keep".to_owned())]);
    // an earlier configuration also had /old
    let both = vec!["/keep".to_owned(), "/old".to_owned()];
    let dirs_before = vec![fs_dir("/keep", "keep", None), fs_dir("/old", "old", None)];
    let files_before = vec![
        fs_file("/keep", 1, "a.md", "/keep/a.md"),
        fs_file("/old", 2, "b.md", "/old/b.md"),
        fs_file("/keep", 3, "gone.md", "/keep/gone.md"),
    ];
    svc.sync(&both, &vec![], &dirs_before, &files_before).unwrap();
    assert_eq!(svc.db.list_root_paths().unwrap().len(), 2);

    // now /old is no longer configured and /keep/gone.md was deleted
    let roots = vec!["/keep".to_owned()];
    let present = vec!["/keep/a.md".to_owned()];
    let dirs_found = vec![fs_dir("/keep", "keep", None)];
    let files_found = vec![fs_file("/keep", 4, "a.md", "/keep/a.md")];
    svc.sync(&roots, &present, &dirs_found, &files_found).unwrap();

    assert_eq!(svc.db.list_root_paths().unwrap(), vec!["/keep".to_owned()]);
    assert_eq!(svc.db.get_document_path(2).unwrap(), None);
    assert_eq!(svc.db.get_document_path(3).unwrap(), None);
    assert_eq!(svc.db.get_document_path(1).unwrap(), Some("/keep/a.md".to_owned()));
}

#[test]
fn register_discovered_never_deletes() {
    let mut db = Database::new();
    let a = db.insert_directory("/a", "a", None).unwrap();
    db.insert_document(doc(1, a.id, "old.md", "/a/old.md")).unwrap();

    let dirs_found = vec![fs_dir("/b", "b", None)];
    let files_found = vec![fs_file("/b", 2, "new.md", "/b/new.md")];
    db.register_discovered(&dirs_found, &files_found).unwrap();

    assert!(db.get_dir_by_path("/a").unwrap().is_some());
    assert!(db.get_dir_by_path("/b").unwrap().is_some());
    assert_eq!(db.get_document_path(1).unwrap(), Some("/a/old.md".to_owned()));
    assert_eq!(db.get_document_path(2).unwrap(), Some("/b/new.md".to_owned()));
}
