use knawledge::db::Database;
use knawledge::error::KnawledgeError;
use knawledge::models::Document;
use knawledge::state::DocumentService;

const PRIMARY: &str = "3f2504e0-4f89-41d3-9a0c-0305e82c3301";

fn service_with_doc(custom: Option<&str>) -> (DocumentService, u128) {
    let mut db = Database::new();
    let root = db.insert_directory("/r", "r", None).unwrap();
    let id = uuid::Uuid::try_parse(PRIMARY).unwrap().as_u128();
    db.insert_document(Document {
        id,
        file_name: "a.md".to_owned(),
        directory: root.id,
        path: "/r/a.md".to_owned(),
        title: Some("A".to_owned()),
        custom_id: custom.map(|c| c.to_owned()),
        created_at: 0,
        updated_at: 0,
    })
    .unwrap();
    (DocumentService::new(db, None, vec![]), id)
}

#[test]
fn resolve_by_primary_identifier() {
    let (svc, id) = service_with_doc(None);
    let (got_id, path) = svc.resolve_file(PRIMARY.to_owned()).unwrap();
    assert_eq!(got_id, id);
    assert_eq!(path, "/r/a.md");
}

#[test]
fn resolve_by_custom_alias() {
    let (svc, id) = service_with_doc(Some("my-note"));
    let (got_id, path) = svc.resolve_file("my-note".to_owned()).unwrap();
    assert_eq!(got_id, id);
    assert_eq!(path, "/r/a.md");
}

#[test]
fn resolve_unknown_primary_identifier_reports_the_input_verbatim() {
    let svc = DocumentService::new(Database::new(), None, vec![]);
    // a syntactically valid primary identifier with no matching row
    let r = svc.resolve_file(PRIMARY.to_owned());
    assert_eq!(r, Err(KnawledgeError::NotFound(PRIMARY.to_owned())));
}

#[test]
fn resolve_unknown_alias_reports_the_input_verbatim() {
    let (svc, _) = service_with_doc(Some("my-note"));
    let r = svc.resolve_file("someone-elses-note".to_owned());
    assert_eq!(
        r,
        Err(KnawledgeError::NotFound("someone-elses-note".to_owned()))
    );
}

#[test]
fn resolve_meta_path_by_primary_identifier_only() {
    let (svc, id) = service_with_doc(Some("my-note"));
    assert_eq!(svc.resolve_meta_path(id).unwrap(), "/r/a.md");
}

#[test]
fn resolve_meta_path_not_found_carries_canonical_text() {
    let svc = DocumentService::new(Database::new(), None, vec![]);
    let id = uuid::Uuid::try_parse(PRIMARY).unwrap().as_u128();
    let r = svc.resolve_meta_path(id);
    assert_eq!(r, Err(KnawledgeError::NotFound(PRIMARY.to_owned())));
}
