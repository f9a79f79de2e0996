use vstd::prelude::*;

use crate::db::{
    discovered_dirs_wf, discovered_files_wf, doc_by_custom, doc_by_id, docs_in_dirs,
    docs_with_present_paths, file_settled, has_dir_path, has_doc_custom, has_doc_id,
    lemma_docs_in_dirs_all, lemma_present_filter_all, lemma_present_filter_rows,
    lemma_trim_rec_roots, seq_has_str, trimmed_dirs, Database, DbModel,
};
use crate::error::KnawledgeError;
use crate::ids::{id_text, parsed_id};
use crate::models::{Directory, FsDirEntry, FsFileEntry};

verus! {

/// A catalog that a synchronization pass has brought in line with what the
/// walk reported: every root is a configured one, every document's backing
/// file is present, and everything the walk found is recorded.  A further
/// pass over the same report changes nothing.
pub open spec fn synced(
    m: DbModel,
    roots: Seq<String>,
    present: Seq<String>,
    dfound: Seq<FsDirEntry>,
    ffound: Seq<FsFileEntry>,
) -> bool {
    &&& forall|i: int| #![trigger m.dirs[i]]
        0 <= i < m.dirs.len() ==> (m.dirs[i].parent is None ==> seq_has_str(
            roots,
            m.dirs[i].path@,
        ))
    &&& forall|i: int| #![trigger m.docs[i]]
        0 <= i < m.docs.len() ==> seq_has_str(present, m.docs[i].path@)
    &&& forall|j: int| #![trigger dfound[j]]
        0 <= j < dfound.len() ==> has_dir_path(m.dirs, dfound[j].path@)
    &&& forall|j: int| #![trigger ffound[j]]
        0 <= j < ffound.len() ==> file_settled(m, ffound[j])
}

/// The walk only reports a root directory for a configured root path, and
/// only reports files that are present on disk.
pub open spec fn report_matches_config(
    roots: Seq<String>,
    present: Seq<String>,
    dfound: Seq<FsDirEntry>,
    ffound: Seq<FsFileEntry>,
) -> bool {
    &&& forall|j: int| #![trigger dfound[j]]
        0 <= j < dfound.len() ==> (dfound[j].parent_path is None ==> seq_has_str(
            roots,
            dfound[j].path@,
        ))
    &&& forall|j: int| #![trigger ffound[j]]
        0 <= j < ffound.len() ==> seq_has_str(present, ffound[j].path@)
}

/// The shared service object: the catalog store, the front-end title, and
/// the alias-to-root-path configuration.
pub struct DocumentService {
    pub db: Database,
    /// The document title for the front end.
    pub title: Option<String>,
    /// The directories to include, as alias and root path pairs.
    pub directories: Vec<(String, String)>,
}

impl DocumentService {
    /// Bundle a store with its configuration.
    pub fn new(db: Database, title: Option<String>, directories: Vec<(String, String)>) -> (r:
        DocumentService)
        ensures
            r.db == db,
            r.title == title,
            r.directories == directories,
    {
        DocumentService { db, title, directories }
    }

    /// One synchronization pass over the catalog, given what the caller
    /// read from the configuration and the filesystem: `roots` are the
    /// configured root paths that resolved, `present` the recorded
    /// document paths that still exist on disk, and the walk report lists
    /// every directory and file found under the surviving roots.
    ///
    /// The pass first trims roots no longer configured, then drops
    /// documents whose backing file vanished, then registers what the walk
    /// found.  When the report agrees with the configuration the resulting
    /// catalog is synced; and a pass over an already synced catalog — in
    /// particular, a second pass right after a first over an unchanged
    /// filesystem — leaves the catalog exactly as it was.
    pub fn sync(
        &mut self,
        roots: &Vec<String>,
        present: &Vec<String>,
        dirs_found: &Vec<FsDirEntry>,
        files_found: &Vec<FsFileEntry>,
    ) -> (r: Result<(), KnawledgeError>)
        requires
            old(self).db.wf(),
            discovered_dirs_wf(dirs_found@),
            discovered_files_wf(files_found@, dirs_found@),
        ensures
            final(self).db.wf(),
            final(self).title == old(self).title,
            final(self).directories == old(self).directories,
            r is Ok <==> old(self).db@.next_id + dirs_found@.len() <= u128::MAX,
            ({
                let m = old(self).db@;
                let n = final(self).db@;
                let dirs1 = trimmed_dirs(m.dirs, roots@);
                let docs1 = docs_with_present_paths(docs_in_dirs(m.docs, dirs1), present@);
                &&& r is Err ==> n.dirs == dirs1 && n.docs == docs1 && n.next_id == m.next_id
                &&& r is Ok ==> dirs1.len() <= n.dirs.len() && (forall|k: int|
                    0 <= k < dirs1.len() ==> #[trigger] n.dirs[k] == dirs1[k]) && docs1.len()
                    <= n.docs.len() && (forall|k: int|
                    0 <= k < docs1.len() ==> #[trigger] n.docs[k] == docs1[k])
                &&& r is Ok ==> (forall|j: int| #![trigger dirs_found@[j]]
                    0 <= j < dirs_found@.len() ==> has_dir_path(n.dirs, dirs_found@[j].path@))
                    && (forall|j: int| #![trigger files_found@[j]]
                    0 <= j < files_found@.len() ==> file_settled(n, files_found@[j]))
            }),
            r is Ok && report_matches_config(roots@, present@, dirs_found@, files_found@)
                ==> synced(final(self).db@, roots@, present@, dirs_found@, files_found@),
            r is Ok && synced(old(self).db@, roots@, present@, dirs_found@, files_found@)
                ==> final(self).db@ == old(self).db@,
    {
        let ghost m = self.db@;
        let ghost was_synced = synced(m, roots@, present@, dirs_found@, files_found@);
        proof {
            if was_synced {
                lemma_docs_in_dirs_all(m.docs, m.dirs);
            }
        }
        match self.db.trim_roots(roots) {
            Ok(_) => {},
            Err(e) => {
                return Err(e);
            },
        }
        proof {
            if was_synced {
                assert(self.db@ == m);
            }
        }
        match self.db.trim_missing_files(present) {
            Ok(_) => {},
            Err(e) => {
                return Err(e);
            },
        }
        proof {
            if was_synced {
                lemma_present_filter_all(m.docs, present@);
                assert(self.db@ == m);
            }
        }
        let ghost m2 = self.db@;
        let rr = self.db.register_discovered(dirs_found, files_found);
        match rr {
            Ok(_) => {},
            Err(e) => {
                return Err(e);
            },
        }
        proof {
            let n = self.db@;
            if was_synced {
                assert(n.dirs == m.dirs && n.next_id == m.next_id);
                assert(n.docs == m.docs);
                assert(n =~= m);
            }
            if report_matches_config(roots@, present@, dirs_found@, files_found@) {
                lemma_trim_rec_roots(Seq::<Directory>::empty(), m.dirs, roots@);
                lemma_present_filter_rows(docs_in_dirs(m.docs, m2.dirs), present@);
                assert forall|i: int| #![trigger n.dirs[i]] 0 <= i < n.dirs.len() implies (n.dirs[i].parent
                    is None ==> seq_has_str(roots@, n.dirs[i].path@)) by {
                    if i < m2.dirs.len() {
                        assert(n.dirs[i] == m2.dirs[i]);
                    }
                }
                assert forall|i: int| #![trigger n.docs[i]] 0 <= i < n.docs.len() implies
                    seq_has_str(present@, n.docs[i].path@) by {
                    if i < m2.docs.len() {
                        assert(n.docs[i] == m2.docs[i]);
                    }
                }
            }
        }
        Ok(())
    }

    /// Resolve a caller-supplied identifier — the primary identifier's
    /// text, or else a custom alias — to the document's identifier and
    /// path.  When no row matches, the error carries the original input,
    /// never a parsed or transformed form of it.
    pub fn resolve_file(&self, id: String) -> (r: Result<(u128, String), KnawledgeError>)
        requires
            self.db.wf(),
        ensures
            ({
                let docs = self.db@.docs;
                match parsed_id(id@) {
                    Some(u) => {
                        &&& has_doc_id(docs, u) ==> (r matches Ok(p) && p.0 == u && p.1
                            == doc_by_id(docs, u).path)
                        &&& !has_doc_id(docs, u) ==> r == Err::<(u128, String), KnawledgeError>(
                            KnawledgeError::NotFound(id),
                        )
                    },
                    None => {
                        &&& has_doc_custom(docs, id@) ==> (r matches Ok(p) && p.0
                            == doc_by_custom(docs, id@).id && p.1 == doc_by_custom(docs, id@).path)
                        &&& !has_doc_custom(docs, id@) ==> r == Err::<
                            (u128, String),
                            KnawledgeError,
                        >(KnawledgeError::NotFound(id))
                    },
                }
            }),
    {
        match crate::ids::parse_primary_id(id.as_str()) {
            Some(u) => {
                match self.db.get_document_path(u) {
                    Ok(Some(path)) => Ok((u, path)),
                    Ok(None) => Err(KnawledgeError::NotFound(id)),
                    Err(e) => Err(e),
                }
            },
            None => {
                match self.db.get_doc_id_path_by_custom_id(id.as_str()) {
                    Ok(Some((doc_id, path))) => Ok((doc_id, path)),
                    Ok(None) => Err(KnawledgeError::NotFound(id)),
                    Err(e) => Err(e),
                }
            },
        }
    }

    /// Resolve a primary identifier — with no alias fallback — to the
    /// document's path.  When no row matches, the error carries the
    /// identifier's canonical text.
    pub fn resolve_meta_path(&self, id: u128) -> (r: Result<String, KnawledgeError>)
        requires
            self.db.wf(),
        ensures
            has_doc_id(self.db@.docs, id) ==> (r matches Ok(p) && p == doc_by_id(
                self.db@.docs,
                id,
            ).path),
            !has_doc_id(self.db@.docs, id) ==> (r matches Err(e) && e matches
                KnawledgeError::NotFound(s) && s@ == id_text(id)),
    {
        match self.db.get_document_path(id) {
            Ok(Some(path)) => Ok(path),
            Ok(None) => Err(KnawledgeError::NotFound(crate::ids::format_primary_id(id))),
            Err(e) => Err(e),
        }
    }
}

} // verus!
