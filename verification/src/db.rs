use vstd::prelude::*;

use crate::error::{KnawledgeError, StoreViolation};
use crate::models::{Directory, DirectoryEntry, Document, EntryKind, FsDirEntry, FsFileEntry};

verus! {

/// The abstract state of the store: the two relations, in row order, and
/// the next directory identifier to be minted.
#[verifier::ext_equal]
pub struct DbModel {
    pub dirs: Seq<Directory>,
    pub docs: Seq<Document>,
    pub next_id: u128,
}

/// The catalog store.  Rows are kept in insertion order; every operation
/// preserves [`Database::wf`].
pub struct Database {
    dirs: Vec<Directory>,
    docs: Vec<Document>,
    next_id: u128,
}

impl View for Database {
    type V = DbModel;

    closed spec fn view(&self) -> DbModel {
        DbModel { dirs: self.dirs@, docs: self.docs@, next_id: self.next_id }
    }
}

/// Some directory row carries this identifier.
pub open spec fn has_dir_id(dirs: Seq<Directory>, id: u128) -> bool {
    exists|i: int| 0 <= i < dirs.len() && #[trigger] dirs[i].id == id
}

/// Some directory row carries this path.
pub open spec fn has_dir_path(dirs: Seq<Directory>, path: Seq<char>) -> bool {
    exists|i: int| 0 <= i < dirs.len() && #[trigger] dirs[i].path@ == path
}

/// The directory row carrying this path (unique under [`dirs_wf`]).
pub open spec fn dir_by_path(dirs: Seq<Directory>, path: Seq<char>) -> Directory {
    dirs[choose|i: int| 0 <= i < dirs.len() && #[trigger] dirs[i].path@ == path]
}

/// Some root row (no parent) carries this identifier.
pub open spec fn is_root_id(dirs: Seq<Directory>, id: u128) -> bool {
    exists|i: int|
        0 <= i < dirs.len() && #[trigger] dirs[i].id == id && dirs[i].parent is None
}

/// Some root row (no parent) carries this path.
pub open spec fn has_root_path(dirs: Seq<Directory>, path: Seq<char>) -> bool {
    exists|i: int|
        0 <= i < dirs.len() && #[trigger] dirs[i].path@ == path && dirs[i].parent is None
}

/// Some document row carries this identifier.
pub open spec fn has_doc_id(docs: Seq<Document>, id: u128) -> bool {
    exists|i: int| 0 <= i < docs.len() && #[trigger] docs[i].id == id
}

/// The document row carrying this identifier (unique under [`docs_wf`]).
pub open spec fn doc_by_id(docs: Seq<Document>, id: u128) -> Document {
    docs[choose|i: int| 0 <= i < docs.len() && #[trigger] docs[i].id == id]
}

/// Some document row carries this path.
pub open spec fn has_doc_path(docs: Seq<Document>, path: Seq<char>) -> bool {
    exists|i: int| 0 <= i < docs.len() && #[trigger] docs[i].path@ == path
}

/// This document row carries the given custom identifier.
pub open spec fn doc_has_custom(d: Document, c: Seq<char>) -> bool {
    match d.custom_id {
        Some(s) => s@ == c,
        None => false,
    }
}

/// Some document row carries this custom identifier.
pub open spec fn has_doc_custom(docs: Seq<Document>, c: Seq<char>) -> bool {
    exists|i: int| 0 <= i < docs.len() && doc_has_custom(#[trigger] docs[i], c)
}

/// The document row carrying this custom identifier (unique under
/// [`docs_wf`]).
pub open spec fn doc_by_custom(docs: Seq<Document>, c: Seq<char>) -> Document {
    docs[choose|i: int| 0 <= i < docs.len() && doc_has_custom(#[trigger] docs[i], c)]
}

/// Some document row in the given directory carries this file name.
pub open spec fn doc_named_in(docs: Seq<Document>, dir: u128, name: Seq<char>) -> bool {
    exists|i: int|
        0 <= i < docs.len() && #[trigger] docs[i].directory == dir && docs[i].file_name@
            == name
}

/// Some string of the sequence has this view.
pub open spec fn seq_has_str(v: Seq<String>, s: Seq<char>) -> bool {
    exists|i: int| 0 <= i < v.len() && #[trigger] v[i]@ == s
}

/// Well-formedness of the directories relation: identifiers and paths are
/// unique, identifiers stay below the minting counter, and every parent
/// reference names a row that stands strictly earlier.  The last clause is
/// how the catalog keeps the forest shape: a parent always exists before
/// any child that references it.
pub open spec fn dirs_wf(dirs: Seq<Directory>, next_id: u128) -> bool {
    &&& forall|i: int, j: int|
        0 <= i < dirs.len() && 0 <= j < dirs.len() && #[trigger] dirs[i].id
            == #[trigger] dirs[j].id ==> i == j
    &&& forall|i: int, j: int|
        0 <= i < dirs.len() && 0 <= j < dirs.len() && #[trigger] dirs[i].path@
            == #[trigger] dirs[j].path@ ==> i == j
    &&& forall|i: int| 0 <= i < dirs.len() ==> #[trigger] dirs[i].id < next_id
    &&& forall|j: int|
        0 <= j < dirs.len() ==> match #[trigger] dirs[j].parent {
            Some(p) => exists|i: int| 0 <= i < j && #[trigger] dirs[i].id == p,
            None => true,
        }
}

/// Uniqueness of the documents relation's keys: identifiers, paths and
/// (when present) custom identifiers.
pub open spec fn docs_unique(docs: Seq<Document>) -> bool {
    &&& forall|i: int, j: int|
        0 <= i < docs.len() && 0 <= j < docs.len() && #[trigger] docs[i].id
            == #[trigger] docs[j].id ==> i == j
    &&& forall|i: int, j: int|
        0 <= i < docs.len() && 0 <= j < docs.len() && #[trigger] docs[i].path@
            == #[trigger] docs[j].path@ ==> i == j
    &&& forall|i: int, j: int, c: Seq<char>|
        0 <= i < docs.len() && 0 <= j < docs.len() && #[trigger] doc_has_custom(docs[i], c)
            && #[trigger] doc_has_custom(docs[j], c) ==> i == j
}

/// Well-formedness of the documents relation: unique keys, and every row's
/// owning directory is in the catalog.
pub open spec fn docs_wf(docs: Seq<Document>, dirs: Seq<Directory>) -> bool {
    &&& docs_unique(docs)
    &&& forall|i: int|
        0 <= i < docs.len() ==> has_dir_id(dirs, #[trigger] docs[i].directory)
}

/// The documents relation restricted to the rows whose paths are listed as
/// still present on disk.
pub open spec fn docs_with_present_paths(docs: Seq<Document>, present: Seq<String>) -> Seq<
    Document,
>
    decreases docs.len(),
{
    if docs.len() == 0 {
        Seq::empty()
    } else {
        let rest = docs_with_present_paths(docs.drop_last(), present);
        if seq_has_str(present, docs.last().path@) {
            rest.push(docs.last())
        } else {
            rest
        }
    }
}

/// The documents relation with the row at the given path removed.
pub open spec fn docs_without_path(docs: Seq<Document>, path: Seq<char>) -> Seq<Document>
    decreases docs.len(),
{
    if docs.len() == 0 {
        Seq::empty()
    } else {
        let rest = docs_without_path(docs.drop_last(), path);
        if docs.last().path@ != path {
            rest.push(docs.last())
        } else {
            rest
        }
    }
}

/// The documents relation restricted to the rows whose owning directory is
/// still in the catalog.
pub open spec fn docs_in_dirs(docs: Seq<Document>, dirs: Seq<Directory>) -> Seq<Document>
    decreases docs.len(),
{
    if docs.len() == 0 {
        Seq::empty()
    } else {
        let rest = docs_in_dirs(docs.drop_last(), dirs);
        if has_dir_id(dirs, docs.last().directory) {
            rest.push(docs.last())
        } else {
            rest
        }
    }
}

/// The paths of the documents relation, in row order.
pub open spec fn doc_paths_of(docs: Seq<Document>) -> Seq<String>
    decreases docs.len(),
{
    if docs.len() == 0 {
        Seq::empty()
    } else {
        doc_paths_of(docs.drop_last()).push(docs.last().path)
    }
}

/// Well-formedness of the whole store.
pub open spec fn db_wf(m: DbModel) -> bool {
    dirs_wf(m.dirs, m.next_id) && docs_wf(m.docs, m.dirs)
}

/// The paths of the root rows (no parent), in row order.
pub open spec fn root_paths_of(dirs: Seq<Directory>) -> Seq<String>
    decreases dirs.len(),
{
    if dirs.len() == 0 {
        Seq::empty()
    } else {
        let rest = root_paths_of(dirs.drop_last());
        if dirs.last().parent is None {
            rest.push(dirs.last().path)
        } else {
            rest
        }
    }
}

/// First root row carrying this name, if any.
pub open spec fn first_root_named(dirs: Seq<Directory>, name: Seq<char>) -> Option<Directory>
    decreases dirs.len(),
{
    if dirs.len() == 0 {
        None
    } else if dirs[0].parent is None && dirs[0].name@ == name {
        Some(dirs[0])
    } else {
        first_root_named(dirs.drop_first(), name)
    }
}

/// First row carrying this name under the given parent, if any.
pub open spec fn first_dir_named_under(dirs: Seq<Directory>, name: Seq<char>, parent: u128) -> Option<
    Directory,
>
    decreases dirs.len(),
{
    if dirs.len() == 0 {
        None
    } else if dirs[0].parent == Some(parent) && dirs[0].name@ == name {
        Some(dirs[0])
    } else {
        first_dir_named_under(dirs.drop_first(), name, parent)
    }
}

/// First document row carrying this file name, if any.
pub open spec fn first_doc_named(docs: Seq<Document>, name: Seq<char>) -> Option<Document>
    decreases docs.len(),
{
    if docs.len() == 0 {
        None
    } else if docs[0].file_name@ == name {
        Some(docs[0])
    } else {
        first_doc_named(docs.drop_first(), name)
    }
}

/// The document rows of a directory whose file names are among the given
/// candidates, in row order.
pub open spec fn docs_in_dir_named(docs: Seq<Document>, dir: u128, names: Seq<String>) -> Seq<
    Document,
>
    decreases docs.len(),
{
    if docs.len() == 0 {
        Seq::empty()
    } else {
        let rest = docs_in_dir_named(docs.drop_last(), dir, names);
        if docs.last().directory == dir && seq_has_str(names, docs.last().file_name@) {
            rest.push(docs.last())
        } else {
            rest
        }
    }
}

/// The listing entry for a document row.
pub open spec fn doc_entry(d: Document) -> DirectoryEntry {
    DirectoryEntry {
        id: d.id,
        parent: Some(d.directory),
        name: d.file_name,
        kind: EntryKind::File,
        title: d.title,
        custom_id: d.custom_id,
    }
}

/// The listing entry for a directory row.
pub open spec fn dir_entry(d: Directory) -> DirectoryEntry {
    DirectoryEntry {
        id: d.id,
        parent: d.parent,
        name: d.name,
        kind: EntryKind::Directory,
        title: None,
        custom_id: None,
    }
}

/// The document entries of one directory, in row order.
pub open spec fn doc_entries_under(docs: Seq<Document>, dir: u128) -> Seq<DirectoryEntry>
    decreases docs.len(),
{
    if docs.len() == 0 {
        Seq::empty()
    } else {
        let rest = doc_entries_under(docs.drop_last(), dir);
        if docs.last().directory == dir {
            rest.push(doc_entry(docs.last()))
        } else {
            rest
        }
    }
}

/// The subdirectory entries of one directory, in row order.
pub open spec fn dir_entries_under(dirs: Seq<Directory>, dir: u128) -> Seq<DirectoryEntry>
    decreases dirs.len(),
{
    if dirs.len() == 0 {
        Seq::empty()
    } else {
        let rest = dir_entries_under(dirs.drop_last(), dir);
        if dirs.last().parent == Some(dir) {
            rest.push(dir_entry(dirs.last()))
        } else {
            rest
        }
    }
}

/// The document entries sitting directly under some root, in row order.
pub open spec fn doc_entries_under_roots(docs: Seq<Document>, dirs: Seq<Directory>) -> Seq<
    DirectoryEntry,
>
    decreases docs.len(),
{
    if docs.len() == 0 {
        Seq::empty()
    } else {
        let rest = doc_entries_under_roots(docs.drop_last(), dirs);
        if is_root_id(dirs, docs.last().directory) {
            rest.push(doc_entry(docs.last()))
        } else {
            rest
        }
    }
}

/// The subdirectory entries sitting directly under some root of `all`, in
/// row order.
pub open spec fn dir_entries_under_roots(dirs: Seq<Directory>, all: Seq<Directory>) -> Seq<
    DirectoryEntry,
>
    decreases dirs.len(),
{
    if dirs.len() == 0 {
        Seq::empty()
    } else {
        let rest = dir_entries_under_roots(dirs.drop_last(), all);
        if dirs.last().parent matches Some(p) && is_root_id(all, p) {
            rest.push(dir_entry(dirs.last()))
        } else {
            rest
        }
    }
}

/// The entries of the root rows themselves, in row order.
pub open spec fn root_entries(dirs: Seq<Directory>) -> Seq<DirectoryEntry>
    decreases dirs.len(),
{
    if dirs.len() == 0 {
        Seq::empty()
    } else {
        let rest = root_entries(dirs.drop_last());
        if dirs.last().parent is None {
            rest.push(dir_entry(dirs.last()))
        } else {
            rest
        }
    }
}

/// The directories relation after trimming: a root survives when its path
/// is among the kept ones; any other row survives when its parent survived.
/// `acc` holds the survivors found so far.
pub open spec fn trim_dirs_rec(acc: Seq<Directory>, rest: Seq<Directory>, keep: Seq<String>) -> Seq<
    Directory,
>
    decreases rest.len(),
{
    if rest.len() == 0 {
        acc
    } else {
        let d = rest[0];
        let kept = match d.parent {
            None => seq_has_str(keep, d.path@),
            Some(p) => has_dir_id(acc, p),
        };
        trim_dirs_rec(if kept { acc.push(d) } else { acc }, rest.drop_first(), keep)
    }
}

/// The directories relation after trimming the roots not listed in `keep`,
/// together with every directory beneath a trimmed one.
pub open spec fn trimmed_dirs(dirs: Seq<Directory>, keep: Seq<String>) -> Seq<Directory> {
    trim_dirs_rec(Seq::empty(), dirs, keep)
}

/// The directories relation after deleting the row at `target`: that row
/// goes, and any other row survives only while its parent survives.
pub open spec fn remove_dirs_rec(acc: Seq<Directory>, rest: Seq<Directory>, target: Seq<char>) -> Seq<
    Directory,
>
    decreases rest.len(),
{
    if rest.len() == 0 {
        acc
    } else {
        let d = rest[0];
        let kept = d.path@ != target && (match d.parent {
            None => true,
            Some(p) => has_dir_id(acc, p),
        });
        remove_dirs_rec(if kept { acc.push(d) } else { acc }, rest.drop_first(), target)
    }
}

/// The directories relation without the subtree rooted at `target`.
pub open spec fn dirs_without_subtree(dirs: Seq<Directory>, target: Seq<char>) -> Seq<Directory> {
    remove_dirs_rec(Seq::empty(), dirs, target)
}

/// When every row's owning directory is still present, restricting the
/// documents relation to those rows changes nothing.
pub proof fn lemma_docs_in_dirs_all(docs: Seq<Document>, dirs: Seq<Directory>)
    requires
        forall|i: int| 0 <= i < docs.len() ==> has_dir_id(dirs, #[trigger] docs[i].directory),
    ensures
        docs_in_dirs(docs, dirs) == docs,
    decreases docs.len(),
{
    if docs.len() > 0 {
        let pre = docs.drop_last();
        assert(forall|i: int| 0 <= i < pre.len() ==> #[trigger] pre[i] == docs[i]);
        lemma_docs_in_dirs_all(pre, dirs);
        assert(pre.push(docs.last()) =~= docs);
    }
}

/// When every root of `rest` is kept, and every other row of `rest` has
/// its parent among the survivors so far or earlier in `rest`, trimming
/// keeps every row.
pub proof fn lemma_trim_rec_identity(acc: Seq<Directory>, rest: Seq<Directory>, keep: Seq<String>)
    requires
        forall|j: int| #![trigger rest[j]]
            0 <= j < rest.len() ==> (rest[j].parent is None ==> seq_has_str(keep, rest[j].path@)),
        forall|j: int| #![trigger rest[j]]
            0 <= j < rest.len() ==> match rest[j].parent {
                Some(p) => has_dir_id(acc, p) || (exists|k: int|
                    0 <= k < j && #[trigger] rest[k].id == p),
                None => true,
            },
    ensures
        trim_dirs_rec(acc, rest, keep) == acc + rest,
    decreases rest.len(),
{
    if rest.len() == 0 {
        assert(acc + rest =~= acc);
    } else {
        let d = rest[0];
        assert(match d.parent {
            Some(p) => has_dir_id(acc, p),
            None => seq_has_str(keep, d.path@),
        }) by {
            match d.parent {
                Some(p) => {
                    if !has_dir_id(acc, p) {
                        let k = choose|k: int| 0 <= k < 0 && #[trigger] rest[k].id == p;
                        assert(false);
                    }
                },
                None => {},
            }
        }
        let acc2 = acc.push(d);
        let rest2 = rest.drop_first();
        assert forall|j: int| #![trigger rest2[j]] 0 <= j < rest2.len() implies (rest2[j].parent
            is None ==> seq_has_str(keep, rest2[j].path@)) && match rest2[j].parent {
            Some(p) => has_dir_id(acc2, p) || (exists|k: int|
                0 <= k < j && #[trigger] rest2[k].id == p),
            None => true,
        } by {
            assert(rest2[j] == rest[j + 1]);
            match rest[j + 1].parent {
                Some(p) => {
                    if has_dir_id(acc, p) {
                        let w = choose|w: int| 0 <= w < acc.len() && #[trigger] acc[w].id == p;
                        assert(acc2[w].id == p);
                        assert(has_dir_id(acc2, p));
                    } else {
                        let k = choose|k: int| 0 <= k < j + 1 && #[trigger] rest[k].id == p;
                        if k == 0 {
                            assert(acc2[acc.len() as int].id == p);
                            assert(has_dir_id(acc2, p));
                        } else {
                            assert(rest2[k - 1].id == p);
                        }
                    }
                },
                None => {},
            }
        }
        lemma_trim_rec_identity(acc2, rest2, keep);
        assert(acc2 + rest2 =~= acc + rest);
    }
}

/// A walk report is well formed when every subdirectory's parent path was
/// reported earlier: a walk visits a directory before its children.
pub open spec fn discovered_dirs_wf(d: Seq<FsDirEntry>) -> bool {
    forall|j: int| #![trigger d[j]]
        0 <= j < d.len() ==> match d[j].parent_path {
            Some(pp) => exists|k: int| 0 <= k < j && #[trigger] d[k].path@ == pp@,
            None => true,
        }
}

/// Every reported file sits in a reported directory.
pub open spec fn discovered_files_wf(f: Seq<FsFileEntry>, d: Seq<FsDirEntry>) -> bool {
    forall|j: int| #![trigger f[j]]
        0 <= j < f.len() ==> exists|k: int|
            0 <= k < d.len() && #[trigger] d[k].path@ == f[j].dir_path@
}

/// The candidate row prepared for this file collides with a recorded row
/// on one of the unique keys; such a candidate is silently dropped, as a
/// conflicting insert is.
pub open spec fn doc_conflicts(docs: Seq<Document>, f: FsFileEntry) -> bool {
    ||| has_doc_id(docs, f.id)
    ||| has_doc_path(docs, f.path@)
    ||| (f.custom_id matches Some(c) && has_doc_custom(docs, c@))
}

/// A reported file needs nothing more from the catalog: its directory is
/// recorded and holds a document under the file's name, or its candidate
/// row collides with a recorded one and is dropped.
pub open spec fn file_settled(m: DbModel, f: FsFileEntry) -> bool {
    ||| (has_dir_path(m.dirs, f.dir_path@) && doc_named_in(
        m.docs,
        dir_by_path(m.dirs, f.dir_path@).id,
        f.file_name@,
    ))
    ||| doc_conflicts(m.docs, f)
}

/// Every root that survives trimming has its path among the kept ones.
pub proof fn lemma_trim_rec_roots(acc: Seq<Directory>, rest: Seq<Directory>, keep: Seq<String>)
    requires
        forall|k: int| #![trigger acc[k]]
            0 <= k < acc.len() ==> (acc[k].parent is None ==> seq_has_str(keep, acc[k].path@)),
    ensures
        forall|k: int| #![trigger trim_dirs_rec(acc, rest, keep)[k]]
            0 <= k < trim_dirs_rec(acc, rest, keep).len() ==> (trim_dirs_rec(acc, rest, keep)[k].parent
                is None ==> seq_has_str(keep, trim_dirs_rec(acc, rest, keep)[k].path@)),
    decreases rest.len(),
{
    if rest.len() > 0 {
        let d = rest[0];
        let kept = match d.parent {
            None => seq_has_str(keep, d.path@),
            Some(p) => has_dir_id(acc, p),
        };
        let acc2 = if kept { acc.push(d) } else { acc };
        assert(forall|k: int| #![trigger acc2[k]]
            0 <= k < acc2.len() ==> (acc2[k].parent is None ==> seq_has_str(
                keep,
                acc2[k].path@,
            )));
        lemma_trim_rec_roots(acc2, rest.drop_first(), keep);
    }
}

/// Every document that survives the orphan trim has a path listed as
/// present.
pub proof fn lemma_present_filter_rows(docs: Seq<Document>, present: Seq<String>)
    ensures
        forall|k: int| #![trigger docs_with_present_paths(docs, present)[k]]
            0 <= k < docs_with_present_paths(docs, present).len() ==> seq_has_str(
                present,
                docs_with_present_paths(docs, present)[k].path@,
            ),
    decreases docs.len(),
{
    if docs.len() > 0 {
        lemma_present_filter_rows(docs.drop_last(), present);
    }
}

/// When every document's path is listed as present, the orphan trim
/// changes nothing.
pub proof fn lemma_present_filter_all(docs: Seq<Document>, present: Seq<String>)
    requires
        forall|i: int| 0 <= i < docs.len() ==> seq_has_str(present, #[trigger] docs[i].path@),
    ensures
        docs_with_present_paths(docs, present) == docs,
    decreases docs.len(),
{
    if docs.len() > 0 {
        let pre = docs.drop_last();
        assert(forall|i: int| 0 <= i < pre.len() ==> #[trigger] pre[i] == docs[i]);
        lemma_present_filter_all(pre, present);
        assert(pre.push(docs.last()) =~= docs);
    }
}

/// One parent step between directory rows: the row at `child` names the
/// row at `par` as its parent.
pub open spec fn parent_link(dirs: Seq<Directory>, child: int, par: int) -> bool {
    &&& 0 <= child < dirs.len()
    &&& 0 <= par < dirs.len()
    &&& dirs[child].parent == Some(dirs[par].id)
}

/// In a well-formed catalog, every parent step leads to a strictly earlier
/// row: a parent always exists before any child that references it.
pub proof fn lemma_parent_chain_descends(dirs: Seq<Directory>, next_id: u128, ch: Seq<int>)
    requires
        dirs_wf(dirs, next_id),
        forall|k: int| 0 <= k < ch.len() - 1 ==> parent_link(dirs, #[trigger] ch[k], ch[k + 1]),
    ensures
        forall|k: int| 0 <= k < ch.len() - 1 ==> #[trigger] ch[k + 1] < ch[k],
{
    assert forall|k: int| 0 <= k < ch.len() - 1 implies #[trigger] ch[k + 1] < ch[k] by {
        assert(parent_link(dirs, ch[k], ch[k + 1]));
        let c = ch[k];
        let p = ch[k + 1];
        let pid = dirs[p].id;
        let w = choose|i: int| 0 <= i < c && #[trigger] dirs[i].id == pid;
        assert(dirs[w].id == dirs[p].id);
        assert(w == p);
    }
}

/// Forest invariant: in a well-formed catalog no directory is its own
/// ancestor.  A chain of parent steps only ever reaches strictly earlier
/// rows, so it can never return to where it started; since
/// `insert_directory` only records a row whose parent already exists, no
/// sequence of inserts can build a cycle.
pub proof fn lemma_no_self_ancestor(dirs: Seq<Directory>, next_id: u128, ch: Seq<int>)
    requires
        dirs_wf(dirs, next_id),
        ch.len() >= 2,
        forall|k: int| 0 <= k < ch.len() - 1 ==> parent_link(dirs, #[trigger] ch[k], ch[k + 1]),
    ensures
        ch[ch.len() - 1] < ch[0],
        ch[ch.len() - 1] != ch[0],
    decreases ch.len(),
{
    lemma_parent_chain_descends(dirs, next_id, ch);
    if ch.len() > 2 {
        let ch2 = ch.drop_first();
        assert forall|k: int| 0 <= k < ch2.len() - 1 implies parent_link(
            dirs,
            #[trigger] ch2[k],
            ch2[k + 1],
        ) by {
            assert(ch2[k] == ch[k + 1] && ch2[k + 1] == ch[k + 2]);
            assert(parent_link(dirs, ch[k + 1], ch[k + 2]));
        }
        lemma_no_self_ancestor(dirs, next_id, ch2);
        assert(ch2[ch2.len() - 1] == ch[ch.len() - 1]);
        assert(ch2[0] == ch[1]);
    }
}

/// First directory row carrying the given path, if any.
fn find_dir_by_path_ix(dirs: &Vec<Directory>, key: &String) -> (r: Option<usize>)
    ensures
        match r {
            Some(i) => i < dirs.len() && dirs@[i as int].path@ == key@,
            None => !has_dir_path(dirs@, key@),
        },
{
    let mut i: usize = 0;
    while i < dirs.len()
        invariant
            i <= dirs.len(),
            forall|j: int| 0 <= j < i ==> #[trigger] dirs@[j].path@ != key@,
        decreases dirs.len() - i,
    {
        if dirs[i].path == *key {
            return Some(i);
        }
        i += 1;
    }
    None
}

/// First directory row carrying the given identifier, if any.
fn find_dir_by_id_ix(dirs: &Vec<Directory>, id: u128) -> (r: Option<usize>)
    ensures
        match r {
            Some(i) => i < dirs.len() && dirs@[i as int].id == id,
            None => !has_dir_id(dirs@, id),
        },
{
    let mut i: usize = 0;
    while i < dirs.len()
        invariant
            i <= dirs.len(),
            forall|j: int| 0 <= j < i ==> #[trigger] dirs@[j].id != id,
        decreases dirs.len() - i,
    {
        if dirs[i].id == id {
            return Some(i);
        }
        i += 1;
    }
    None
}

/// First document row carrying the given identifier, if any.
fn find_doc_by_id_ix(docs: &Vec<Document>, id: u128) -> (r: Option<usize>)
    ensures
        match r {
            Some(i) => i < docs.len() && docs@[i as int].id == id,
            None => !has_doc_id(docs@, id),
        },
{
    let mut i: usize = 0;
    while i < docs.len()
        invariant
            i <= docs.len(),
            forall|j: int| 0 <= j < i ==> #[trigger] docs@[j].id != id,
        decreases docs.len() - i,
    {
        if docs[i].id == id {
            return Some(i);
        }
        i += 1;
    }
    None
}

/// First document row carrying the given path, if any.
fn find_doc_by_path_ix(docs: &Vec<Document>, key: &String) -> (r: Option<usize>)
    ensures
        match r {
            Some(i) => i < docs.len() && docs@[i as int].path@ == key@,
            None => !has_doc_path(docs@, key@),
        },
{
    let mut i: usize = 0;
    while i < docs.len()
        invariant
            i <= docs.len(),
            forall|j: int| 0 <= j < i ==> #[trigger] docs@[j].path@ != key@,
        decreases docs.len() - i,
    {
        if docs[i].path == *key {
            return Some(i);
        }
        i += 1;
    }
    None
}

/// First document row carrying the given custom identifier, if any.
fn find_doc_by_custom_ix(docs: &Vec<Document>, key: &String) -> (r: Option<usize>)
    ensures
        match r {
            Some(i) => i < docs.len() && doc_has_custom(docs@[i as int], key@),
            None => !has_doc_custom(docs@, key@),
        },
{
    let mut i: usize = 0;
    while i < docs.len()
        invariant
            i <= docs.len(),
            forall|j: int| 0 <= j < i ==> !doc_has_custom(#[trigger] docs@[j], key@),
        decreases docs.len() - i,
    {
        let hit = match &docs[i].custom_id {
            Some(c) => *c == *key,
            None => false,
        };
        if hit {
            return Some(i);
        }
        i += 1;
    }
    None
}

/// Whether some document row in the given directory carries this file name.
fn doc_named_in_exec(docs: &Vec<Document>, dir: u128, name: &String) -> (r: bool)
    ensures
        r == doc_named_in(docs@, dir, name@),
{
    let mut i: usize = 0;
    while i < docs.len()
        invariant
            i <= docs.len(),
            forall|j: int|
                0 <= j < i ==> !(#[trigger] docs@[j].directory == dir && docs@[j].file_name@
                    == name@),
        decreases docs.len() - i,
    {
        if docs[i].directory == dir && docs[i].file_name == *name {
            return true;
        }
        i += 1;
    }
    false
}

/// Whether any string of the slice has the same characters as the key.
fn slice_contains_string(v: &[String], key: &String) -> (r: bool)
    ensures
        r == seq_has_str(v@, key@),
{
    let mut i: usize = 0;
    while i < v.len()
        invariant
            i <= v.len(),
            forall|j: int| 0 <= j < i ==> #[trigger] v@[j]@ != key@,
        decreases v.len() - i,
    {
        if v[i] == *key {
            return true;
        }
        i += 1;
    }
    false
}

/// Whether a root row (no parent) carries this identifier; identifiers
/// must be unique for the first match to decide.
fn root_check(dirs: &Vec<Directory>, id: u128) -> (r: bool)
    requires
        forall|i: int, j: int|
            0 <= i < dirs@.len() && 0 <= j < dirs@.len() && #[trigger] dirs@[i].id
                == #[trigger] dirs@[j].id ==> i == j,
    ensures
        r == is_root_id(dirs@, id),
{
    match find_dir_by_id_ix(dirs, id) {
        Some(i) => {
            let root = dirs[i].parent.is_none();
            proof {
                if root {
                    assert(is_root_id(dirs@, id));
                } else {
                    if is_root_id(dirs@, id) {
                        let j = choose|j: int|
                            0 <= j < dirs@.len() && #[trigger] dirs@[j].id == id && dirs@[j].parent
                                is None;
                        assert(j == i);
                    }
                }
            }
            root
        },
        None => {
            proof {
                if is_root_id(dirs@, id) {
                    let j = choose|j: int|
                        0 <= j < dirs@.len() && #[trigger] dirs@[j].id == id && dirs@[j].parent
                            is None;
                    assert(has_dir_id(dirs@, id));
                }
            }
            false
        },
    }
}

/// The listing entry built from a document row, with its value pinned.
fn make_doc_entry(d: &Document) -> (r: DirectoryEntry)
    ensures
        r == doc_entry(*d),
{
    DirectoryEntry {
        id: d.id,
        parent: Some(d.directory),
        name: d.file_name.clone(),
        kind: EntryKind::File,
        title: crate::models::clone_opt_string(&d.title),
        custom_id: crate::models::clone_opt_string(&d.custom_id),
    }
}

/// The listing entry built from a directory row, with its value pinned.
fn make_dir_entry(d: &Directory) -> (r: DirectoryEntry)
    ensures
        r == dir_entry(*d),
{
    DirectoryEntry {
        id: d.id,
        parent: d.parent,
        name: d.name.clone(),
        kind: EntryKind::Directory,
        title: None,
        custom_id: None,
    }
}

/// Whether any string of the vector has the same characters as the key.
fn contains_string(v: &Vec<String>, key: &String) -> (r: bool)
    ensures
        r == seq_has_str(v@, key@),
{
    let mut i: usize = 0;
    while i < v.len()
        invariant
            i <= v.len(),
            forall|j: int| 0 <= j < i ==> #[trigger] v@[j]@ != key@,
        decreases v.len() - i,
    {
        if v[i] == *key {
            return true;
        }
        i += 1;
    }
    false
}

impl Database {
    /// The store invariant; established by [`Database::new`] and preserved
    /// by every operation.
    pub open spec fn wf(&self) -> bool {
        db_wf(self@)
    }

    /// An empty catalog.
    pub fn new() -> (r: Database)
        ensures
            r.wf(),
            r@.dirs == Seq::<Directory>::empty(),
            r@.docs == Seq::<Document>::empty(),
            r@.next_id == 0,
    {
        Database { dirs: Vec::new(), docs: Vec::new(), next_id: 0 }
    }

    /// Record a new directory.  Fails if the path is already taken, if the
    /// named parent is not in the catalog, or if no identifier is left to
    /// mint; otherwise appends the row and returns it.
    pub fn insert_directory(&mut self, path: &str, name: &str, parent: Option<u128>) -> (r:
        Result<Directory, KnawledgeError>)
        requires
            old(self).wf(),
        ensures
            final(self).wf(),
            ({
                let m = old(self)@;
                let n = final(self)@;
                let dup = has_dir_path(m.dirs, path@);
                let parent_ok = (parent matches Some(p) ==> has_dir_id(m.dirs, p));
                &&& dup ==> r == Err::<Directory, KnawledgeError>(
                    KnawledgeError::Store(StoreViolation::DuplicatePath),
                ) && n == m
                &&& !dup && !parent_ok ==> r == Err::<Directory, KnawledgeError>(
                    KnawledgeError::Store(StoreViolation::MissingParent),
                ) && n == m
                &&& !dup && parent_ok && m.next_id == u128::MAX ==> r == Err::<
                    Directory,
                    KnawledgeError,
                >(KnawledgeError::Store(StoreViolation::IdSpace)) && n == m
                &&& !dup && parent_ok && m.next_id < u128::MAX ==> (r matches Ok(d)
                    && d.id == m.next_id && d.path@ == path@ && d.name@ == name@
                    && d.parent == parent && n.dirs == m.dirs.push(d) && n.docs == m.docs
                    && n.next_id == m.next_id + 1 && has_dir_path(n.dirs, path@)
                    && dir_by_path(n.dirs, path@) == d)
            }),
    {
        let key = path.to_owned();
        if find_dir_by_path_ix(&self.dirs, &key).is_some() {
            return Err(KnawledgeError::Store(StoreViolation::DuplicatePath));
        }
        let parent_ok = match parent {
            Some(p) => find_dir_by_id_ix(&self.dirs, p).is_some(),
            None => true,
        };
        if !parent_ok {
            return Err(KnawledgeError::Store(StoreViolation::MissingParent));
        }
        if self.next_id == u128::MAX {
            return Err(KnawledgeError::Store(StoreViolation::IdSpace));
        }
        let d = Directory { id: self.next_id, path: key, name: name.to_owned(), parent };
        self.next_id = self.next_id + 1;
        self.dirs.push(d.duplicate());
        proof {
            let nd = self@.dirs;
            let od = old(self)@.dirs;
            let ln = od.len() as int;
            assert(nd =~= od.push(d));
            assert(nd[ln] == d);
            assert forall|i: int, j: int|
                0 <= i < nd.len() && 0 <= j < nd.len() && #[trigger] nd[i].path@
                    == #[trigger] nd[j].path@ implies i == j by {
                if i == ln && j < ln {
                    assert(nd[j] == od[j]);
                    assert(od[j].path@ == nd[j].path@);
                    assert(has_dir_path(od, nd[j].path@));
                } else if j == ln && i < ln {
                    assert(nd[i] == od[i]);
                    assert(od[i].path@ == nd[i].path@);
                    assert(has_dir_path(od, nd[i].path@));
                }
            }
            assert forall|i: int, j: int|
                0 <= i < nd.len() && 0 <= j < nd.len() && #[trigger] nd[i].id
                    == #[trigger] nd[j].id implies i == j by {
                if i == ln && j < ln {
                    assert(od[j].id < d.id);
                } else if j == ln && i < ln {
                    assert(od[i].id < d.id);
                }
            }
            assert forall|j: int| 0 <= j < nd.len() implies match #[trigger] nd[j].parent {
                Some(p) => exists|i: int| 0 <= i < j && #[trigger] nd[i].id == p,
                None => true,
            } by {
                if j == ln {
                    match d.parent {
                        Some(p) => {
                            let wi = choose|i: int| 0 <= i < ln && #[trigger] od[i].id == p;
                            assert(nd[wi].id == p);
                        },
                        None => {},
                    }
                } else {
                    match od[j].parent {
                        Some(p) => {
                            let wi = choose|i: int| 0 <= i < j && #[trigger] od[i].id == p;
                            assert(nd[wi].id == p);
                        },
                        None => {},
                    }
                }
            }
            assert forall|i: int| 0 <= i < self@.docs.len() implies has_dir_id(
                nd,
                #[trigger] self@.docs[i].directory,
            ) by {
                let p = self@.docs[i].directory;
                let wi = choose|k: int| 0 <= k < ln && #[trigger] od[k].id == p;
                assert(nd[wi].id == p);
            }
            assert(nd[ln].path@ == path@);
            assert(has_dir_path(nd, path@));
            let ci = choose|i: int| 0 <= i < nd.len() && #[trigger] nd[i].path@ == path@;
            assert(nd[ci].path@ == nd[ln].path@);
            assert(ci == ln);
            assert(dir_by_path(nd, path@) == d);
        }
        Ok(d)
    }

    /// Record a document.  The call is idempotent: when a row with the same
    /// id already exists — or when the path or custom identifier is already
    /// taken — it succeeds and leaves the catalog unchanged.  It fails only
    /// when a genuinely new row names a directory that is not recorded.
    pub fn insert_document(&mut self, document: Document) -> (r: Result<(), KnawledgeError>)
        requires
            old(self).wf(),
        ensures
            final(self).wf(),
            ({
                let m = old(self)@;
                let n = final(self)@;
                let conflict = has_doc_id(m.docs, document.id) || has_doc_path(
                    m.docs,
                    document.path@,
                ) || (document.custom_id matches Some(c) && has_doc_custom(m.docs, c@));
                let dir_ok = has_dir_id(m.dirs, document.directory);
                &&& conflict ==> r == Ok::<(), KnawledgeError>(()) && n == m
                &&& !conflict && !dir_ok ==> r == Err::<(), KnawledgeError>(
                    KnawledgeError::Store(StoreViolation::MissingDirectory),
                ) && n == m
                &&& !conflict && dir_ok ==> r == Ok::<(), KnawledgeError>(()) && n.docs
                    == m.docs.push(document) && n.dirs == m.dirs && n.next_id == m.next_id
            }),
    {
        let id_dup = find_doc_by_id_ix(&self.docs, document.id).is_some();
        let path_dup = find_doc_by_path_ix(&self.docs, &document.path).is_some();
        let custom_dup = match &document.custom_id {
            Some(c) => find_doc_by_custom_ix(&self.docs, c).is_some(),
            None => false,
        };
        if id_dup || path_dup || custom_dup {
            return Ok(());
        }
        if find_dir_by_id_ix(&self.dirs, document.directory).is_none() {
            return Err(KnawledgeError::Store(StoreViolation::MissingDirectory));
        }
        proof {
            let od = self@.docs;
            let nd = self@.docs.push(document);
            let ln = od.len() as int;
            assert forall|i: int, j: int|
                0 <= i < nd.len() && 0 <= j < nd.len() && #[trigger] nd[i].id
                    == #[trigger] nd[j].id implies i == j by {
                if i == ln && j < ln {
                    assert(has_doc_id(od, nd[j].id));
                } else if j == ln && i < ln {
                    assert(has_doc_id(od, nd[i].id));
                }
            }
            assert forall|i: int, j: int|
                0 <= i < nd.len() && 0 <= j < nd.len() && #[trigger] nd[i].path@
                    == #[trigger] nd[j].path@ implies i == j by {
                if i == ln && j < ln {
                    assert(has_doc_path(od, nd[j].path@));
                } else if j == ln && i < ln {
                    assert(has_doc_path(od, nd[i].path@));
                }
            }
            assert forall|i: int, j: int, c: Seq<char>|
                0 <= i < nd.len() && 0 <= j < nd.len() && #[trigger] doc_has_custom(nd[i], c)
                    && #[trigger] doc_has_custom(nd[j], c) implies i == j by {
                if i == ln && j < ln {
                    assert(has_doc_custom(od, c));
                } else if j == ln && i < ln {
                    assert(has_doc_custom(od, c));
                }
            }
        }
        self.docs.push(document);
        Ok(())
    }

    /// The path of the document recorded under this identifier, if any.
    pub fn get_document_path(&self, id: u128) -> (r: Result<Option<String>, KnawledgeError>)
        requires
            self.wf(),
        ensures
            r matches Ok(o) && o == (if has_doc_id(self@.docs, id) {
                Some(doc_by_id(self@.docs, id).path)
            } else {
                None
            }),
    {
        match find_doc_by_id_ix(&self.docs, id) {
            Some(i) => {
                proof {
                    let docs = self@.docs;
                    let ci = choose|k: int| 0 <= k < docs.len() && #[trigger] docs[k].id == id;
                    assert(docs[ci].id == docs[i as int].id);
                }
                Ok(Some(self.docs[i].path.clone()))
            },
            None => Ok(None),
        }
    }

    /// The path of the document recorded under this custom identifier, if
    /// any.
    pub fn get_document_path_by_custom_id(&self, custom_id: &str) -> (r: Result<
        Option<String>,
        KnawledgeError,
    >)
        requires
            self.wf(),
        ensures
            r matches Ok(o) && o == (if has_doc_custom(self@.docs, custom_id@) {
                Some(doc_by_custom(self@.docs, custom_id@).path)
            } else {
                None
            }),
    {
        let key = custom_id.to_owned();
        match find_doc_by_custom_ix(&self.docs, &key) {
            Some(i) => {
                proof {
                    let docs = self@.docs;
                    let ci = choose|k: int|
                        0 <= k < docs.len() && doc_has_custom(#[trigger] docs[k], custom_id@);
                    assert(doc_has_custom(docs[ci], custom_id@) && doc_has_custom(
                        docs[i as int],
                        custom_id@,
                    ));
                }
                Ok(Some(self.docs[i].path.clone()))
            },
            None => Ok(None),
        }
    }

    /// The identifier and path of the document recorded under this custom
    /// identifier, if any.
    pub fn get_doc_id_path_by_custom_id(&self, custom_id: &str) -> (r: Result<
        Option<(u128, String)>,
        KnawledgeError,
    >)
        requires
            self.wf(),
        ensures
            r matches Ok(o) && o == (if has_doc_custom(self@.docs, custom_id@) {
                Some(
                    (
                        doc_by_custom(self@.docs, custom_id@).id,
                        doc_by_custom(self@.docs, custom_id@).path,
                    ),
                )
            } else {
                None
            }),
    {
        let key = custom_id.to_owned();
        match find_doc_by_custom_ix(&self.docs, &key) {
            Some(i) => {
                proof {
                    let docs = self@.docs;
                    let ci = choose|k: int|
                        0 <= k < docs.len() && doc_has_custom(#[trigger] docs[k], custom_id@);
                    assert(doc_has_custom(docs[ci], custom_id@) && doc_has_custom(
                        docs[i as int],
                        custom_id@,
                    ));
                }
                Ok(Some((self.docs[i].id, self.docs[i].path.clone())))
            },
            None => Ok(None),
        }
    }

    /// The paths of every recorded document, in row order.
    pub fn get_all_file_paths(&self) -> (r: Result<Vec<String>, KnawledgeError>)
        requires
            self.wf(),
        ensures
            r matches Ok(v) && v@ == doc_paths_of(self@.docs),
    {
        let mut out: Vec<String> = Vec::new();
        let mut i: usize = 0;
        while i < self.docs.len()
            invariant
                i <= self.docs.len(),
                out@ == doc_paths_of(self@.docs.take(i as int)),
            decreases self.docs.len() - i,
        {
            out.push(self.docs[i].path.clone());
            proof {
                let docs = self@.docs;
                let t1 = docs.take(i + 1);
                assert(t1.drop_last() =~= docs.take(i as int));
                assert(t1.last() == docs[i as int]);
                assert(doc_paths_of(t1) == doc_paths_of(docs.take(i as int)).push(
                    docs[i as int].path,
                ));
            }
            i += 1;
        }
        proof {
            assert(self@.docs.take(self.docs.len() as int) =~= self@.docs);
        }
        Ok(out)
    }

    /// Drop every document row whose path is not among those still present
    /// on disk; every other row, and every directory, is left untouched.
    /// This is the orphan-cleanup step of a synchronization pass.
    pub fn trim_missing_files(&mut self, present: &Vec<String>) -> (r: Result<
        (),
        KnawledgeError,
    >)
        requires
            old(self).wf(),
        ensures
            final(self).wf(),
            r == Ok::<(), KnawledgeError>(()),
            final(self)@.docs == docs_with_present_paths(old(self)@.docs, present@),
            final(self)@.dirs == old(self)@.dirs,
            final(self)@.next_id == old(self)@.next_id,
    {
        let mut kept: Vec<Document> = Vec::new();
        let mut i: usize = 0;
        while i < self.docs.len()
            invariant
                i <= self.docs.len(),
                self@ == old(self)@,
                old(self).wf(),
                kept@ == docs_with_present_paths(self@.docs.take(i as int), present@),
                docs_unique(kept@),
                forall|k: int|
                    0 <= k < kept@.len() ==> has_dir_id(
                        self@.dirs,
                        #[trigger] kept@[k].directory,
                    ),
                forall|k: int| #![trigger kept@[k]]
                    0 <= k < kept@.len() ==> exists|j: int|
                        0 <= j < i && kept@[k] == #[trigger] self@.docs[j],
            decreases self.docs.len() - i,
        {
            let keep_it = contains_string(present, &self.docs[i].path);
            proof {
                let od = self@.docs;
                let t1 = od.take(i + 1);
                assert(t1.drop_last() =~= od.take(i as int));
                assert(t1.last() == od[i as int]);
                if keep_it {
                    assert(docs_with_present_paths(t1, present@) == docs_with_present_paths(
                        od.take(i as int),
                        present@,
                    ).push(od[i as int]));
                    assert forall|k: int| 0 <= k < kept@.len() implies kept@[k].id != od[
                        i as int
                    ].id && kept@[k].path@ != od[i as int].path@ && (forall|c: Seq<char>|
                        !(#[trigger] doc_has_custom(kept@[k], c) && doc_has_custom(
                            od[i as int],
                            c,
                        )))
                    by {
                        let j = choose|j: int| 0 <= j < i && kept@[k] == #[trigger] od[j];
                        assert(od[j].id == kept@[k].id);
                    }
                } else {
                    assert(docs_with_present_paths(t1, present@) == docs_with_present_paths(
                        od.take(i as int),
                        present@,
                    ));
                }
            }
            if keep_it {
                kept.push((&self.docs[i]).duplicate());
            }
            i += 1;
        }
        proof {
            assert(self@.docs.take(self.docs.len() as int) =~= self@.docs);
        }
        self.docs = kept;
        Ok(())
    }

    /// Delete the document recorded at this path, if any; not finding a
    /// matching row is not an error.
    pub fn remove_file(&mut self, path: &str) -> (r: Result<(), KnawledgeError>)
        requires
            old(self).wf(),
        ensures
            final(self).wf(),
            r == Ok::<(), KnawledgeError>(()),
            final(self)@.docs == docs_without_path(old(self)@.docs, path@),
            final(self)@.dirs == old(self)@.dirs,
            final(self)@.next_id == old(self)@.next_id,
    {
        let key = path.to_owned();
        let mut kept: Vec<Document> = Vec::new();
        let mut i: usize = 0;
        while i < self.docs.len()
            invariant
                i <= self.docs.len(),
                self@ == old(self)@,
                old(self).wf(),
                key@ == path@,
                kept@ == docs_without_path(self@.docs.take(i as int), path@),
                docs_unique(kept@),
                forall|k: int|
                    0 <= k < kept@.len() ==> has_dir_id(
                        self@.dirs,
                        #[trigger] kept@[k].directory,
                    ),
                forall|k: int| #![trigger kept@[k]]
                    0 <= k < kept@.len() ==> exists|j: int|
                        0 <= j < i && kept@[k] == #[trigger] self@.docs[j],
            decreases self.docs.len() - i,
        {
            let keep_it = !(self.docs[i].path == key);
            proof {
                let od = self@.docs;
                let t1 = od.take(i + 1);
                assert(t1.drop_last() =~= od.take(i as int));
                assert(t1.last() == od[i as int]);
                if keep_it {
                    assert(docs_without_path(t1, path@) == docs_without_path(
                        od.take(i as int),
                        path@,
                    ).push(od[i as int]));
                    assert forall|k: int| 0 <= k < kept@.len() implies kept@[k].id != od[
                        i as int
                    ].id && kept@[k].path@ != od[i as int].path@ && (forall|c: Seq<char>|
                        !(#[trigger] doc_has_custom(kept@[k], c) && doc_has_custom(
                            od[i as int],
                            c,
                        )))
                    by {
                        let j = choose|j: int| 0 <= j < i && kept@[k] == #[trigger] od[j];
                        assert(od[j].id == kept@[k].id);
                    }
                } else {
                    assert(docs_without_path(t1, path@) == docs_without_path(
                        od.take(i as int),
                        path@,
                    ));
                }
            }
            if keep_it {
                kept.push((&self.docs[i]).duplicate());
            }
            i += 1;
        }
        proof {
            assert(self@.docs.take(self.docs.len() as int) =~= self@.docs);
        }
        self.docs = kept;
        Ok(())
    }

    /// The directory recorded under exactly this path, if any.
    pub fn get_dir_by_path(&self, path: &str) -> (r: Result<
        Option<Directory>,
        KnawledgeError,
    >)
        requires
            self.wf(),
        ensures
            r matches Ok(o) && o == (if has_dir_path(self@.dirs, path@) {
                Some(dir_by_path(self@.dirs, path@))
            } else {
                None
            }),
    {
        let key = path.to_owned();
        match find_dir_by_path_ix(&self.dirs, &key) {
            Some(i) => Ok(Some(self.dirs[i].duplicate())),
            None => Ok(None),
        }
    }

    /// The root directory (no parent) recorded under exactly this path, if
    /// any.
    pub fn get_root_by_path(&self, path: &str) -> (r: Result<Option<Directory>, KnawledgeError>)
        requires
            self.wf(),
        ensures
            r matches Ok(o) && o == (if has_root_path(self@.dirs, path@) {
                Some(dir_by_path(self@.dirs, path@))
            } else {
                None
            }),
    {
        let key = path.to_owned();
        match find_dir_by_path_ix(&self.dirs, &key) {
            Some(i) => {
                let root = self.dirs[i].parent.is_none();
                proof {
                    let dirs = self@.dirs;
                    if root {
                        assert(has_root_path(dirs, path@));
                        let ci = choose|k: int| 0 <= k < dirs.len() && #[trigger] dirs[k].path@ == path@;
                        assert(dirs[ci].path@ == dirs[i as int].path@);
                    } else {
                        if has_root_path(dirs, path@) {
                            let j = choose|j: int|
                                0 <= j < dirs.len() && #[trigger] dirs[j].path@ == path@
                                    && dirs[j].parent is None;
                            assert(j == i);
                        }
                    }
                }
                if root {
                    Ok(Some(self.dirs[i].duplicate()))
                } else {
                    Ok(None)
                }
            },
            None => {
                proof {
                    if has_root_path(self@.dirs, path@) {
                        let j = choose|j: int|
                            0 <= j < self@.dirs.len() && #[trigger] self@.dirs[j].path@ == path@
                                && self@.dirs[j].parent is None;
                        assert(has_dir_path(self@.dirs, path@));
                    }
                }
                Ok(None)
            },
        }
    }

    /// The first root directory recorded under this display name, if any.
    pub fn get_root_dir_by_name(&self, name: &str) -> (r: Result<Option<Directory>, KnawledgeError>)
        requires
            self.wf(),
        ensures
            r matches Ok(o) && o == first_root_named(self@.dirs, name@),
    {
        let key = name.to_owned();
        proof {
            assert(self@.dirs.skip(0) =~= self@.dirs);
        }
        let mut i: usize = 0;
        while i < self.dirs.len()
            invariant
                i <= self.dirs.len(),
                key@ == name@,
                first_root_named(self@.dirs.skip(i as int), name@) == first_root_named(
                    self@.dirs,
                    name@,
                ),
            decreases self.dirs.len() - i,
        {
            proof {
                let dirs = self@.dirs;
                let sk = dirs.skip(i as int);
                assert(sk[0] == dirs[i as int]);
                assert(sk.drop_first() =~= dirs.skip(i + 1));
            }
            let hit = self.dirs[i].parent.is_none() && self.dirs[i].name == key;
            if hit {
                return Ok(Some(self.dirs[i].duplicate()));
            }
            i += 1;
        }
        proof {
            assert(self@.dirs.skip(self.dirs.len() as int) =~= Seq::<Directory>::empty());
        }
        Ok(None)
    }

    /// The first directory recorded under this display name and parent, if
    /// any.
    pub fn get_dir_by_name_and_parent(&self, name: &str, id: u128) -> (r: Result<
        Option<Directory>,
        KnawledgeError,
    >)
        requires
            self.wf(),
        ensures
            r matches Ok(o) && o == first_dir_named_under(self@.dirs, name@, id),
    {
        let key = name.to_owned();
        proof {
            assert(self@.dirs.skip(0) =~= self@.dirs);
        }
        let mut i: usize = 0;
        while i < self.dirs.len()
            invariant
                i <= self.dirs.len(),
                key@ == name@,
                first_dir_named_under(self@.dirs.skip(i as int), name@, id)
                    == first_dir_named_under(self@.dirs, name@, id),
            decreases self.dirs.len() - i,
        {
            proof {
                let dirs = self@.dirs;
                let sk = dirs.skip(i as int);
                assert(sk[0] == dirs[i as int]);
                assert(sk.drop_first() =~= dirs.skip(i + 1));
            }
            let here = match self.dirs[i].parent {
                Some(p) => p == id,
                None => false,
            };
            let hit = here && self.dirs[i].name == key;
            if hit {
                return Ok(Some(self.dirs[i].duplicate()));
            }
            i += 1;
        }
        proof {
            assert(self@.dirs.skip(self.dirs.len() as int) =~= Seq::<Directory>::empty());
        }
        Ok(None)
    }

    /// The path of the first document named exactly `index.md`, if any.
    pub fn get_index_path(&self) -> (r: Result<Option<String>, KnawledgeError>)
        requires
            self.wf(),
        ensures
            r matches Ok(o) && o == match first_doc_named(self@.docs, "index.md"@) {
                Some(d) => Some(d.path),
                None => None,
            },
    {
        let key: String = "index.md".to_owned();
        proof {
            assert(self@.docs.skip(0) =~= self@.docs);
        }
        let mut i: usize = 0;
        while i < self.docs.len()
            invariant
                i <= self.docs.len(),
                key@ == "index.md"@,
                first_doc_named(self@.docs.skip(i as int), "index.md"@) == first_doc_named(
                    self@.docs,
                    "index.md"@,
                ),
            decreases self.docs.len() - i,
        {
            proof {
                let docs = self@.docs;
                let sk = docs.skip(i as int);
                assert(sk[0] == docs[i as int]);
                assert(sk.drop_first() =~= docs.skip(i + 1));
            }
            if self.docs[i].file_name == key {
                return Ok(Some(self.docs[i].path.clone()));
            }
            i += 1;
        }
        proof {
            assert(self@.docs.skip(self.docs.len() as int) =~= Seq::<Document>::empty());
        }
        Ok(None)
    }

    /// The paths of every root directory, in row order.
    pub fn list_root_paths(&self) -> (r: Result<Vec<String>, KnawledgeError>)
        requires
            self.wf(),
        ensures
            r matches Ok(v) && v@ == root_paths_of(self@.dirs),
    {
        let mut out: Vec<String> = Vec::new();
        let mut i: usize = 0;
        while i < self.dirs.len()
            invariant
                i <= self.dirs.len(),
                out@ == root_paths_of(self@.dirs.take(i as int)),
            decreases self.dirs.len() - i,
        {
            proof {
                let dirs = self@.dirs;
                let t1 = dirs.take(i + 1);
                assert(t1.drop_last() =~= dirs.take(i as int));
                assert(t1.last() == dirs[i as int]);
            }
            if self.dirs[i].parent.is_none() {
                out.push(self.dirs[i].path.clone());
            }
            i += 1;
        }
        proof {
            assert(self@.dirs.take(self.dirs.len() as int) =~= self@.dirs);
        }
        Ok(out)
    }

    /// The documents of a directory whose file names are among the given
    /// candidates; used to avoid re-creating documents already known.
    pub fn list_existing(&self, directory: u128, file_names: &[String]) -> (r: Result<
        Vec<Document>,
        KnawledgeError,
    >)
        requires
            self.wf(),
        ensures
            r matches Ok(v) && v@ == docs_in_dir_named(self@.docs, directory, file_names@),
    {
        let mut out: Vec<Document> = Vec::new();
        let mut i: usize = 0;
        while i < self.docs.len()
            invariant
                i <= self.docs.len(),
                out@ == docs_in_dir_named(self@.docs.take(i as int), directory, file_names@),
            decreases self.docs.len() - i,
        {
            proof {
                let docs = self@.docs;
                let t1 = docs.take(i + 1);
                assert(t1.drop_last() =~= docs.take(i as int));
                assert(t1.last() == docs[i as int]);
            }
            if self.docs[i].directory == directory && slice_contains_string(
                file_names,
                &self.docs[i].file_name,
            ) {
                out.push((&self.docs[i]).duplicate());
            }
            i += 1;
        }
        proof {
            assert(self@.docs.take(self.docs.len() as int) =~= self@.docs);
        }
        Ok(out)
    }

    /// One level of an arbitrary directory: its documents, then its
    /// subdirectories, each in row order.
    pub fn list_entries(&self, id: u128) -> (r: Result<Vec<DirectoryEntry>, KnawledgeError>)
        requires
            self.wf(),
        ensures
            r matches Ok(v) && v@ == doc_entries_under(self@.docs, id) + dir_entries_under(
                self@.dirs,
                id,
            ),
    {
        let mut out: Vec<DirectoryEntry> = Vec::new();
        let mut i: usize = 0;
        while i < self.docs.len()
            invariant
                i <= self.docs.len(),
                out@ == doc_entries_under(self@.docs.take(i as int), id),
            decreases self.docs.len() - i,
        {
            proof {
                let docs = self@.docs;
                let t1 = docs.take(i + 1);
                assert(t1.drop_last() =~= docs.take(i as int));
                assert(t1.last() == docs[i as int]);
            }
            if self.docs[i].directory == id {
                out.push(make_doc_entry(&self.docs[i]));
            }
            i += 1;
        }
        proof {
            assert(self@.docs.take(self.docs.len() as int) =~= self@.docs);
        }
        let mut j: usize = 0;
        while j < self.dirs.len()
            invariant
                j <= self.dirs.len(),
                out@ == doc_entries_under(self@.docs, id) + dir_entries_under(
                    self@.dirs.take(j as int),
                    id,
                ),
            decreases self.dirs.len() - j,
        {
            proof {
                let dirs = self@.dirs;
                let t1 = dirs.take(j + 1);
                assert(t1.drop_last() =~= dirs.take(j as int));
                assert(t1.last() == dirs[j as int]);
                if dirs[j as int].parent == Some(id) {
                    assert(doc_entries_under(self@.docs, id) + dir_entries_under(t1, id)
                        =~= (doc_entries_under(self@.docs, id) + dir_entries_under(
                        dirs.take(j as int),
                        id,
                    )).push(dir_entry(dirs[j as int])));
                }
            }
            let here = match self.dirs[j].parent {
                Some(p) => p == id,
                None => false,
            };
            if here {
                out.push(make_dir_entry(&self.dirs[j]));
            }
            j += 1;
        }
        proof {
            assert(self@.dirs.take(self.dirs.len() as int) =~= self@.dirs);
        }
        Ok(out)
    }

    /// Every root, then every document and subdirectory directly under a
    /// root: entries with a parent come first, root entries last.
    pub fn list_roots_with_entries(&self) -> (r: Result<Vec<DirectoryEntry>, KnawledgeError>)
        requires
            self.wf(),
        ensures
            r matches Ok(v) && v@ == doc_entries_under_roots(self@.docs, self@.dirs)
                + dir_entries_under_roots(self@.dirs, self@.dirs) + root_entries(self@.dirs),
    {
        let mut out: Vec<DirectoryEntry> = Vec::new();
        let mut i: usize = 0;
        while i < self.docs.len()
            invariant
                i <= self.docs.len(),
                self.wf(),
                out@ == doc_entries_under_roots(self@.docs.take(i as int), self@.dirs),
            decreases self.docs.len() - i,
        {
            proof {
                let docs = self@.docs;
                let t1 = docs.take(i + 1);
                assert(t1.drop_last() =~= docs.take(i as int));
                assert(t1.last() == docs[i as int]);
            }
            if root_check(&self.dirs, self.docs[i].directory) {
                out.push(make_doc_entry(&self.docs[i]));
            }
            i += 1;
        }
        proof {
            assert(self@.docs.take(self.docs.len() as int) =~= self@.docs);
        }
        let mut j: usize = 0;
        while j < self.dirs.len()
            invariant
                j <= self.dirs.len(),
                self.wf(),
                out@ == doc_entries_under_roots(self@.docs, self@.dirs) + dir_entries_under_roots(
                    self@.dirs.take(j as int),
                    self@.dirs,
                ),
            decreases self.dirs.len() - j,
        {
            proof {
                let dirs = self@.dirs;
                let t1 = dirs.take(j + 1);
                assert(t1.drop_last() =~= dirs.take(j as int));
                assert(t1.last() == dirs[j as int]);
            }
            let here = match self.dirs[j].parent {
                Some(p) => root_check(&self.dirs, p),
                None => false,
            };
            if here {
                out.push(make_dir_entry(&self.dirs[j]));
            }
            j += 1;
        }
        proof {
            assert(self@.dirs.take(self.dirs.len() as int) =~= self@.dirs);
        }
        let mut k: usize = 0;
        while k < self.dirs.len()
            invariant
                k <= self.dirs.len(),
                self.wf(),
                out@ == doc_entries_under_roots(self@.docs, self@.dirs) + dir_entries_under_roots(
                    self@.dirs,
                    self@.dirs,
                ) + root_entries(self@.dirs.take(k as int)),
            decreases self.dirs.len() - k,
        {
            proof {
                let dirs = self@.dirs;
                let t1 = dirs.take(k + 1);
                assert(t1.drop_last() =~= dirs.take(k as int));
                assert(t1.last() == dirs[k as int]);
            }
            if self.dirs[k].parent.is_none() {
                out.push(make_dir_entry(&self.dirs[k]));
            }
            k += 1;
        }
        proof {
            assert(self@.dirs.take(self.dirs.len() as int) =~= self@.dirs);
        }
        Ok(out)
    }

    /// Drop every document row whose owning directory is no longer in the
    /// catalog; the directories themselves are left untouched.
    fn prune_docs_to_dirs(&mut self)
        requires
            dirs_wf(old(self)@.dirs, old(self)@.next_id),
            docs_unique(old(self)@.docs),
        ensures
            final(self).wf(),
            final(self)@.docs == docs_in_dirs(old(self)@.docs, old(self)@.dirs),
            final(self)@.dirs == old(self)@.dirs,
            final(self)@.next_id == old(self)@.next_id,
    {
        let mut kept: Vec<Document> = Vec::new();
        let mut i: usize = 0;
        while i < self.docs.len()
            invariant
                i <= self.docs.len(),
                self@ == old(self)@,
                dirs_wf(self@.dirs, self@.next_id),
                docs_unique(self@.docs),
                kept@ == docs_in_dirs(self@.docs.take(i as int), self@.dirs),
                docs_unique(kept@),
                forall|k: int|
                    0 <= k < kept@.len() ==> has_dir_id(
                        self@.dirs,
                        #[trigger] kept@[k].directory,
                    ),
                forall|k: int| #![trigger kept@[k]]
                    0 <= k < kept@.len() ==> exists|j: int|
                        0 <= j < i && kept@[k] == #[trigger] self@.docs[j],
            decreases self.docs.len() - i,
        {
            let keep_it = find_dir_by_id_ix(&self.dirs, self.docs[i].directory).is_some();
            proof {
                let od = self@.docs;
                let t1 = od.take(i + 1);
                assert(t1.drop_last() =~= od.take(i as int));
                assert(t1.last() == od[i as int]);
                if keep_it {
                    assert(docs_in_dirs(t1, self@.dirs) == docs_in_dirs(
                        od.take(i as int),
                        self@.dirs,
                    ).push(od[i as int]));
                    assert forall|k: int| 0 <= k < kept@.len() implies kept@[k].id != od[
                        i as int
                    ].id && kept@[k].path@ != od[i as int].path@ && (forall|c: Seq<char>|
                        !(#[trigger] doc_has_custom(kept@[k], c) && doc_has_custom(
                            od[i as int],
                            c,
                        )))
                    by {
                        let j = choose|j: int| 0 <= j < i && kept@[k] == #[trigger] od[j];
                        assert(od[j].id == kept@[k].id);
                    }
                } else {
                    assert(docs_in_dirs(t1, self@.dirs) == docs_in_dirs(
                        od.take(i as int),
                        self@.dirs,
                    ));
                }
            }
            if keep_it {
                kept.push((&self.docs[i]).duplicate());
            }
            i += 1;
        }
        proof {
            assert(self@.docs.take(self.docs.len() as int) =~= self@.docs);
        }
        self.docs = kept;
    }

    /// Delete the directory recorded at this path, if any, together with
    /// every directory beneath it and every document in the deleted
    /// directories; not finding a matching row is not an error.
    pub fn remove_dir(&mut self, path: &str) -> (r: Result<(), KnawledgeError>)
        requires
            old(self).wf(),
        ensures
            final(self).wf(),
            r == Ok::<(), KnawledgeError>(()),
            final(self)@.dirs == dirs_without_subtree(old(self)@.dirs, path@),
            final(self)@.docs == docs_in_dirs(old(self)@.docs, final(self)@.dirs),
            final(self)@.next_id == old(self)@.next_id,
    {
        let key = path.to_owned();
        let mut kept: Vec<Directory> = Vec::new();
        proof {
            assert(self@.dirs.skip(0) =~= self@.dirs);
        }
        let mut i: usize = 0;
        while i < self.dirs.len()
            invariant
                i <= self.dirs.len(),
                self@ == old(self)@,
                old(self).wf(),
                key@ == path@,
                remove_dirs_rec(kept@, self@.dirs.skip(i as int), path@) == dirs_without_subtree(
                    self@.dirs,
                    path@,
                ),
                forall|k1: int, k2: int|
                    0 <= k1 < kept@.len() && 0 <= k2 < kept@.len() && #[trigger] kept@[k1].id
                        == #[trigger] kept@[k2].id ==> k1 == k2,
                forall|k1: int, k2: int|
                    0 <= k1 < kept@.len() && 0 <= k2 < kept@.len() && #[trigger] kept@[k1].path@
                        == #[trigger] kept@[k2].path@ ==> k1 == k2,
                forall|k: int| 0 <= k < kept@.len() ==> #[trigger] kept@[k].id < self@.next_id,
                forall|k: int|
                    0 <= k < kept@.len() ==> match #[trigger] kept@[k].parent {
                        Some(p) => exists|k2: int| 0 <= k2 < k && #[trigger] kept@[k2].id == p,
                        None => true,
                    },
                forall|k: int| #![trigger kept@[k]]
                    0 <= k < kept@.len() ==> exists|j: int|
                        0 <= j < i && kept@[k] == #[trigger] self@.dirs[j],
            decreases self.dirs.len() - i,
        {
            let differs = !(self.dirs[i].path == key);
            let parent_in = match self.dirs[i].parent {
                Some(p) => find_dir_by_id_ix(&kept, p).is_some(),
                None => true,
            };
            let keep_it = differs && parent_in;
            proof {
                let dirs = self@.dirs;
                let sk = dirs.skip(i as int);
                assert(sk[0] == dirs[i as int]);
                assert(sk.drop_first() =~= dirs.skip(i + 1));
                if keep_it {
                    assert forall|k: int| 0 <= k < kept@.len() implies kept@[k].id != dirs[
                        i as int
                    ].id && kept@[k].path@ != dirs[i as int].path@ by {
                        let j = choose|j: int| 0 <= j < i && kept@[k] == #[trigger] dirs[j];
                        assert(dirs[j].id == kept@[k].id);
                    }
                }
            }
            let ghost kpre = kept@;
            let ghost drow = self@.dirs[i as int];
            if keep_it {
                kept.push((&self.dirs[i]).duplicate());
                proof {
                    assert(kept@ =~= kpre.push(drow));
                    assert forall|k: int| 0 <= k < kept@.len() implies match #[trigger] kept@[k].parent {
                        Some(p) => exists|k2: int| 0 <= k2 < k && #[trigger] kept@[k2].id == p,
                        None => true,
                    } by {
                        if k < kpre.len() {
                            match kpre[k].parent {
                                Some(p) => {
                                    let w = choose|w: int| 0 <= w < k && #[trigger] kpre[w].id == p;
                                    assert(kept@[w].id == p);
                                },
                                None => {},
                            }
                        } else {
                            match drow.parent {
                                Some(p) => {
                                    assert(has_dir_id(kpre, p));
                                    let w = choose|w: int|
                                        0 <= w < kpre.len() && #[trigger] kpre[w].id == p;
                                    assert(kept@[w].id == p);
                                },
                                None => {},
                            }
                        }
                    }
                }
            }
            i += 1;
        }
        proof {
            assert(self@.dirs.skip(self.dirs.len() as int) =~= Seq::<Directory>::empty());
        }
        self.dirs = kept;
        self.prune_docs_to_dirs();
        Ok(())
    }

    /// Trim the catalog's roots to the given set of paths: every root not
    /// listed is removed, together with every directory beneath it and
    /// every document in the removed directories.  Re-running with the
    /// same list — when every root is already listed — changes nothing.
    pub fn trim_roots(&mut self, keep: &Vec<String>) -> (r: Result<(), KnawledgeError>)
        requires
            old(self).wf(),
        ensures
            final(self).wf(),
            r == Ok::<(), KnawledgeError>(()),
            final(self)@.dirs == trimmed_dirs(old(self)@.dirs, keep@),
            final(self)@.docs == docs_in_dirs(old(self)@.docs, final(self)@.dirs),
            final(self)@.next_id == old(self)@.next_id,
            (forall|i: int| #![trigger old(self)@.dirs[i]]
                0 <= i < old(self)@.dirs.len() ==> (old(self)@.dirs[i].parent is None
                    ==> seq_has_str(keep@, old(self)@.dirs[i].path@))) ==> final(self)@ == old(
                self,
            )@,
    {
        let mut kept: Vec<Directory> = Vec::new();
        proof {
            assert(self@.dirs.skip(0) =~= self@.dirs);
        }
        let mut i: usize = 0;
        while i < self.dirs.len()
            invariant
                i <= self.dirs.len(),
                self@ == old(self)@,
                old(self).wf(),
                trim_dirs_rec(kept@, self@.dirs.skip(i as int), keep@) == trimmed_dirs(
                    self@.dirs,
                    keep@,
                ),
                forall|k1: int, k2: int|
                    0 <= k1 < kept@.len() && 0 <= k2 < kept@.len() && #[trigger] kept@[k1].id
                        == #[trigger] kept@[k2].id ==> k1 == k2,
                forall|k1: int, k2: int|
                    0 <= k1 < kept@.len() && 0 <= k2 < kept@.len() && #[trigger] kept@[k1].path@
                        == #[trigger] kept@[k2].path@ ==> k1 == k2,
                forall|k: int| 0 <= k < kept@.len() ==> #[trigger] kept@[k].id < self@.next_id,
                forall|k: int|
                    0 <= k < kept@.len() ==> match #[trigger] kept@[k].parent {
                        Some(p) => exists|k2: int| 0 <= k2 < k && #[trigger] kept@[k2].id == p,
                        None => true,
                    },
                forall|k: int| #![trigger kept@[k]]
                    0 <= k < kept@.len() ==> exists|j: int|
                        0 <= j < i && kept@[k] == #[trigger] self@.dirs[j],
            decreases self.dirs.len() - i,
        {
            let keep_it = match self.dirs[i].parent {
                Some(p) => find_dir_by_id_ix(&kept, p).is_some(),
                None => contains_string(keep, &self.dirs[i].path),
            };
            proof {
                let dirs = self@.dirs;
                let sk = dirs.skip(i as int);
                assert(sk[0] == dirs[i as int]);
                assert(sk.drop_first() =~= dirs.skip(i + 1));
                if keep_it {
                    assert forall|k: int| 0 <= k < kept@.len() implies kept@[k].id != dirs[
                        i as int
                    ].id && kept@[k].path@ != dirs[i as int].path@ by {
                        let j = choose|j: int| 0 <= j < i && kept@[k] == #[trigger] dirs[j];
                        assert(dirs[j].id == kept@[k].id);
                    }
                }
            }
            let ghost kpre = kept@;
            let ghost drow = self@.dirs[i as int];
            if keep_it {
                kept.push((&self.dirs[i]).duplicate());
                proof {
                    assert(kept@ =~= kpre.push(drow));
                    assert forall|k: int| 0 <= k < kept@.len() implies match #[trigger] kept@[k].parent {
                        Some(p) => exists|k2: int| 0 <= k2 < k && #[trigger] kept@[k2].id == p,
                        None => true,
                    } by {
                        if k < kpre.len() {
                            match kpre[k].parent {
                                Some(p) => {
                                    let w = choose|w: int| 0 <= w < k && #[trigger] kpre[w].id == p;
                                    assert(kept@[w].id == p);
                                },
                                None => {},
                            }
                        } else {
                            match drow.parent {
                                Some(p) => {
                                    assert(has_dir_id(kpre, p));
                                    let w = choose|w: int|
                                        0 <= w < kpre.len() && #[trigger] kpre[w].id == p;
                                    assert(kept@[w].id == p);
                                },
                                None => {},
                            }
                        }
                    }
                }
            }
            i += 1;
        }
        proof {
            assert(self@.dirs.skip(self.dirs.len() as int) =~= Seq::<Directory>::empty());
        }
        self.dirs = kept;
        self.prune_docs_to_dirs();
        proof {
            let m = old(self)@;
            if forall|i: int| #![trigger m.dirs[i]]
                0 <= i < m.dirs.len() ==> (m.dirs[i].parent is None ==> seq_has_str(
                    keep@,
                    m.dirs[i].path@,
                )) {
                assert forall|j: int| #![trigger m.dirs[j]] 0 <= j < m.dirs.len() implies match m
                    .dirs[j].parent {
                    Some(p) => has_dir_id(Seq::<Directory>::empty(), p) || (exists|k: int|
                        0 <= k < j && #[trigger] m.dirs[k].id == p),
                    None => true,
                } by {
                    match m.dirs[j].parent {
                        Some(p) => {
                            let w = choose|w: int| 0 <= w < j && #[trigger] m.dirs[w].id == p;
                            assert(m.dirs[w].id == p);
                        },
                        None => {},
                    }
                }
                lemma_trim_rec_identity(Seq::<Directory>::empty(), m.dirs, keep@);
                assert(Seq::<Directory>::empty() + m.dirs =~= m.dirs);
                assert(self@.dirs == m.dirs);
                lemma_docs_in_dirs_all(m.docs, m.dirs);
                assert(self@ =~= m);
            }
        }
        Ok(())
    }

    /// Record what a filesystem walk reported: every directory not yet
    /// present (by path) is inserted under its reported parent, and every
    /// file not yet known in its directory (by file name) is inserted as a
    /// document.  Nothing is ever deleted here, and re-running over an
    /// already-registered report changes nothing.
    pub fn register_discovered(&mut self, dirs_found: &Vec<FsDirEntry>, files_found: &Vec<
        FsFileEntry,
    >) -> (r: Result<(), KnawledgeError>)
        requires
            old(self).wf(),
            discovered_dirs_wf(dirs_found@),
            discovered_files_wf(files_found@, dirs_found@),
        ensures
            final(self).wf(),
            r is Ok <==> old(self)@.next_id + dirs_found@.len() <= u128::MAX,
            r is Err ==> final(self)@ == old(self)@,
            r is Ok ==> ({
                let m = old(self)@;
                let n = final(self)@;
                &&& m.dirs.len() <= n.dirs.len() && (forall|k: int|
                    0 <= k < m.dirs.len() ==> #[trigger] n.dirs[k] == m.dirs[k])
                &&& m.docs.len() <= n.docs.len() && (forall|k: int|
                    0 <= k < m.docs.len() ==> #[trigger] n.docs[k] == m.docs[k])
                &&& forall|j: int| #![trigger dirs_found@[j]]
                    0 <= j < dirs_found@.len() ==> has_dir_path(n.dirs, dirs_found@[j].path@)
                &&& forall|j: int| #![trigger files_found@[j]]
                    0 <= j < files_found@.len() ==> file_settled(n, files_found@[j])
                &&& forall|k: int| #![trigger n.dirs[k]]
                    m.dirs.len() <= k < n.dirs.len() ==> exists|j: int|
                        0 <= j < dirs_found@.len() && n.dirs[k].path@ == (
                        #[trigger] dirs_found@[j]).path@ && n.dirs[k].name@
                            == dirs_found@[j].name@ && (n.dirs[k].parent is None
                            <==> dirs_found@[j].parent_path is None)
                &&& forall|k: int| #![trigger n.docs[k]]
                    m.docs.len() <= k < n.docs.len() ==> exists|j: int|
                        0 <= j < files_found@.len() && n.docs[k].path@ == (
                        #[trigger] files_found@[j]).path@
                &&& (forall|j: int| #![trigger dirs_found@[j]]
                    0 <= j < dirs_found@.len() ==> has_dir_path(m.dirs, dirs_found@[j].path@))
                    ==> (n.dirs == m.dirs && n.next_id == m.next_id)
                &&& ((forall|j: int| #![trigger dirs_found@[j]]
                    0 <= j < dirs_found@.len() ==> has_dir_path(m.dirs, dirs_found@[j].path@))
                    && (forall|j: int| #![trigger files_found@[j]]
                    0 <= j < files_found@.len() ==> file_settled(m, files_found@[j])))
                    ==> n.docs == m.docs
            }),
    {
        if (u128::MAX - self.next_id) < (dirs_found.len() as u128) {
            return Err(KnawledgeError::Store(StoreViolation::IdSpace));
        }
        let mut j: usize = 0;
        while j < dirs_found.len()
            invariant
                j <= dirs_found.len(),
                self.wf(),
                old(self).wf(),
                discovered_dirs_wf(dirs_found@),
                old(self)@.next_id + dirs_found@.len() <= u128::MAX,
                old(self)@.next_id <= self@.next_id,
                self@.next_id <= old(self)@.next_id + j,
                self@.docs == old(self)@.docs,
                old(self)@.dirs.len() <= self@.dirs.len(),
                forall|k: int|
                    0 <= k < old(self)@.dirs.len() ==> #[trigger] self@.dirs[k] == old(
                        self,
                    )@.dirs[k],
                forall|jj: int| #![trigger dirs_found@[jj]]
                    0 <= jj < j ==> has_dir_path(self@.dirs, dirs_found@[jj].path@),
                forall|k: int| #![trigger self@.dirs[k]]
                    old(self)@.dirs.len() <= k < self@.dirs.len() ==> exists|jj: int|
                        0 <= jj < dirs_found@.len() && self@.dirs[k].path@ == (
                        #[trigger] dirs_found@[jj]).path@ && self@.dirs[k].name@
                            == dirs_found@[jj].name@ && (self@.dirs[k].parent is None
                            <==> dirs_found@[jj].parent_path is None),
                (forall|jj: int| #![trigger dirs_found@[jj]]
                    0 <= jj < dirs_found@.len() ==> has_dir_path(
                        old(self)@.dirs,
                        dirs_found@[jj].path@,
                    )) ==> (self@.dirs == old(self)@.dirs && self@.next_id == old(self)@.next_id),
            decreases dirs_found.len() - j,
        {
            let e = &dirs_found[j];
            let present = find_dir_by_path_ix(&self.dirs, &e.path).is_some();
            let ghost pre = self@;
            if !present {
                proof {
                    if forall|jj: int| #![trigger dirs_found@[jj]]
                        0 <= jj < dirs_found@.len() ==> has_dir_path(
                            old(self)@.dirs,
                            dirs_found@[jj].path@,
                        ) {
                        assert(has_dir_path(old(self)@.dirs, dirs_found@[j as int].path@));
                        let w = choose|w: int|
                            0 <= w < old(self)@.dirs.len() && #[trigger] old(
                                self,
                            )@.dirs[w].path@ == dirs_found@[j as int].path@;
                        assert(self@.dirs[w].path@ == dirs_found@[j as int].path@);
                        assert(false);
                    }
                }
                let parent_id: Option<u128> = match &e.parent_path {
                    None => None,
                    Some(pp) => {
                        proof {
                            let kk = choose|k: int|
                                0 <= k < j && #[trigger] dirs_found@[k].path@
                                    == dirs_found@[j as int].parent_path->0@;
                            assert(has_dir_path(self@.dirs, dirs_found@[kk].path@));
                        }
                        match find_dir_by_path_ix(&self.dirs, pp) {
                            Some(ix) => Some(self.dirs[ix].id),
                            None => {
                                proof {
                                    assert(false);
                                }
                                None
                            },
                        }
                    },
                };
                let rr = self.insert_directory(e.path.as_str(), e.name.as_str(), parent_id);
                match rr {
                    Ok(_) => {},
                    Err(_) => {
                        proof {
                            assert(false);
                        }
                        return Err(KnawledgeError::Io);
                    },
                }
                proof {
                    assert(self@.dirs == pre.dirs.push(self@.dirs.last()));
                    assert forall|jj: int| #![trigger dirs_found@[jj]] 0 <= jj < j implies
                        has_dir_path(self@.dirs, dirs_found@[jj].path@) by {
                        let w = choose|w: int|
                            0 <= w < pre.dirs.len() && #[trigger] pre.dirs[w].path@
                                == dirs_found@[jj].path@;
                        assert(self@.dirs[w].path@ == dirs_found@[jj].path@);
                    }
                }
            }
            proof {
                assert(has_dir_path(self@.dirs, dirs_found@[j as int].path@)) by {
                    if present {
                        assert(pre == self@);
                    } else {
                        assert(self@.dirs.last().path@ == dirs_found@[j as int].path@);
                    }
                }
            }
            j += 1;
        }
        let ghost mid = self@;
        let mut f: usize = 0;
        while f < files_found.len()
            invariant
                f <= files_found.len(),
                self.wf(),
                old(self).wf(),
                discovered_files_wf(files_found@, dirs_found@),
                self@.dirs == mid.dirs,
                self@.next_id == mid.next_id,
                mid.docs == old(self)@.docs,
                forall|jj: int| #![trigger dirs_found@[jj]]
                    0 <= jj < dirs_found@.len() ==> has_dir_path(mid.dirs, dirs_found@[jj].path@),
                (forall|jj: int| #![trigger dirs_found@[jj]]
                    0 <= jj < dirs_found@.len() ==> has_dir_path(
                        old(self)@.dirs,
                        dirs_found@[jj].path@,
                    )) ==> (mid.dirs == old(self)@.dirs && mid.next_id == old(self)@.next_id),
                old(self)@.docs.len() <= self@.docs.len(),
                forall|k: int|
                    0 <= k < old(self)@.docs.len() ==> #[trigger] self@.docs[k] == old(
                        self,
                    )@.docs[k],
                forall|ff: int| #![trigger files_found@[ff]]
                    0 <= ff < f ==> file_settled(self@, files_found@[ff]),
                forall|k: int| #![trigger self@.docs[k]]
                    old(self)@.docs.len() <= k < self@.docs.len() ==> exists|jj: int|
                        0 <= jj < files_found@.len() && self@.docs[k].path@ == (
                        #[trigger] files_found@[jj]).path@,
                ((forall|jj: int| #![trigger dirs_found@[jj]]
                    0 <= jj < dirs_found@.len() ==> has_dir_path(
                        old(self)@.dirs,
                        dirs_found@[jj].path@,
                    )) && (forall|jj: int| #![trigger files_found@[jj]]
                    0 <= jj < files_found@.len() ==> file_settled(
                        old(self)@,
                        files_found@[jj],
                    ))) ==> self@.docs == old(self)@.docs,
            decreases files_found.len() - f,
        {
            let e = &files_found[f];
            proof {
                let kk = choose|k: int|
                    0 <= k < dirs_found@.len() && #[trigger] dirs_found@[k].path@
                        == files_found@[f as int].dir_path@;
                assert(has_dir_path(self@.dirs, dirs_found@[kk].path@));
            }
            let ix = match find_dir_by_path_ix(&self.dirs, &e.dir_path) {
                Some(v) => v,
                None => {
                    proof {
                        assert(false);
                    }
                    return Err(KnawledgeError::Io);
                },
            };
            let dir_id = self.dirs[ix].id;
            proof {
                let ci = choose|k: int|
                    0 <= k < self@.dirs.len() && #[trigger] self@.dirs[k].path@
                        == files_found@[f as int].dir_path@;
                assert(self@.dirs[ci].path@ == self@.dirs[ix as int].path@);
                assert(dir_by_path(self@.dirs, files_found@[f as int].dir_path@).id == dir_id);
            }
            let known = doc_named_in_exec(&self.docs, dir_id, &e.file_name);
            let ghost pre = self@;
            if !known {
                let doc = Document {
                    id: e.id,
                    file_name: e.file_name.clone(),
                    directory: dir_id,
                    path: e.path.clone(),
                    title: crate::models::clone_opt_string(&e.title),
                    custom_id: crate::models::clone_opt_string(&e.custom_id),
                    created_at: e.created_at,
                    updated_at: e.updated_at,
                };
                let ghost gdoc = doc;
                let rr = self.insert_document(doc);
                match rr {
                    Ok(_) => {},
                    Err(_) => {
                        proof {
                            assert(has_dir_id(pre.dirs, gdoc.directory)) by {
                                assert(pre.dirs[ix as int].id == dir_id);
                            }
                            assert(false);
                        }
                        return Err(KnawledgeError::Io);
                    },
                }
            }
            proof {
                let fe = files_found@[f as int];
                assert(file_settled(self@, fe)) by {
                    if known {
                        assert(doc_named_in(self@.docs, dir_by_path(self@.dirs, fe.dir_path@).id, fe.file_name@));
                    } else {
                        if self@.docs == pre.docs {
                            assert(doc_conflicts(pre.docs, fe)) by {
                                assert(has_doc_id(pre.docs, fe.id) || has_doc_path(
                                    pre.docs,
                                    fe.path@,
                                ) || (fe.custom_id matches Some(c) && has_doc_custom(
                                    pre.docs,
                                    c@,
                                )));
                            }
                        } else {
                            let ln = pre.docs.len() as int;
                            assert(self@.docs[ln].directory == dir_id && self@.docs[ln].file_name@
                                == fe.file_name@);
                            assert(doc_named_in(self@.docs, dir_id, fe.file_name@));
                        }
                    }
                }
                assert forall|ff: int| #![trigger files_found@[ff]] 0 <= ff < f implies
                    file_settled(self@, files_found@[ff]) by {
                    let pfe = files_found@[ff];
                    assert(file_settled(pre, pfe));
                    if self@.docs != pre.docs {
                        assert(self@.docs == pre.docs.push(self@.docs.last()));
                        if has_dir_path(pre.dirs, pfe.dir_path@) && doc_named_in(
                            pre.docs,
                            dir_by_path(pre.dirs, pfe.dir_path@).id,
                            pfe.file_name@,
                        ) {
                            let w = choose|w: int|
                                0 <= w < pre.docs.len() && #[trigger] pre.docs[w].directory
                                    == dir_by_path(pre.dirs, pfe.dir_path@).id
                                    && pre.docs[w].file_name@ == pfe.file_name@;
                            assert(self@.docs[w].directory == dir_by_path(
                                self@.dirs,
                                pfe.dir_path@,
                            ).id && self@.docs[w].file_name@ == pfe.file_name@);
                        } else {
                            assert(doc_conflicts(pre.docs, pfe));
                            if has_doc_id(pre.docs, pfe.id) {
                                let w = choose|w: int|
                                    0 <= w < pre.docs.len() && #[trigger] pre.docs[w].id == pfe.id;
                                assert(self@.docs[w].id == pfe.id);
                            } else if has_doc_path(pre.docs, pfe.path@) {
                                let w = choose|w: int|
                                    0 <= w < pre.docs.len() && #[trigger] pre.docs[w].path@
                                        == pfe.path@;
                                assert(self@.docs[w].path@ == pfe.path@);
                            } else {
                                let c = pfe.custom_id->0;
                                let w = choose|w: int|
                                    0 <= w < pre.docs.len() && doc_has_custom(
                                        #[trigger] pre.docs[w],
                                        c@,
                                    );
                                assert(doc_has_custom(self@.docs[w], c@));
                            }
                        }
                    }
                }
            }
            f += 1;
        }
        Ok(())
    }
}

} // verus!
