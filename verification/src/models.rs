use vstd::prelude::*;

verus! {

/// One row of the directories relation.  `parent == None` marks a root.
#[derive(Debug, PartialEq, Eq)]
pub struct Directory {
    pub id: u128,
    pub path: String,
    pub name: String,
    pub parent: Option<u128>,
}

/// One row of the documents relation.  A document belongs to exactly one
/// directory; `custom_id`, when present, is a globally unique alternate key.
#[derive(Debug, PartialEq, Eq)]
pub struct Document {
    pub id: u128,
    pub file_name: String,
    pub directory: u128,
    pub path: String,
    pub title: Option<String>,
    pub custom_id: Option<String>,
    pub created_at: i64,
    pub updated_at: i64,
}

/// Whether a listing entry stands for a directory or a document.
#[derive(Debug, PartialEq, Eq, Clone, Copy)]
pub enum EntryKind {
    Directory,
    File,
}

/// A projection used to render one level of the hierarchy; not persisted.
#[derive(Debug, PartialEq, Eq)]
pub struct DirectoryEntry {
    pub id: u128,
    pub parent: Option<u128>,
    pub name: String,
    pub kind: EntryKind,
    pub title: Option<String>,
    pub custom_id: Option<String>,
}

/// A subdirectory reported by a filesystem walk.  `parent_path == None`
/// marks a configured root; otherwise the parent directory's path.
#[derive(Debug, PartialEq, Eq)]
pub struct FsDirEntry {
    pub path: String,
    pub name: String,
    pub parent_path: Option<String>,
}

/// A document-bearing file reported by a filesystem walk, together with the
/// candidate row the walker prepared for it.  `dir_path` names the directory
/// the file sits in; `id` is a freshly drawn candidate identifier.
#[derive(Debug, PartialEq, Eq)]
pub struct FsFileEntry {
    pub dir_path: String,
    pub id: u128,
    pub file_name: String,
    pub path: String,
    pub title: Option<String>,
    pub custom_id: Option<String>,
    pub created_at: i64,
    pub updated_at: i64,
}

/// Field-wise copy of an optional string, with its value pinned.
pub fn clone_opt_string(o: &Option<String>) -> (r: Option<String>)
    ensures
        r == *o,
{
    match o {
        Some(s) => Some(s.clone()),
        None => None,
    }
}

impl Directory {
    /// Field-wise copy of a directory row, with its value pinned.
    pub fn duplicate(&self) -> (r: Directory)
        ensures
            r == *self,
    {
        Directory {
            id: self.id,
            path: self.path.clone(),
            name: self.name.clone(),
            parent: self.parent,
        }
    }
}

impl Document {
    /// Field-wise copy of a document row, with its value pinned.
    pub fn duplicate(&self) -> (r: Document)
        ensures
            r == *self,
    {
        Document {
            id: self.id,
            file_name: self.file_name.clone(),
            directory: self.directory,
            path: self.path.clone(),
            title: clone_opt_string(&self.title),
            custom_id: clone_opt_string(&self.custom_id),
            created_at: self.created_at,
            updated_at: self.updated_at,
        }
    }
}

} // verus!
