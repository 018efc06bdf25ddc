//! One observed filesystem object and the metadata that was read for it.
use crate::paths::{parent_of, path_parent};
use vstd::prelude::*;

verus! {

/// The kind of a filesystem object, as the walk reported it.
#[derive(Clone, Copy, Debug, PartialEq, Eq, Structural)]
pub enum FileKind {
    File,
    Dir,
    Symlink,
    Other,
}

/// Filesystem metadata of an object. Times are milliseconds since the Unix
/// epoch; a time the platform could not give is filled in when read.
#[derive(Clone, Copy, Debug, PartialEq, Eq, Structural)]
pub struct FileMeta {
    pub size: u64,
    pub created: u64,
    pub modified: u64,
    pub accessed: u64,
    pub readonly: bool,
    pub is_dir: bool,
    pub is_file: bool,
}

/// An entry of the walk: its depth below the walk's root (the root is at
/// depth 0), its name, kind, metadata, captured text and path.
#[derive(Clone, Debug)]
pub struct Node {
    pub depth: usize,
    pub file_name: String,
    pub file_type: Option<FileKind>,
    pub file_meta: Option<FileMeta>,
    pub file_text: Option<String>,
    pub path: String,
}

impl Node {
    /// The entry is a directory.
    pub open spec fn spec_is_dir(&self) -> bool {
        self.file_type == Some(FileKind::Dir)
    }

    /// Initializes a new node.
    pub fn new(
        depth: usize,
        file_name: String,
        file_type: Option<FileKind>,
        file_meta: Option<FileMeta>,
        file_text: Option<String>,
        path: String,
    ) -> (r: Self)
        ensures
            r == (Node { depth, file_name, file_type, file_meta, file_text, path }),
    {
        Node { depth, file_name, file_type, file_meta, file_text, path }
    }

    /// A copy of the entry.
    pub fn duplicate(&self) -> (r: Node)
        ensures
            r == *self,
    {
        let file_text = match &self.file_text {
            Some(t) => Some(t.clone()),
            None => None,
        };
        Node {
            depth: self.depth,
            file_name: self.file_name.clone(),
            file_type: self.file_type,
            file_meta: self.file_meta,
            file_text,
            path: self.path.clone(),
        }
    }

    pub fn file_name(&self) -> (r: &str)
        ensures
            r@ == self.file_name@,
    {
        self.file_name.as_str()
    }

    /// The name as an owned string.
    pub fn file_name_lossy(&self) -> (r: String)
        ensures
            r@ == self.file_name@,
    {
        self.file_name.clone()
    }

    pub fn is_dir(&self) -> (r: bool)
        ensures
            r == self.spec_is_dir(),
    {
        match self.file_type {
            Some(FileKind::Dir) => true,
            _ => false,
        }
    }

    pub fn file_type(&self) -> (r: Option<FileKind>)
        ensures
            r == self.file_type,
    {
        self.file_type
    }

    /// The path of the directory that holds this entry.
    pub fn parent_path(&self) -> (r: Option<String>)
        ensures
            r matches Some(p) ==> parent_of(self.path@) == Some(p@),
            r is None ==> parent_of(self.path@) is None,
    {
        path_parent(self.path.as_str())
    }

    pub fn path(&self) -> (r: &str)
        ensures
            r@ == self.path@,
    {
        self.path.as_str()
    }
}

} // verus!
