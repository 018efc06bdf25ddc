//! File records as the library reports them, and the checks on file paths
//! that decide what is hidden and what is text.
use crate::paths::{
    extension_of, file_name_of, lower_of, lowercase, path_extension, path_file_name, PathExt,
};
use crate::tree::node::{FileMeta, Node};
use vstd::prelude::*;

verus! {

/// Metadata of a file or directory, without its content. Times are
/// milliseconds since the Unix epoch.
#[derive(Clone, Debug)]
pub struct SimpleFileMeta {
    pub file_path: String,
    pub file_name: String,
    pub created: u64,
    pub last_modified: u64,
    pub last_accessed: u64,
    pub size: u64,
    pub readonly: bool,
    pub is_dir: bool,
    pub is_file: bool,
    pub is_hidden: bool,
}

/// Metadata of a file or directory with its text, empty where none was read.
/// Times are milliseconds since the Unix epoch.
#[derive(Clone, Debug)]
pub struct FileMetaData {
    pub file_path: String,
    pub file_name: String,
    pub file_text: String,
    pub created: u64,
    pub last_modified: u64,
    pub last_accessed: u64,
    pub size: u64,
    pub readonly: bool,
    pub is_dir: bool,
    pub is_file: bool,
    pub is_hidden: bool,
}

/// The files of one directory and how many there are.
pub struct FolderData {
    pub number_of_files: u16,
    pub files: Vec<FileMetaData>,
}

/// The name of the last component of a path; empty where there is none.
pub open spec fn base_name_of(p: Seq<char>) -> Seq<char> {
    match file_name_of(p) {
        Some(n) => n,
        None => Seq::empty(),
    }
}

/// A name that starts with a dot is hidden.
pub open spec fn hidden_name(n: Seq<char>) -> bool {
    n.len() > 0 && n[0] == '.'
}

/// A path is hidden when the name of its last component is.
pub open spec fn hidden_path(p: Seq<char>) -> bool {
    hidden_name(base_name_of(p))
}

/// The lower-case extensions of text files.
pub open spec fn text_extension(e: Seq<char>) -> bool {
    e == "md"@ || e == "markdown"@ || e == "text"@ || e == "txt"@
}

/// A path is a text file's when its extension, in lower case, is a text
/// extension.
pub open spec fn text_path(p: Seq<char>) -> bool {
    match extension_of(p) {
        Some(e) => text_extension(lower_of(e)),
        None => false,
    }
}

/// The name of the last component of `file_path`; empty if it has none.
pub fn base_name(file_path: &str) -> (r: String)
    ensures
        r@ == base_name_of(file_path@),
{
    match path_file_name(file_path) {
        Some(n) => n,
        None => String::new(),
    }
}

/// The name starts with a dot.
pub fn is_hidden_name(name: &str) -> (r: bool)
    ensures
        r == hidden_name(name@),
{
    name.unicode_len() > 0 && name.get_char(0) == '.'
}

/// Check if a file is hidden: the name of its last component starts with a
/// dot.
pub fn check_hidden(file_path: &str) -> (r: bool)
    ensures
        r == hidden_path(file_path@),
{
    let name = base_name(file_path);
    is_hidden_name(name.as_str())
}

/// The lower-case extension `ext` is one of text files.
pub fn is_text_extension(ext: &str) -> (r: bool)
    ensures
        r == text_extension(ext@),
{
    let e = ext.to_owned();
    e == String::from_str("md") || e == String::from_str("markdown") || e == String::from_str("text")
        || e == String::from_str("txt")
}

/// Check if a path names a text file by its extension (md, markdown, text or
/// txt, in any case).
pub fn check_md(file_path: &str) -> (r: bool)
    ensures
        r == text_path(file_path@),
{
    match path_extension(file_path) {
        Some(e) => {
            let lower = lowercase(e.as_str());
            is_text_extension(lower.as_str())
        },
        None => false,
    }
}

/// Whether the text of an entry is to be read: only when capture is asked
/// for and the entry is a file with a text extension.
pub fn captures_text(capture: bool, meta: &Option<FileMeta>, path: &str) -> (r: bool)
    ensures
        r == (capture && match meta {
            Some(m) => m.is_file && text_path(path@),
            None => false,
        }),
{
    if !capture {
        return false;
    }
    match meta {
        Some(m) => m.is_file && check_md(path),
        None => false,
    }
}

/// The record of a path from its metadata: its slash form, the name of its
/// last component, and whether it is hidden.
pub fn simple_meta(file_path: &str, meta: &FileMeta) -> (r: SimpleFileMeta)
    ensures
        r.file_path@ == file_path@,
        r.file_name@ == base_name_of(file_path@),
        r.is_hidden == hidden_path(file_path@),
        r.created == meta.created,
        r.last_modified == meta.modified,
        r.last_accessed == meta.accessed,
        r.size == meta.size,
        r.readonly == meta.readonly,
        r.is_dir == meta.is_dir,
        r.is_file == meta.is_file,
{
    SimpleFileMeta {
        file_path: file_path.to_owned(),
        file_name: base_name(file_path),
        created: meta.created,
        last_modified: meta.modified,
        last_accessed: meta.accessed,
        size: meta.size,
        readonly: meta.readonly,
        is_dir: meta.is_dir,
        is_file: meta.is_file,
        is_hidden: check_hidden(file_path),
    }
}

/// The full record: the simple one with the text that was read.
pub fn with_text(meta: SimpleFileMeta, file_text: String) -> (r: FileMetaData)
    ensures
        r.file_path == meta.file_path,
        r.file_name == meta.file_name,
        r.file_text == file_text,
        r.created == meta.created,
        r.last_modified == meta.last_modified,
        r.last_accessed == meta.last_accessed,
        r.size == meta.size,
        r.readonly == meta.readonly,
        r.is_dir == meta.is_dir,
        r.is_file == meta.is_file,
        r.is_hidden == meta.is_hidden,
{
    FileMetaData {
        file_path: meta.file_path,
        file_name: meta.file_name,
        file_text,
        created: meta.created,
        last_modified: meta.last_modified,
        last_accessed: meta.last_accessed,
        size: meta.size,
        readonly: meta.readonly,
        is_dir: meta.is_dir,
        is_file: meta.is_file,
        is_hidden: meta.is_hidden,
    }
}

/// The record of a tree entry: none if no metadata was read for it;
/// otherwise its path in slash form, its name, its text (empty if none was
/// captured), its metadata and whether it is hidden.
pub open spec fn record_of(node: Node, r: FileMetaData) -> bool {
    &&& node.file_meta matches Some(m)
    &&& r.file_path@ == node.path@
    &&& r.file_name@ == node.file_name@
    &&& r.file_text@ == match node.file_text {
        Some(t) => t@,
        None => Seq::empty(),
    }
    &&& r.created == m.created
    &&& r.last_modified == m.modified
    &&& r.last_accessed == m.accessed
    &&& r.size == m.size
    &&& r.readonly == m.readonly
    &&& r.is_dir == m.is_dir
    &&& r.is_file == m.is_file
    &&& r.is_hidden == hidden_path(node.path@)
}

/// The record of a tree entry, if metadata was read for it.
pub fn from_node(node: &Node) -> (r: Option<FileMetaData>)
    ensures
        r is None <==> node.file_meta is None,
        r matches Some(d) ==> record_of(*node, d),
{
    let meta = match node.file_meta {
        Some(m) => m,
        None => {
            return None;
        },
    };
    let normalized_path = match node.path.normalize_slash() {
        Some(p) => p,
        None => {
            return None;
        },
    };
    let is_hidden = check_hidden(normalized_path.as_str());
    let file_text = match &node.file_text {
        Some(t) => t.clone(),
        None => String::new(),
    };
    Some(
        FileMetaData {
            file_path: normalized_path,
            file_name: node.file_name_lossy(),
            file_text,
            created: meta.created,
            last_modified: meta.modified,
            last_accessed: meta.accessed,
            size: meta.size,
            readonly: meta.readonly,
            is_dir: meta.is_dir,
            is_file: meta.is_file,
            is_hidden,
        },
    )
}

/// The records of the entries that have metadata, in order.
pub fn file_metas(nodes: &Vec<Node>) -> (r: Vec<FileMetaData>)
    ensures
        r@.len() == nodes@.filter(|n: Node| n.file_meta is Some).len(),
        forall|k: int|
            0 <= k < r@.len() ==> record_of(
                nodes@.filter(|n: Node| n.file_meta is Some)[k],
                #[trigger] r@[k],
            ),
{
    let mut res: Vec<FileMetaData> = Vec::new();
    let mut i: usize = 0;
    while i < nodes.len()
        invariant
            i <= nodes@.len(),
            res@.len() == nodes@.subrange(0, i as int).filter(|n: Node| n.file_meta is Some).len(),
            forall|k: int|
                0 <= k < res@.len() ==> record_of(
                    nodes@.subrange(0, i as int).filter(|n: Node| n.file_meta is Some)[k],
                    #[trigger] res@[k],
                ),
        decreases nodes@.len() - i,
    {
        let ghost pre = nodes@.subrange(0, i as int);
        proof {
            assert(nodes@.subrange(0, i + 1) =~= pre.push(nodes@[i as int]));
            pre.lemma_filter_push(nodes@[i as int], |n: Node| n.file_meta is Some);
        }
        match from_node(&nodes[i]) {
            Some(d) => {
                res.push(d);
            },
            None => {},
        }
        i = i + 1;
    }
    proof {
        assert(nodes@.subrange(0, nodes@.len() as int) =~= nodes@);
    }
    res
}

impl FolderData {
    /// The files of a directory, counted.
    pub fn from_files(files: Vec<FileMetaData>) -> (r: FolderData)
        requires
            files@.len() <= u16::MAX,
        ensures
            r.number_of_files == files@.len(),
            r.files@ == files@,
    {
        FolderData { number_of_files: files.len() as u16, files }
    }
}

} // verus!
