use mdsilo_tree::files::{
    base_name, captures_text, check_hidden, check_md, file_metas, from_node, is_hidden_name,
    is_text_extension, simple_meta, with_text, FolderData,
};
use mdsilo_tree::paths::PathExt;
use mdsilo_tree::tree::node::{FileKind, FileMeta, Node};

fn meta(is_file: bool) -> FileMeta {
    FileMeta {
        size: 11,
        created: 10,
        modified: 20,
        accessed: 30,
        readonly: true,
        is_dir: !is_file,
        is_file,
    }
}

#[test]
fn basename_of_paths() {
    assert_eq!(base_name("/home/user/mdsilo.deb"), "mdsilo.deb");
    assert_eq!(base_name("/home/user/mdsilo.deb/"), "mdsilo.deb");
    assert_eq!(base_name("/home/user/mdsilo/"), "mdsilo");
    assert_eq!(base_name("/home/user/mdsilo"), "mdsilo");
    assert_eq!(base_name("C://Windows/AppData/mdsilo.msi"), "mdsilo.msi");
    assert_eq!(base_name("/"), "");
    assert_eq!(base_name("/home/.."), "");
}

#[test]
fn hidden_paths() {
    assert!(check_hidden("/home/user/.config"));
    assert!(check_hidden("/home/user/.git/"));
    assert!(!check_hidden("/home/user/notes.md"));
    assert!(!check_hidden("/"));
    assert!(is_hidden_name(".x"));
    assert!(!is_hidden_name("x."));
    assert!(!is_hidden_name(""));
}

#[test]
fn text_paths() {
    assert!(check_md("/notes/a.md"));
    assert!(check_md("/notes/A.MD"));
    assert!(check_md("/notes/b.Markdown"));
    assert!(check_md("/notes/c.txt"));
    assert!(check_md("/notes/d.TEXT"));
    assert!(!check_md("/notes/e.rs"));
    assert!(!check_md("/notes/noext"));
    assert!(!check_md("/notes/.md"));
    assert!(is_text_extension("md"));
    assert!(!is_text_extension("MD"));
    assert!(!is_text_extension("mdx"));
}

#[test]
fn text_is_captured_only_for_text_files() {
    assert!(captures_text(true, &Some(meta(true)), "/a.md"));
    assert!(!captures_text(false, &Some(meta(true)), "/a.md"));
    assert!(!captures_text(true, &Some(meta(false)), "/a.md"));
    assert!(!captures_text(true, &None, "/a.md"));
    assert!(!captures_text(true, &Some(meta(true)), "/a.png"));
}

#[test]
fn slash_form_of_a_string_path() {
    let p = String::from("md/silo/test.txt");
    assert_eq!(p.normalize_slash(), Some("md/silo/test.txt".to_string()));
}

#[test]
fn record_of_a_node() {
    let n = Node::new(
        1,
        ".hidden.md".to_string(),
        Some(FileKind::File),
        Some(meta(true)),
        Some("Test Hello World".to_string()),
        "/R/.hidden.md".to_string(),
    );
    let d = from_node(&n).unwrap();
    assert_eq!(d.file_path, "/R/.hidden.md");
    assert_eq!(d.file_name, ".hidden.md");
    assert_eq!(d.file_text, "Test Hello World");
    assert_eq!((d.created, d.last_modified, d.last_accessed), (10, 20, 30));
    assert_eq!(d.size, 11);
    assert!(d.readonly && d.is_file && !d.is_dir && d.is_hidden);

    let bare = Node::new(1, "x".to_string(), None, None, None, "/R/x".to_string());
    assert!(from_node(&bare).is_none());
    let no_text = Node::new(1, "y".to_string(), None, Some(meta(false)), None, "/R/y".to_string());
    assert_eq!(from_node(&no_text).unwrap().file_text, "");
    let metas = file_metas(&vec![bare, n, no_text]);
    assert_eq!(metas.len(), 2);
    assert_eq!(metas[0].file_name, ".hidden.md");
    assert_eq!(metas[1].file_path, "/R/y");
}

#[test]
fn simple_and_full_records() {
    let s = simple_meta("/home/user/notes.md", &meta(true));
    assert_eq!(s.file_path, "/home/user/notes.md");
    assert_eq!(s.file_name, "notes.md");
    assert!(!s.is_hidden);
    assert_eq!((s.created, s.last_modified, s.last_accessed, s.size), (10, 20, 30, 11));
    let f = with_text(s, "body".to_string());
    assert_eq!(f.file_text, "body");
    assert_eq!(f.file_name, "notes.md");
    let folder = FolderData::from_files(vec![f.clone(), f]);
    assert_eq!(folder.number_of_files, 2);
    assert_eq!(folder.files.len(), 2);
}
