use mdsilo_tree::notes::{assemble_note_tree, date_text, note_of, sorted_unique, NoteData, NoteTreeItem};
use mdsilo_tree::files::FileMetaData;
use mdsilo_tree::tree::node::{FileKind, FileMeta, Node};
use mdsilo_tree::tree::{Tree, TreeAssembler};

fn meta(is_dir: bool, created: u64) -> FileMeta {
    FileMeta {
        size: 1,
        created,
        modified: 2_000,
        accessed: 3_000,
        readonly: false,
        is_dir,
        is_file: !is_dir,
    }
}

fn entry(depth: usize, name: &str, path: &str, is_dir: bool, text: Option<&str>) -> Node {
    Node::new(
        depth,
        name.to_string(),
        Some(if is_dir { FileKind::Dir } else { FileKind::File }),
        Some(meta(is_dir, 1_000)),
        text.map(|t| t.to_string()),
        path.to_string(),
    )
}

fn build(entries: Vec<Node>) -> Tree {
    let mut assembler = TreeAssembler::new();
    for e in entries {
        assembler.push(e).unwrap();
    }
    assembler.finish().unwrap()
}

fn notes_of(tree: &Tree) -> (Vec<NoteData>, Vec<(String, Vec<NoteTreeItem>)>) {
    let mut notes = Vec::new();
    let mut note_tree = Vec::new();
    assemble_note_tree(tree, tree.root(), "NOW", &mut notes, &mut note_tree);
    (notes, note_tree)
}

#[test]
fn notes_of_fixture() {
    let tree = build(vec![
        entry(2, "b.txt", "/R/sub/b.txt", false, Some("bee")),
        entry(1, "a.md", "/R/a.md", false, Some("hello")),
        entry(0, "R", "/R", true, None),
        entry(1, "sub", "/R/sub", true, None),
    ]);
    let (notes, note_tree) = notes_of(&tree);
    let ids: Vec<&str> = notes.iter().map(|n| n.id.as_str()).collect();
    assert_eq!(ids, vec!["/R/a.md", "/R/sub", "/R/sub/b.txt"]);
    assert_eq!(notes[0].title, "a");
    assert_eq!(notes[0].content, "hello");
    assert_eq!(notes[0].file_path, "/R/a.md");
    assert_eq!(notes[0].created_at, "1970-01-01T00:00:01.000Z");
    assert_eq!(notes[0].updated_at, "1970-01-01T00:00:02.000Z");
    assert!(!notes[0].is_dir && !notes[0].is_daily && notes[0].cover.is_empty());
    assert_eq!(notes[1].title, "sub");
    assert_eq!(notes[1].content, "");
    assert!(notes[1].is_dir);
    assert_eq!(notes[2].title, "b");

    let listed: Vec<&str> = note_tree.iter().map(|(p, _)| p.as_str()).collect();
    assert_eq!(listed, vec!["/R/sub", "/R"]);
    let sub_items: Vec<&str> = note_tree[0].1.iter().map(|i| i.id.as_str()).collect();
    assert_eq!(sub_items, vec!["/R/sub/b.txt"]);
    let root_items: Vec<&str> = note_tree[1].1.iter().map(|i| i.id.as_str()).collect();
    assert_eq!(root_items, vec!["/R/a.md", "/R/sub"]);
    assert_eq!(note_tree[1].1[1].title, "sub");
    assert!(note_tree[1].1[1].is_dir);
}

#[test]
fn listing_is_sorted_by_path() {
    let tree = build(vec![
        entry(0, "R", "/R", true, None),
        entry(1, "z.md", "/R/z.md", false, None),
        entry(1, "b.md", "/R/b.md", false, None),
        entry(1, "B.md", "/R/B.md", false, None),
    ]);
    let (notes, note_tree) = notes_of(&tree);
    assert_eq!(notes.len(), 3);
    assert_eq!(note_tree.len(), 1);
    let ids: Vec<&str> = note_tree[0].1.iter().map(|i| i.id.as_str()).collect();
    assert_eq!(ids, vec!["/R/B.md", "/R/b.md", "/R/z.md"]);
}

fn item(id: &str, title: &str) -> NoteTreeItem {
    NoteTreeItem {
        id: id.to_string(),
        title: title.to_string(),
        created_at: String::new(),
        updated_at: String::new(),
        is_dir: false,
    }
}

#[test]
fn repeated_ids_are_listed_once() {
    let out = sorted_unique(vec![item("/b", "1"), item("/a", "2"), item("/b", "3"), item("/ab", "4")]);
    let ids: Vec<&str> = out.iter().map(|i| i.id.as_str()).collect();
    assert_eq!(ids, vec!["/a", "/ab", "/b"]);
    assert!(sorted_unique(Vec::new()).is_empty());
}

#[test]
fn dates_fall_back_to_now() {
    assert_eq!(date_text(0, "NOW"), "1970-01-01T00:00:00.000Z");
    assert_eq!(date_text(1_431_648_000_123, "NOW"), "2015-05-15T00:00:00.123Z");
    assert_eq!(date_text(u64::MAX, "NOW"), "NOW");
    assert_eq!(date_text(i64::MAX as u64, "NOW"), "NOW");
}

#[test]
fn note_of_a_record() {
    let file = FileMetaData {
        file_path: "/R/notes.tar.gz".to_string(),
        file_name: "notes.tar.gz".to_string(),
        file_text: "text".to_string(),
        created: 0,
        last_modified: 1,
        last_accessed: 2,
        size: 3,
        readonly: false,
        is_dir: false,
        is_file: true,
        is_hidden: false,
    };
    let note = note_of(file, "NOW");
    assert_eq!(note.id, "/R/notes.tar.gz");
    assert_eq!(note.title, "notes.tar");
    assert_eq!(note.content, "text");
    assert_eq!(note.updated_at, "1970-01-01T00:00:00.001Z");
}

#[test]
fn entries_without_metadata_get_no_note() {
    let bare = Node::new(1, "x.md".to_string(), Some(FileKind::File), None, None, "/R/x.md".to_string());
    let tree = build(vec![entry(0, "R", "/R", true, None), bare]);
    let (notes, note_tree) = notes_of(&tree);
    assert!(notes.is_empty());
    assert_eq!(note_tree.len(), 1);
    assert!(note_tree[0].1.is_empty());
}
