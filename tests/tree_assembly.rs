use mdsilo_tree::tree::node::{FileKind, FileMeta, Node};
use mdsilo_tree::tree::{Tree, TreeAssembler, TreeError};

fn meta(is_dir: bool) -> FileMeta {
    FileMeta {
        size: if is_dir { 0 } else { 5 },
        created: 1_000,
        modified: 2_000,
        accessed: 3_000,
        readonly: false,
        is_dir,
        is_file: !is_dir,
    }
}

fn dir(depth: usize, name: &str, path: &str) -> Node {
    Node::new(depth, name.to_string(), Some(FileKind::Dir), Some(meta(true)), None, path.to_string())
}

fn file(depth: usize, name: &str, path: &str, text: Option<&str>) -> Node {
    Node::new(
        depth,
        name.to_string(),
        Some(FileKind::File),
        Some(meta(false)),
        text.map(|t| t.to_string()),
        path.to_string(),
    )
}

fn build(entries: Vec<Node>) -> Result<Tree, TreeError> {
    let mut assembler = TreeAssembler::new();
    for e in entries {
        assembler.push(e)?;
    }
    assembler.finish()
}

fn names(nodes: &[Node]) -> Vec<String> {
    let mut v: Vec<String> = nodes.iter().map(|n| n.file_name().to_string()).collect();
    v.sort();
    v
}

fn child_named(tree: &Tree, parent: usize, name: &str) -> usize {
    for id in tree.children_ids(parent) {
        if tree.node(id).file_name() == name {
            return id;
        }
    }
    panic!("no child named {name}");
}

fn fixture() -> Vec<Node> {
    vec![
        file(2, "b.txt", "/R/sub/b.txt", Some("bee")),
        file(1, "a.md", "/R/a.md", Some("hello")),
        dir(0, "R", "/R"),
        dir(1, "sub", "/R/sub"),
    ]
}

#[test]
fn fixture_full_depth() {
    let tree = build(fixture()).unwrap();
    let root_children = tree.children_vec();
    assert_eq!(root_children.len(), 2);
    assert_eq!(names(&root_children), vec!["a.md".to_string(), "sub".to_string()]);
    let a = root_children.iter().find(|n| n.file_name() == "a.md").unwrap();
    assert_eq!(a.file_text.as_deref(), Some("hello"));
    let sub = child_named(&tree, tree.root(), "sub");
    assert!(tree.is_dir(sub));
    let sub_children = tree.children_of(sub);
    assert_eq!(sub_children.len(), 1);
    assert_eq!(sub_children[0].file_name(), "b.txt");
}

#[test]
fn fixture_depth_one() {
    let entries = vec![
        file(1, "a.md", "/R/a.md", Some("hello")),
        dir(0, "R", "/R"),
        dir(1, "sub", "/R/sub"),
    ];
    let tree = build(entries).unwrap();
    assert_eq!(names(&tree.children_vec()), vec!["a.md".to_string(), "sub".to_string()]);
    let sub = child_named(&tree, tree.root(), "sub");
    assert!(tree.is_dir(sub));
    assert!(tree.children_of(sub).is_empty());
}

#[test]
fn fixture_permission_denied() {
    let entries = vec![
        dir(0, "R", "/R"),
        file(1, "a.md", "/R/a.md", Some("hello")),
        dir(1, "locked", "/R/locked"),
        dir(1, "sub", "/R/sub"),
        file(2, "b.txt", "/R/sub/b.txt", None),
    ];
    let tree = build(entries).unwrap();
    assert_eq!(
        names(&tree.children_vec()),
        vec!["a.md".to_string(), "locked".to_string(), "sub".to_string()]
    );
    let locked = child_named(&tree, tree.root(), "locked");
    assert!(tree.children_of(locked).is_empty());
    let sub = child_named(&tree, tree.root(), "sub");
    assert_eq!(names(&tree.children_of(sub)), vec!["b.txt".to_string()]);
}

#[test]
fn root_is_unique_at_depth_zero() {
    let tree = build(fixture()).unwrap();
    let root = tree.root();
    assert_eq!(tree.node(root).depth, 0);
    assert_eq!(tree.node(root).path(), "/R");
    let mut zero = 0;
    for id in 1..=tree.len() {
        if tree.node(id).depth == 0 {
            zero += 1;
        }
        assert!(!tree.children_ids(id).contains(&root));
    }
    assert_eq!(zero, 1);
}

#[test]
fn second_root_is_refused() {
    let mut assembler = TreeAssembler::new();
    assembler.push(dir(0, "R", "/R")).unwrap();
    let r = assembler.push(dir(0, "S", "/S"));
    assert!(matches!(r, Err(TreeError::DuplicateRoot)));
    assert_eq!(assembler.len(), 1);
}

#[test]
fn missing_root_is_refused() {
    let r = build(vec![file(1, "a.md", "/R/a.md", None)]);
    assert!(matches!(r, Err(TreeError::MissingRoot)));
    assert_eq!(TreeError::MissingRoot.message(), "MissingRoot");
}

#[test]
fn entry_without_parent_is_refused() {
    let mut assembler = TreeAssembler::new();
    let r = assembler.push(dir(1, "/", "/"));
    assert!(matches!(r, Err(TreeError::ExpectedParent)));
    assert_eq!(assembler.len(), 0);
    assert_eq!(TreeError::ExpectedParent.message(), "ExpectedParent");
}

#[test]
fn empty_directory_lists_nothing() {
    let tree = build(vec![dir(0, "R", "/R"), dir(1, "empty", "/R/empty")]).unwrap();
    let empty = child_named(&tree, tree.root(), "empty");
    assert!(tree.children_of(empty).is_empty());
    assert!(tree.children_ids(empty).is_empty());
}

#[test]
fn empty_root_lists_nothing() {
    let tree = build(vec![dir(0, "R", "/R")]).unwrap();
    assert!(tree.children_vec().is_empty());
    assert_eq!(tree.len(), 1);
}

fn all_paths(tree: &Tree) -> Vec<String> {
    let mut out = Vec::new();
    let mut stack = vec![tree.root()];
    while let Some(id) = stack.pop() {
        out.push(tree.node(id).path().to_string());
        stack.extend(tree.children_ids(id));
    }
    out.sort();
    out
}

#[test]
fn same_entries_in_another_order_give_same_paths() {
    let mut reversed = fixture();
    reversed.reverse();
    let first = build(fixture()).unwrap();
    let second = build(reversed).unwrap();
    assert_eq!(all_paths(&first), all_paths(&second));
    assert_eq!(
        all_paths(&first),
        vec!["/R", "/R/a.md", "/R/sub", "/R/sub/b.txt"]
            .into_iter()
            .map(String::from)
            .collect::<Vec<_>>()
    );
}

#[test]
fn reachable_paths_lie_under_root() {
    let tree = build(fixture()).unwrap();
    for id in 1..=tree.len() {
        for c in tree.children_ids(id) {
            assert_eq!(tree.node(c).parent_path().unwrap(), tree.node(id).path());
            assert!(tree.node(c).depth <= 2);
        }
    }
}

#[test]
fn orphan_stays_detached() {
    let tree = build(vec![
        dir(0, "R", "/R"),
        file(2, "x.md", "/R/gone/x.md", None),
        file(1, "a.md", "/R/a.md", None),
    ])
    .unwrap();
    assert_eq!(names(&tree.children_vec()), vec!["a.md".to_string()]);
    assert_eq!(tree.len(), 3);
}

#[test]
fn children_keep_arrival_order() {
    let tree = build(vec![
        file(1, "z.md", "/R/z.md", None),
        dir(0, "R", "/R"),
        file(1, "b.md", "/R/b.md", None),
        file(1, "m.md", "/R/m.md", None),
    ])
    .unwrap();
    let order: Vec<String> = tree.children_vec().iter().map(|n| n.file_name().to_string()).collect();
    assert_eq!(order, vec!["z.md", "b.md", "m.md"]);
}

#[test]
fn node_accessors() {
    let n = file(2, "b.txt", "/R/sub/b.txt", Some("bee"));
    assert_eq!(n.parent_path().as_deref(), Some("/R/sub"));
    assert_eq!(n.file_name_lossy(), "b.txt");
    assert!(!n.is_dir());
    assert_eq!(n.file_type(), Some(FileKind::File));
    assert!(dir(1, "d", "/R/d").is_dir());
    assert_eq!(n.duplicate().path(), "/R/sub/b.txt");
    let tree = build(fixture()).unwrap();
    let sub = child_named(&tree, tree.root(), "sub");
    assert_eq!(tree.metadata(sub), Some(meta(true)));
}

#[test]
fn deep_chain_arriving_leaf_first() {
    let tree = build(vec![
        file(4, "leaf.md", "/R/a/b/c/leaf.md", Some("x")),
        dir(3, "c", "/R/a/b/c"),
        dir(2, "b", "/R/a/b"),
        dir(1, "a", "/R/a"),
        dir(0, "R", "/R"),
    ])
    .unwrap();
    let a = child_named(&tree, tree.root(), "a");
    let b = child_named(&tree, a, "b");
    let c = child_named(&tree, b, "c");
    let leaf = child_named(&tree, c, "leaf.md");
    assert_eq!(tree.node(leaf).file_text.as_deref(), Some("x"));
    assert!(tree.children_ids(leaf).is_empty());
}

#[test]
fn not_found_message() {
    let e = TreeError::NotFound("/nowhere".to_string());
    assert_eq!(e.message(), "Not Found /nowhere");
    assert_eq!(TreeError::DuplicateRoot.message(), "DuplicateRoot");
}
