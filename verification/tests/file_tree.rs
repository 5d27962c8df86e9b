use std::path::PathBuf;
use tree_pdf_viewer::file_tree::{build_file_tree, scan_dir, sort_file_nodes, DirEntryInfo, FileNode};

fn file(dir: &str, name: &str) -> DirEntryInfo {
    DirEntryInfo {
        name: name.to_string(),
        os_name: name.as_bytes().to_vec(),
        path: PathBuf::from(format!("{}/{}", dir, name)),
        is_dir: false,
        contents: None,
    }
}

fn dir(parent: &str, name: &str, contents: Option<Vec<DirEntryInfo>>) -> DirEntryInfo {
    DirEntryInfo {
        name: name.to_string(),
        os_name: name.as_bytes().to_vec(),
        path: PathBuf::from(format!("{}/{}", parent, name)),
        is_dir: true,
        contents,
    }
}

fn names(nodes: &[FileNode]) -> Vec<&str> {
    nodes.iter().map(|n| n.name.as_str()).collect()
}

fn sample() -> DirEntryInfo {
    dir(
        "/",
        "docs",
        Some(vec![
            file("/docs", "zeta.pdf"),
            file("/docs", "notes.txt"),
            dir("/docs", "empty", Some(vec![file("/docs/empty", "a.txt")])),
            file("/docs", "Alpha.PDF"),
            dir(
                "/docs",
                "papers",
                Some(vec![dir("/docs/papers", "deep", Some(vec![file("/docs/papers/deep", "x.pdf")]))]),
            ),
            dir("/docs", "broken", None),
            dir("/docs", "Books", Some(vec![file("/docs/Books", "b.pdf")])),
        ]),
    )
}

#[test]
fn root_lists_pdf_folders_first_then_files_by_name() {
    let tree = build_file_tree(&sample(), false);
    assert_eq!(tree.len(), 1);
    let root = &tree[0];
    assert_eq!(root.name, "docs");
    assert!(root.is_dir);
    assert!(root.is_expanded);
    assert!(root.contains_pdf);
    assert_eq!(names(&root.children), vec!["Books", "papers", "Alpha.PDF", "zeta.pdf"]);
    let papers = &root.children[1];
    assert!(!papers.is_expanded);
    assert!(papers.contains_pdf);
    assert_eq!(names(&papers.children), vec!["deep"]);
    assert_eq!(names(&papers.children[0].children), vec!["x.pdf"]);
    assert_eq!(papers.children[0].children[0].path, PathBuf::from("/docs/papers/deep/x.pdf"));
}

#[test]
fn show_all_folders_keeps_folders_without_pdf() {
    let tree = build_file_tree(&sample(), true);
    let root = &tree[0];
    assert_eq!(
        names(&root.children),
        vec!["Books", "broken", "empty", "papers", "Alpha.PDF", "zeta.pdf"]
    );
    let empty = &root.children[2];
    assert!(!empty.contains_pdf);
    assert!(empty.children.is_empty());
}

#[test]
fn root_contains_pdf_only_for_files_directly_in_it() {
    let root = dir("/", "top", Some(vec![dir("/top", "sub", Some(vec![file("/top/sub", "a.pdf")]))]));
    let tree = build_file_tree(&root, false);
    assert!(!tree[0].contains_pdf);
    assert_eq!(names(&tree[0].children), vec!["sub"]);
    assert!(tree[0].children[0].contains_pdf);
}

#[test]
fn unreadable_root_gives_empty_root() {
    let tree = build_file_tree(&dir("/", "gone", None), false);
    assert_eq!(tree.len(), 1);
    assert!(tree[0].children.is_empty());
    assert!(!tree[0].contains_pdf);
}

#[test]
fn subfolder_contains_pdf_below() {
    let d = dir("/", "a", Some(vec![dir("/a", "b", Some(vec![dir("/a/b", "c", Some(vec![file("/a/b/c", "f.pdf")]))]))]));
    let node = scan_dir(&d, false);
    assert!(node.contains_pdf);
    assert!(!node.is_expanded);
    let none = scan_dir(&dir("/", "a", Some(vec![file("/a", "f.txt")])), true);
    assert!(!none.contains_pdf);
    assert!(none.children.is_empty());
}

#[test]
fn sort_is_stable_for_equal_keys() {
    let mk = |name: &str, is_dir: bool, path: &str| FileNode {
        name: name.to_string(),
        path: PathBuf::from(path),
        is_dir,
        children: vec![],
        is_expanded: false,
        contains_pdf: false,
    };
    let v = vec![mk("b", false, "1"), mk("a", true, "2"), mk("b", false, "3"), mk("a", false, "4"), mk("a", true, "5")];
    let r = sort_file_nodes(v);
    let got: Vec<(&str, bool, PathBuf)> = r.iter().map(|n| (n.name.as_str(), n.is_dir, n.path.clone())).collect();
    assert_eq!(
        got,
        vec![
            ("a", true, PathBuf::from("2")),
            ("a", true, PathBuf::from("5")),
            ("a", false, PathBuf::from("4")),
            ("b", false, PathBuf::from("1")),
            ("b", false, PathBuf::from("3")),
        ]
    );
}

#[test]
fn clone_copies_the_whole_tree() {
    let tree = build_file_tree(&sample(), false);
    let copy = tree[0].clone();
    assert_eq!(names(&copy.children), names(&tree[0].children));
    assert_eq!(copy.children[1].children[0].children[0].name, "x.pdf");
}

#[test]
fn default_node_is_empty() {
    let n = FileNode::default();
    assert!(n.name.is_empty());
    assert!(!n.is_dir && !n.is_expanded && !n.contains_pdf);
    assert!(n.children.is_empty());
    assert_eq!(n.path, PathBuf::new());
}
