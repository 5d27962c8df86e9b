use tree_pdf_viewer::pdf_tree::{scan_for_pdfs, scan_pdf_tree, sort_by_name, RootProbe, ScanDir, ScanEntry, TreeNode};

fn file(dir: &str, name: &str) -> ScanEntry {
    ScanEntry {
        name: name.to_string(),
        os_name: name.as_bytes().to_vec(),
        path: format!("{}/{}", dir, name),
        is_dir: false,
        contents: None,
    }
}

fn dir(parent: &str, name: &str, contents: Option<Vec<ScanEntry>>) -> ScanEntry {
    ScanEntry {
        name: name.to_string(),
        os_name: name.as_bytes().to_vec(),
        path: format!("{}/{}", parent, name),
        is_dir: true,
        contents,
    }
}

fn names(nodes: &[TreeNode]) -> Vec<&str> {
    nodes.iter().map(|n| n.name.as_str()).collect()
}

fn library() -> ScanDir {
    ScanDir {
        name: Some("lib".to_string()),
        path: "/lib".to_string(),
        contents: Some(vec![
            file("/lib", "b.pdf"),
            dir("/lib", ".hidden", Some(vec![file("/lib/.hidden", "secret.pdf")])),
            dir("/lib", "Zoo", Some(vec![file("/lib/Zoo", "z.PDF"), file("/lib/Zoo", "a.txt")])),
            file("/lib", "a.txt"),
            dir("/lib", "empty", Some(vec![])),
            file("/lib", "A.pdf"),
            dir("/lib", "locked", None),
        ]),
    }
}

#[test]
fn scan_keeps_pdfs_and_folders_with_pdfs_in_name_order() {
    let tree = scan_for_pdfs(&library()).expect("has pdfs");
    assert_eq!(tree.name, "lib");
    assert_eq!(tree.path, "/lib");
    assert!(tree.is_folder);
    let children = tree.children.as_ref().unwrap();
    assert_eq!(names(children), vec!["A.pdf", "Zoo", "b.pdf"]);
    let zoo = &children[1];
    assert!(zoo.is_folder);
    assert_eq!(names(zoo.children.as_ref().unwrap()), vec!["z.PDF"]);
    let leaf = &zoo.children.as_ref().unwrap()[0];
    assert!(!leaf.is_folder);
    assert!(leaf.children.is_none());
    assert_eq!(leaf.path, "/lib/Zoo/z.PDF");
}

#[test]
fn hidden_folders_are_skipped() {
    let d = ScanDir {
        name: Some("x".to_string()),
        path: "/x".to_string(),
        contents: Some(vec![dir("/x", ".git", Some(vec![file("/x/.git", "a.pdf")]))]),
    };
    assert!(scan_for_pdfs(&d).is_none());
}

#[test]
fn hidden_pdf_files_are_kept() {
    let d = ScanDir {
        name: Some("x".to_string()),
        path: "/x".to_string(),
        contents: Some(vec![file("/x", ".a.pdf")]),
    };
    let t = scan_for_pdfs(&d).unwrap();
    assert_eq!(names(t.children.as_ref().unwrap()), vec![".a.pdf"]);
}

#[test]
fn no_file_name_or_unreadable_gives_none() {
    let mut d = library();
    d.name = None;
    assert!(scan_for_pdfs(&d).is_none());
    let unreadable = ScanDir { name: Some("u".to_string()), path: "/u".to_string(), contents: None };
    assert!(scan_for_pdfs(&unreadable).is_none());
}

#[test]
fn scan_pdf_tree_reports_missing_and_non_directories() {
    match scan_pdf_tree("/nope".to_string(), RootProbe::Missing) {
        Err(m) => assert_eq!(m, "Path does not exist: /nope"),
        Ok(_) => panic!("expected an error"),
    }
    match scan_pdf_tree("/etc/hosts".to_string(), RootProbe::NotDirectory) {
        Err(m) => assert_eq!(m, "Path is not a directory: /etc/hosts"),
        Ok(_) => panic!("expected an error"),
    }
    let r = scan_pdf_tree("/lib".to_string(), RootProbe::Directory(library())).unwrap();
    assert_eq!(names(r.unwrap().children.as_ref().unwrap()), vec!["A.pdf", "Zoo", "b.pdf"]);
    let empty = ScanDir { name: Some("e".to_string()), path: "/e".to_string(), contents: Some(vec![]) };
    assert!(scan_pdf_tree("/e".to_string(), RootProbe::Directory(empty)).unwrap().is_none());
}

#[test]
fn name_order_is_stable_byte_order() {
    let v = vec![file("/", "b"), file("/", "a"), file("/", "B"), file("/", "a"), file("/", "")];
    assert_eq!(sort_by_name(&v), vec![4, 2, 1, 3, 0]);
}

#[test]
fn clone_keeps_tree() {
    let t = scan_for_pdfs(&library()).unwrap();
    let c = t.clone();
    assert_eq!(names(c.children.as_ref().unwrap()), names(t.children.as_ref().unwrap()));
}

#[test]
fn each_pdf_entry_gives_one_child_in_stable_order() {
    let mut first = file("/x", "b.pdf");
    first.path = "/x/first".to_string();
    let mut second = file("/x", "b.pdf");
    second.path = "/x/second".to_string();
    let raw: &[u8] = b"c\xff.pdf";
    let lossy = ScanEntry {
        name: String::from_utf8_lossy(raw).to_string(),
        os_name: raw.to_vec(),
        path: "/x/lossy".to_string(),
        is_dir: false,
        contents: None,
    };
    let dir = ScanDir {
        name: Some("x".to_string()),
        path: "/x".to_string(),
        contents: Some(vec![lossy, first, file("/x", "a.pdf"), second]),
    };
    let tree = scan_for_pdfs(&dir).unwrap();
    let paths: Vec<&str> = tree.children.as_ref().unwrap().iter().map(|n| n.path.as_str()).collect();
    assert_eq!(paths, vec!["/x/a.pdf", "/x/first", "/x/second", "/x/lossy"]);
}
