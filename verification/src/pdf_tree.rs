//! The tree of PDF files that the desktop shell hands to its front end: only
//! PDF files, and the folders that hold at least one of them, directly or
//! further down; hidden folders are skipped; entries go in name order.
//!
//! Reading the file system is the caller's part: it hands over the listing
//! as [`ScanEntry`] values and this module builds the [`TreeNode`]s.
use crate::names::{
    has_pdf_extension, is_pdf_file_name, is_pdf_name, name_has_pdf_extension, starts_with_dot,
};
use crate::order::{
    bytes_lt, bytes_less, is_insert_point, lemma_insert_at, lemma_sort_by_permutes,
    lemma_sort_by_sorted, sort_by,
};
use vstd::prelude::*;
use vstd::string::*;

verus! {

broadcast use vstd::seq_lib::group_seq_properties;

/// A node of the PDF tree.
pub struct TreeNode {
    pub name: String,
    pub path: String,
    pub is_folder: bool,
    pub children: Option<Vec<TreeNode>>,
}

/// The mathematical value of a [`TreeNode`].
pub struct TreeNodeView {
    pub name: Seq<char>,
    pub path: Seq<char>,
    pub is_folder: bool,
    pub children: Option<Seq<TreeNodeView>>,
}

/// A placeholder value, never part of a tree.
pub open spec fn no_tree_node() -> TreeNodeView {
    TreeNodeView { name: Seq::empty(), path: Seq::empty(), is_folder: false, children: None }
}

impl TreeNode {
    pub open spec fn view_of(self) -> TreeNodeView
        decreases self,
    {
        TreeNodeView {
            name: self.name@,
            path: self.path@,
            is_folder: self.is_folder,
            children: match self.children {
                Some(v) => Some(
                    Seq::new(
                        v@.len(),
                        |i: int|
                            if 0 <= i < v@.len() {
                                v@[i].view_of()
                            } else {
                                no_tree_node()
                            },
                    ),
                ),
                None => None,
            },
        }
    }
}

impl View for TreeNode {
    type V = TreeNodeView;

    open spec fn view(&self) -> TreeNodeView {
        self.view_of()
    }
}

/// The values of a sequence of nodes.
pub open spec fn tree_views(s: Seq<TreeNode>) -> Seq<TreeNodeView> {
    Seq::new(s.len(), |i: int| s[i]@)
}

/// A copy of a node and all below it.
pub fn clone_tree_node(n: &TreeNode) -> (r: TreeNode)
    ensures
        r@ == n@,
    decreases n,
{
    let children = match &n.children {
        Some(v) => {
            let mut c: Vec<TreeNode> = Vec::new();
            let mut i: usize = 0;
            while i < v.len()
                invariant
                    n.children == Some(*v),
                    i <= v@.len(),
                    c@.len() == i,
                    forall|k: int| 0 <= k < i ==> #[trigger] c@[k]@ == v@[k]@,
                decreases v@.len() - i,
            {
                proof {
                    assert(decreases_to!(*n => n.children));
                    assert(decreases_to!(n.children => n.children->0));
                    assert(decreases_to!(*v => v@));
                    assert(decreases_to!(v@ => v@[i as int]));
                }
                let x = clone_tree_node(&v[i]);
                c.push(x);
                i = i + 1;
            }
            Some(c)
        },
        None => None,
    };
    let r = TreeNode {
        name: n.name.clone(),
        path: n.path.clone(),
        is_folder: n.is_folder,
        children,
    };
    proof {
        if n.children is Some {
            let v = n.children.unwrap();
            let c = r.children.unwrap();
            assert forall|k: int| 0 <= k < v@.len() implies r@.children.unwrap()[k]
                == n@.children.unwrap()[k] by {
                assert(c@[k]@ == v@[k]@);
            }
            assert(r@.children.unwrap() =~= n@.children.unwrap());
        }
    }
    r
}

impl Clone for TreeNode {
    fn clone(&self) -> (r: Self)
        ensures
            r@ == self@,
    {
        clone_tree_node(self)
    }
}

/// An entry of a directory listing, as the file system gave it.
pub struct ScanEntry {
    /// The file name, decoded lossily (`to_string_lossy`).
    pub name: String,
    /// The file name as the operating system encodes it; entries are sorted
    /// by it.
    pub os_name: Vec<u8>,
    /// The full path, decoded lossily.
    pub path: String,
    /// Whether the path is a directory (following symbolic links).
    pub is_dir: bool,
    /// For a directory that is read, its entries in the order the listing
    /// gave them, or `None` when it could not be read.  Not looked at for
    /// files, nor for hidden directories.
    pub contents: Option<Vec<ScanEntry>>,
}

/// A directory to scan.
pub struct ScanDir {
    /// Its file name, decoded lossily; `None` for a path without one (such
    /// as `/`).
    pub name: Option<String>,
    /// Its path, decoded lossily.
    pub path: String,
    /// Its entries, or `None` when it could not be read.
    pub contents: Option<Vec<ScanEntry>>,
}

/// The positions of the entries of `v`, in the stable order of their OS
/// names (`sort_by_key(|e| e.file_name())`).
pub open spec fn name_order(v: Seq<ScanEntry>) -> Seq<usize> {
    sort_by(Seq::new(v.len(), |i: int| i as usize), |i: usize| v[i as int].os_name@)
}

/// Whether a name is that of a hidden entry.
pub open spec fn is_hidden(name: Seq<char>) -> bool {
    name.len() > 0 && name[0] == '.'
}

/// A file entry is a PDF file: its OS name has the extension `pdf` in any
/// ASCII case, and so does its decoded name.  Lossy decoding keeps every
/// ASCII byte and gives characters outside ASCII for the others, so for a
/// name decoded from the OS name the two tests agree; the second is what
/// lets the tree promise a PDF name for each of its files.
pub open spec fn is_pdf_entry(e: ScanEntry) -> bool {
    is_pdf_file_name(e.os_name@) && is_pdf_name(e.name@)
}

/// What an entry adds to the tree, given what scanning it as a directory
/// gave: a subtree for a directory that is not hidden and holds a PDF; a
/// leaf for a PDF file; else nothing.
pub open spec fn entry_result(e: ScanEntry, sub: Option<TreeNodeView>) -> Option<TreeNodeView> {
    if e.is_dir {
        if is_hidden(e.name@) {
            None
        } else {
            sub
        }
    } else if is_pdf_entry(e) {
        Some(TreeNodeView { name: e.name@, path: e.path@, is_folder: false, children: None })
    } else {
        None
    }
}

/// What each entry of a listing adds, in name order.
pub open spec fn scan_results(contents: Option<Vec<ScanEntry>>) -> Seq<Option<TreeNodeView>>
    decreases contents, 0nat,
{
    match contents {
        Some(v) => {
            let order = name_order(v@);
            Seq::new(
                order.len(),
                |k: int|
                    if 0 <= k < order.len() && order[k] < v@.len() {
                        entry_result(
                            v@[order[k] as int],
                            scan_view(
                                Some(v@[order[k] as int].name@),
                                v@[order[k] as int].path@,
                                v@[order[k] as int].contents,
                            ),
                        )
                    } else {
                        None
                    },
            )
        },
        None => Seq::empty(),
    }
}

/// Keeps what is there.
pub open spec fn present_nodes(s: Seq<Option<TreeNodeView>>) -> Seq<TreeNodeView> {
    s.filter_map(|o: Option<TreeNodeView>| o)
}

/// The tree of a directory: `None` when it cannot be read, holds no PDF
/// (directly or below) or has no file name; else a folder with the
/// non-empty list of what its entries add.
pub open spec fn scan_view(
    name: Option<Seq<char>>,
    path: Seq<char>,
    contents: Option<Vec<ScanEntry>>,
) -> Option<TreeNodeView>
    decreases contents, 1nat,
{
    let children = present_nodes(scan_results(contents));
    if contents is Some && children.len() > 0 && name is Some {
        Some(
            TreeNodeView {
                name: name.unwrap(),
                path: path,
                is_folder: true,
                children: Some(children),
            },
        )
    } else {
        None
    }
}

/// Whether entry `a` goes behind entry `b` by name.
fn entry_less(a: &ScanEntry, b: &ScanEntry) -> (r: bool)
    ensures
        r == bytes_lt(a.os_name@, b.os_name@),
{
    bytes_less(a.os_name.as_slice(), b.os_name.as_slice())
}

/// The positions of the entries in the stable order of their names.
pub fn sort_by_name(v: &Vec<ScanEntry>) -> (r: Vec<usize>)
    ensures
        r@ == name_order(v@),
        forall|k: int| 0 <= k < r@.len() ==> #[trigger] r@[k] < v@.len(),
{
    let ghost key = |i: usize| v@[i as int].os_name@;
    let ghost all = Seq::new(v@.len(), |i: int| i as usize);
    let mut result: Vec<usize> = Vec::new();
    let mut i: usize = 0;
    assert(all.take(0) =~= Seq::<usize>::empty());
    while i < v.len()
        invariant
            key == (|i: usize| v@[i as int].os_name@),
            all == Seq::new(v@.len(), |i: int| i as usize),
            i <= v@.len(),
            result@ == sort_by(all.take(i as int), key),
            forall|k: int| 0 <= k < result@.len() ==> #[trigger] result@[k] < i,
        decreases v@.len() - i,
    {
        let mut j = result.len();
        while j > 0 && entry_less(&v[i], &v[result[j - 1]])
            invariant
                key == (|i: usize| v@[i as int].os_name@),
                i < v@.len(),
                j <= result@.len(),
                forall|k: int| 0 <= k < result@.len() ==> #[trigger] result@[k] < i,
                forall|m: int|
                    j <= m < result@.len() ==> bytes_lt(
                        key(i),
                        #[trigger] key(result@[m]),
                    ),
            decreases j,
        {
            j = j - 1;
        }
        proof {
            assert(is_insert_point(result@, i, key, j as int));
            lemma_insert_at(result@, i, key, j as int);
            assert(all.take(i + 1).drop_last() =~= all.take(i as int));
            assert(all.take(i + 1).last() == i);
        }
        let ghost old_result = result@;
        result.insert(j, i);
        proof {
            assert forall|k: int| 0 <= k < result@.len() implies #[trigger] result@[k] < i + 1 by {
                if k < j {
                    assert(result@[k] == old_result[k]);
                } else if k > j {
                    assert(result@[k] == old_result[k - 1]);
                }
            }
        }
        i = i + 1;
    }
    assert(all.take(v@.len() as int) =~= all);
    result
}


/// The value of an optional name.
pub open spec fn name_view(name: Option<String>) -> Option<Seq<char>> {
    match name {
        Some(s) => Some(s@),
        None => None,
    }
}

proof fn lemma_tree_views_push(s: Seq<TreeNode>, x: TreeNode)
    ensures
        tree_views(s.push(x)) == tree_views(s).push(x@),
{
    assert(tree_views(s.push(x)) =~= tree_views(s).push(x@));
}

/// What the entries of a listing add, in name order.
fn collect_pdf_children(contents: &Option<Vec<ScanEntry>>) -> (r: Vec<TreeNode>)
    ensures
        tree_views(r@) == present_nodes(scan_results(*contents)),
    decreases *contents, 0nat,
{
    let mut children: Vec<TreeNode> = Vec::new();
    let ghost all = scan_results(*contents);
    match contents {
        Some(v) => {
            let order = sort_by_name(v);
            let mut k: usize = 0;
            assert(all.take(0) =~= Seq::<Option<TreeNodeView>>::empty());
            while k < order.len()
                invariant
                    all == scan_results(*contents),
                    *contents == Some(*v),
                    order@ == name_order(v@),
                    forall|m: int| 0 <= m < order@.len() ==> #[trigger] order@[m] < v@.len(),
                    all.len() == order@.len(),
                    k <= order@.len(),
                    tree_views(children@) == present_nodes(all.take(k as int)),
                decreases order@.len() - k,
            {
                let idx = order[k];
                let e = &v[idx];
                let ghost before = present_nodes(all.take(k as int));
                proof {
                    all.lemma_filter_map_take_succ(|o: Option<TreeNodeView>| o, k as int);
                    assert(order@[k as int] < v@.len());
                    assert(all[k as int] == entry_result(
                        v@[idx as int],
                        scan_view(Some(v@[idx as int].name@), v@[idx as int].path@, v@[idx as int].contents),
                    ));
                    assert(before + Seq::<TreeNodeView>::empty() =~= before);
                }
                if e.is_dir {
                    if !starts_with_dot(e.name.as_str()) {
                        proof {
                            assert(decreases_to!(*contents => contents->0));
                            assert(decreases_to!(*v => v@));
                            assert(decreases_to!(v@ => v@[idx as int]));
                            assert(decreases_to!(v@[idx as int] => v@[idx as int].contents));
                        }
                        let sub = scan_listing(Some(e.name.clone()), &e.path, &e.contents);
                        match sub {
                            Some(t) => {
                                proof {
                                    lemma_tree_views_push(children@, t);
                                    assert(before + seq![t@] =~= before.push(t@));
                                }
                                children.push(t);
                            },
                            None => {},
                        }
                    }
                } else if has_pdf_extension(e.os_name.as_slice()) && name_has_pdf_extension(
                    e.name.as_str(),
                ) {
                    let leaf = TreeNode {
                        name: e.name.clone(),
                        path: e.path.clone(),
                        is_folder: false,
                        children: None,
                    };
                    proof {
                        lemma_tree_views_push(children@, leaf);
                        assert(before + seq![leaf@] =~= before.push(leaf@));
                    }
                    children.push(leaf);
                }
                k = k + 1;
            }
            assert(all.take(order@.len() as int) =~= all);
        },
        None => {
            assert(all =~= Seq::<Option<TreeNodeView>>::empty());
            assert(present_nodes(all) =~= Seq::<TreeNodeView>::empty());
            assert(tree_views(children@) =~= Seq::<TreeNodeView>::empty());
        },
    }
    children
}

/// Scans one directory: `None` when it cannot be read, holds no PDF or has
/// no file name.
fn scan_listing(name: Option<String>, path: &String, contents: &Option<Vec<ScanEntry>>) -> (r: Option<
    TreeNode,
>)
    ensures
        match r {
            Some(n) => scan_view(name_view(name), path@, *contents) == Some(n@),
            None => scan_view(name_view(name), path@, *contents) is None,
        },
    decreases *contents, 1nat,
{
    if contents.is_none() {
        return None;
    }
    let children = collect_pdf_children(contents);
    if children.len() == 0 {
        return None;
    }
    match name {
        Some(n) => {
            let node = TreeNode { name: n, path: path.clone(), is_folder: true, children: Some(children) };
            proof {
                assert(node@.children.unwrap() =~= tree_views(children@));
            }
            Some(node)
        },
        None => None,
    }
}

/// Scans a directory for PDF files: the folder with the PDF files in it
/// and the folders below it that hold one, skipping hidden folders, in name
/// order; `None` when it holds none, cannot be read or has no file name.
pub fn scan_for_pdfs(dir: &ScanDir) -> (r: Option<TreeNode>)
    ensures
        match r {
            Some(n) => scan_view(name_view(dir.name), dir.path@, dir.contents) == Some(n@),
            None => scan_view(name_view(dir.name), dir.path@, dir.contents) is None,
        },
{
    let name = match &dir.name {
        Some(n) => Some(n.clone()),
        None => None,
    };
    scan_listing(name, &dir.path, &dir.contents)
}

/// What the file system says of the root path of a scan.
pub enum RootProbe {
    /// Nothing exists at the path.
    Missing,
    /// The path exists but is not a directory.
    NotDirectory,
    /// The path is a directory.
    Directory(ScanDir),
}

/// The message of a refused scan: `prefix` followed by the path.
pub open spec fn scan_error(prefix: Seq<char>, root: Seq<char>) -> Seq<char> {
    prefix + root
}

/// Scans the folder `root` for PDF files; an error message when the path
/// does not exist or is not a directory.
pub fn scan_pdf_tree(root: String, probe: RootProbe) -> (r: Result<Option<TreeNode>, String>)
    ensures
        match probe {
            RootProbe::Missing => r matches Err(m) && m@ == scan_error(
                "Path does not exist: "@,
                root@,
            ),
            RootProbe::NotDirectory => r matches Err(m) && m@ == scan_error(
                "Path is not a directory: "@,
                root@,
            ),
            RootProbe::Directory(dir) => r matches Ok(t) && match t {
                Some(n) => scan_view(name_view(dir.name), dir.path@, dir.contents) == Some(n@),
                None => scan_view(name_view(dir.name), dir.path@, dir.contents) is None,
            },
        },
{
    match probe {
        RootProbe::Missing => {
            let mut m = String::from_str("Path does not exist: ");
            m.append(root.as_str());
            Err(m)
        },
        RootProbe::NotDirectory => {
            let mut m = String::from_str("Path is not a directory: ");
            m.append(root.as_str());
            Err(m)
        },
        RootProbe::Directory(dir) => Ok(scan_for_pdfs(&dir)),
    }
}


/// A PDF tree is well formed: a folder has a non-empty list of children,
/// each well formed; a leaf has no list of children and a name with the
/// extension `pdf` in any ASCII case.
pub open spec fn pdf_tree_wf(t: TreeNodeView) -> bool
    decreases t,
{
    if t.is_folder {
        match t.children {
            Some(c) => c.len() > 0 && forall|i: int| 0 <= i < c.len() ==> pdf_tree_wf(#[trigger] c[i]),
            None => false,
        }
    } else {
        t.children is None && is_pdf_name(t.name)
    }
}

/// Whether a PDF file lies in a listing or below it, outside hidden
/// folders and folders that could not be read.
pub open spec fn has_visible_pdf(contents: Option<Vec<ScanEntry>>) -> bool
    decreases contents, 1nat,
{
    contents is Some && visible_flags(contents).contains(true)
}

/// For each entry of a listing, in listing order: whether it is a PDF file,
/// or a folder that is not hidden with a visible PDF in or below it.
pub open spec fn visible_flags(contents: Option<Vec<ScanEntry>>) -> Seq<bool>
    decreases contents, 0nat,
{
    match contents {
        Some(v) => Seq::new(
            v@.len(),
            |i: int|
                if 0 <= i < v@.len() {
                    if v@[i].is_dir {
                        !is_hidden(v@[i].name@) && has_visible_pdf(v@[i].contents)
                    } else {
                        is_pdf_entry(v@[i])
                    }
                } else {
                    false
                },
        ),
        None => Seq::empty(),
    }
}

proof fn lemma_present_nonempty(s: Seq<Option<TreeNodeView>>)
    ensures
        (present_nodes(s).len() > 0) == exists|k: int| 0 <= k < s.len() && #[trigger] s[k] is Some,
    decreases s.len(),
{
    if s.len() > 0 {
        let t = s.drop_last();
        lemma_present_nonempty(t);
        match s.last() {
            Some(v) => {
                assert(present_nodes(s) == present_nodes(t) + seq![v]);
                assert(s[s.len() - 1] is Some);
            },
            None => {
                assert(present_nodes(s) == present_nodes(t));
                if exists|k: int| 0 <= k < s.len() && #[trigger] s[k] is Some {
                    let k = choose|k: int| 0 <= k < s.len() && #[trigger] s[k] is Some;
                    assert(t[k] is Some);
                }
            },
        }
        if exists|k: int| 0 <= k < t.len() && #[trigger] t[k] is Some {
            let k = choose|k: int| 0 <= k < t.len() && #[trigger] t[k] is Some;
            assert(s[k] is Some);
        }
    } else {
        assert(present_nodes(s) =~= Seq::<TreeNodeView>::empty());
    }
}

/// Law: the name order lists every entry exactly once, and in order of
/// their OS names (stable for equal names).
pub proof fn lemma_name_order(v: Seq<ScanEntry>)
    requires
        v.len() <= usize::MAX,
    ensures
        forall|k: int| 0 <= k < name_order(v).len() ==> #[trigger] name_order(v)[k] < v.len(),
        forall|i: usize| i < v.len() ==> #[trigger] name_order(v).contains(i),
        name_order(v).no_duplicates(),
        forall|a: int, b: int|
            0 <= a < b < name_order(v).len() ==> !bytes_lt(
                v[name_order(v)[b] as int].os_name@,
                v[name_order(v)[a] as int].os_name@,
            ),
{
    let key = |i: usize| v[i as int].os_name@;
    let all = Seq::new(v.len(), |i: int| i as usize);
    let order = name_order(v);
    lemma_sort_by_sorted(all, key);
    lemma_sort_by_permutes(all, key);
    order.to_multiset_ensures();
    all.to_multiset_ensures();
    assert forall|k: int| 0 <= k < order.len() implies #[trigger] order[k] < v.len() by {
        assert(order.to_multiset().count(order[k]) > 0);
        assert(all.contains(order[k]));
    }
    assert forall|i: usize| i < v.len() implies #[trigger] order.contains(i) by {
        assert(all[i as int] == i);
        assert(all.to_multiset().count(i) > 0);
    }
    assert(all.no_duplicates()) by {
        assert forall|i: int, j: int| 0 <= i < all.len() && 0 <= j < all.len() && i != j implies all[i] != all[j] by {
            assert(all[i] == i as usize);
            assert(all[j] == j as usize);
        }
    }
    all.lemma_multiset_has_no_duplicates();
    order.lemma_multiset_has_no_duplicates_conv();
}

/// Where a child of a scanned folder comes from: the entry at some place
/// of the name order, whose result it is.
proof fn lemma_child_origin(contents: Option<Vec<ScanEntry>>, c: TreeNodeView) -> (k: int)
    requires
        contents is Some,
        present_nodes(scan_results(contents)).contains(c),
    ensures
        0 <= k < name_order(contents->0@).len(),
        name_order(contents->0@)[k] < contents->0@.len(),
        ({
            let e = contents->0@[name_order(contents->0@)[k] as int];
            entry_result(e, scan_view(Some(e.name@), e.path@, e.contents)) == Some(c)
        }),
{
    let rs = scan_results(contents);
    let v = contents->0;
    let order = name_order(v@);
    assert(v@.len() == v.len());
    lemma_name_order(v@);
    rs.lemma_filter_map_contains(|o: Option<TreeNodeView>| o, c);
    let t = choose|t: Option<TreeNodeView>| #[trigger] rs.contains(t) && t == Some(c);
    let k = choose|k: int| 0 <= k < rs.len() && rs[k] == t;
    let e = v@[order[k] as int];
    assert(rs[k] == entry_result(e, scan_view(Some(e.name@), e.path@, e.contents)));
    k
}

/// The places of what is present in `s`: `ks[i]` is where the `i`-th
/// present node stands, in increasing order, and every place holding a node
/// is among them.
pub open spec fn present_places(s: Seq<Option<TreeNodeView>>, ks: Seq<int>) -> bool {
    &&& ks.len() == present_nodes(s).len()
    &&& forall|i: int, j: int| 0 <= i < j < ks.len() ==> ks[i] < ks[j]
    &&& forall|i: int|
        0 <= i < ks.len() ==> 0 <= #[trigger] ks[i] < s.len() && s[ks[i]] == Some(
            present_nodes(s)[i],
        )
    &&& forall|k: int| 0 <= k < s.len() && #[trigger] s[k] is Some ==> exists|i: int| 0 <= i < ks.len() && ks[i] == k
}

proof fn lemma_present_places(s: Seq<Option<TreeNodeView>>) -> (ks: Seq<int>)
    ensures
        present_places(s, ks),
    decreases s.len(),
{
    if s.len() == 0 {
        assert(present_nodes(s) =~= Seq::<TreeNodeView>::empty());
        Seq::empty()
    } else {
        let t = s.drop_last();
        let kt = lemma_present_places(t);
        let n = s.len() - 1;
        assert forall|k: int| 0 <= k < t.len() implies t[k] == s[k] by {}
        match s.last() {
            Some(v) => {
                assert(present_nodes(s) == present_nodes(t) + seq![v]);
                let ks = kt.push(n);
                assert forall|k: int| 0 <= k < s.len() && #[trigger] s[k] is Some implies exists|i: int|
                    0 <= i < ks.len() && ks[i] == k by {
                    if k < n {
                        assert(t[k] is Some);
                        let i = choose|i: int| 0 <= i < kt.len() && kt[i] == k;
                        assert(ks[i] == k);
                    } else {
                        assert(ks[kt.len() as int] == k);
                    }
                }
                assert forall|i: int| 0 <= i < ks.len() implies 0 <= #[trigger] ks[i] < s.len()
                    && s[ks[i]] == Some(present_nodes(s)[i]) by {
                    if i < kt.len() {
                        assert(ks[i] == kt[i]);
                        assert(present_nodes(s)[i] == present_nodes(t)[i]);
                    }
                }
                ks
            },
            None => {
                assert(present_nodes(s) == present_nodes(t));
                assert forall|k: int| 0 <= k < s.len() && #[trigger] s[k] is Some implies exists|i: int|
                    0 <= i < kt.len() && kt[i] == k by {
                    assert(t[k] is Some);
                }
                kt
            },
        }
    }
}

/// Law: the children of a scanned folder follow the stable order of the OS
/// names of the listing, and each entry that adds to the tree (a PDF file,
/// or a folder that is not hidden with a PDF below it) gives exactly one
/// child: the places `ks` of the children in the name order increase, the
/// OS names along them never go down, and no entry stands behind two
/// children.
pub proof fn lemma_children_in_name_order(v: Vec<ScanEntry>)
    ensures
        exists|ks: Seq<int>|
            {
                &&& #[trigger] present_places(scan_results(Some(v)), ks)
                &&& forall|i: int, j: int|
                    0 <= i < j < ks.len() ==> !bytes_lt(
                        v@[name_order(v@)[ks[j]] as int].os_name@,
                        v@[name_order(v@)[ks[i]] as int].os_name@,
                    ) && name_order(v@)[ks[i]] != name_order(v@)[ks[j]]
                &&& forall|m: int|
                    0 <= m < v@.len() && (#[trigger] entry_result(
                        v@[m],
                        scan_view(Some(v@[m].name@), v@[m].path@, v@[m].contents),
                    )) is Some ==> exists|i: int| 0 <= i < ks.len() && name_order(v@)[ks[i]] == m
            },
{
    let rs = scan_results(Some(v));
    let order = name_order(v@);
    assert(v@.len() == v.len());
    lemma_name_order(v@);
    let ks = lemma_present_places(rs);
    assert forall|i: int, j: int| 0 <= i < j < ks.len() implies !bytes_lt(
        v@[order[ks[j]] as int].os_name@,
        v@[order[ks[i]] as int].os_name@,
    ) && order[ks[i]] != order[ks[j]] by {
        assert(0 <= ks[i] < rs.len() && 0 <= ks[j] < rs.len());
        assert(ks[i] < ks[j]);
        assert(order.no_duplicates());
    }
    assert forall|m: int|
        0 <= m < v@.len() && (#[trigger] entry_result(
            v@[m],
            scan_view(Some(v@[m].name@), v@[m].path@, v@[m].contents),
        )) is Some implies exists|i: int| 0 <= i < ks.len() && order[ks[i]] == m by {
        assert(order.contains(m as usize));
        let k = choose|k: int| 0 <= k < order.len() && order[k] == m as usize;
        assert(rs[k] is Some);
        let i = choose|i: int| 0 <= i < ks.len() && ks[i] == k;
    }
}

/// Law: a folder entry whose name does not start with `.` and that holds a
/// PDF (its own scan gives a tree) is among the children of the scanned
/// folder, as that tree; only names starting with `.` are hidden.
pub proof fn lemma_visible_folder_listed(name: Seq<char>, path: Seq<char>, v: Vec<ScanEntry>, m: int)
    requires
        0 <= m < v@.len(),
        v@[m].is_dir,
        !(v@[m].name@.len() > 0 && v@[m].name@[0] == '.'),
        scan_view(Some(v@[m].name@), v@[m].path@, v@[m].contents) is Some,
    ensures
        scan_view(Some(name), path, Some(v)) matches Some(t) && t.children matches Some(ch)
            && ch.contains(scan_view(Some(v@[m].name@), v@[m].path@, v@[m].contents)->0),
{
    let rs = scan_results(Some(v));
    let order = name_order(v@);
    let sub = scan_view(Some(v@[m].name@), v@[m].path@, v@[m].contents);
    assert(entry_result(v@[m], sub) == sub);
    lemma_children_in_name_order(v);
    let ks = choose|ks: Seq<int>|
        {
            &&& #[trigger] present_places(rs, ks)
            &&& forall|i: int, j: int|
                0 <= i < j < ks.len() ==> !bytes_lt(
                    v@[order[ks[j]] as int].os_name@,
                    v@[order[ks[i]] as int].os_name@,
                ) && order[ks[i]] != order[ks[j]]
            &&& forall|m: int|
                0 <= m < v@.len() && (#[trigger] entry_result(
                    v@[m],
                    scan_view(Some(v@[m].name@), v@[m].path@, v@[m].contents),
                )) is Some ==> exists|i: int| 0 <= i < ks.len() && order[ks[i]] == m
        };
    let i = choose|i: int| 0 <= i < ks.len() && order[ks[i]] == m;
    let ch = present_nodes(rs);
    assert(0 <= ks[i] < rs.len());
    assert(rs[ks[i]] == Some(ch[i]));
    assert(v@.len() == v.len());
    lemma_name_order(v@);
    assert(rs[ks[i]] == entry_result(v@[m], sub));
    assert(ch.contains(sub->0));
}

/// Law: a scan gives a tree exactly when the directory has a file name and
/// a PDF lies in it or below it, outside hidden folders and folders that
/// could not be read.
pub proof fn lemma_scan_finds_visible_pdf(
    name: Option<Seq<char>>,
    path: Seq<char>,
    contents: Option<Vec<ScanEntry>>,
)
    ensures
        scan_view(name, path, contents) is Some <==> (name is Some && has_visible_pdf(contents)),
    decreases contents,
{
    let rs = scan_results(contents);
    lemma_present_nonempty(rs);
    if contents is Some {
        let v = contents->0;
        let order = name_order(v@);
        let flags = visible_flags(contents);
        assert(v@.len() == v.len());
        lemma_name_order(v@);
        assert forall|k: int| 0 <= k < rs.len() implies (#[trigger] rs[k] is Some) == flags[order[k] as int] by {
            let e = v@[order[k] as int];
            assert(rs[k] == entry_result(e, scan_view(Some(e.name@), e.path@, e.contents)));
            assert(decreases_to!(contents => v));
            assert(decreases_to!(v => v@));
            assert(decreases_to!(v@ => v@[order[k] as int]));
            assert(decreases_to!(v@[order[k] as int] => v@[order[k] as int].contents));
            lemma_scan_finds_visible_pdf(Some(e.name@), e.path@, e.contents);
        }
        if flags.contains(true) {
            let i = choose|i: int| 0 <= i < flags.len() && flags[i] == true;
            assert(order.contains(i as usize));
            let k = choose|k: int| 0 <= k < order.len() && order[k] == i as usize;
            assert(rs[k] is Some);
        }
        if exists|k: int| 0 <= k < rs.len() && #[trigger] rs[k] is Some {
            let k = choose|k: int| 0 <= k < rs.len() && #[trigger] rs[k] is Some;
            assert(flags[order[k] as int]);
            assert(flags.contains(true));
        }
    }
}

/// Law: every tree a scan gives is well formed: folders have a non-empty
/// list of children, leaves have none and are named like a PDF file.
pub proof fn lemma_scan_well_formed(name: Option<Seq<char>>, path: Seq<char>, contents: Option<Vec<ScanEntry>>)
    requires
        scan_view(name, path, contents) is Some,
    ensures
        pdf_tree_wf(scan_view(name, path, contents)->0),
    decreases contents,
{
    let children = present_nodes(scan_results(contents));
    let v = contents->0;
    let order = name_order(v@);
    assert forall|i: int| 0 <= i < children.len() implies pdf_tree_wf(#[trigger] children[i]) by {
        let c = children[i];
        assert(children.contains(c));
        let k = lemma_child_origin(contents, c);
        let e = v@[order[k] as int];
        if e.is_dir {
            assert(decreases_to!(contents => v));
            assert(decreases_to!(v => v@));
            assert(decreases_to!(v@ => v@[order[k] as int]));
            assert(decreases_to!(v@[order[k] as int] => v@[order[k] as int].contents));
            lemma_scan_well_formed(Some(e.name@), e.path@, e.contents);
        }
    }
}

/// Law: no folder listed in a scanned tree is hidden: the folders among
/// the children of a scanned folder never have a name starting with `.`.
pub proof fn lemma_no_hidden_folders(
    name: Option<Seq<char>>,
    path: Seq<char>,
    contents: Option<Vec<ScanEntry>>,
    c: TreeNodeView,
)
    requires
        scan_view(name, path, contents) matches Some(t) && t.children matches Some(ch) && ch.contains(c),
        c.is_folder,
    ensures
        !(c.name.len() > 0 && c.name[0] == '.'),
{
    lemma_child_origin(contents, c);
}

} // verus!
