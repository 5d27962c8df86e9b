//! The folder tree shown in the sidebar: which folders and PDF files of a
//! directory are listed, and in what order.
//!
//! Reading the file system is the caller's part: it hands over a
//! [`DirEntryInfo`] tree, the listing as the file system gave it, and this
//! module decides what of it becomes a [`FileNode`].
use crate::names::{has_pdf_extension, is_pdf_file_name};
use crate::order::{
    bytes_lt, bytes_less, is_insert_point, lemma_insert_at, lemma_sort_by_permutes,
    lemma_sort_by_sorted, sort_by, sorted_by,
};
use std::path::PathBuf;
use vstd::prelude::*;
use vstd::utf8::encode_utf8;

verus! {

broadcast use vstd::seq_lib::group_seq_properties;

#[verifier::external_type_specification]
#[verifier::external_body]
pub struct ExPathBuf(PathBuf);

/// `PathBuf::clone` gives a copy of the same path.
pub assume_specification[ <PathBuf as Clone>::clone ](p: &PathBuf) -> (r: PathBuf)
    ensures
        r == *p,
;

/// `PathBuf::new`: an empty path.  The type is opaque here, so what the new
/// path holds is left unsaid; the call is only known not to panic.
pub assume_specification[ PathBuf::new ]() -> PathBuf;

/// An entry of a directory listing, as the file system gave it.
pub struct DirEntryInfo {
    /// The file name, decoded lossily (`to_string_lossy`).
    pub name: String,
    /// The file name as the operating system encodes it.
    pub os_name: Vec<u8>,
    /// The full path of the entry.
    pub path: PathBuf,
    /// Whether the path is a directory (following symbolic links).
    pub is_dir: bool,
    /// For a directory, its entries in the order the listing gave them, or
    /// `None` when it could not be read.  Not looked at for files.
    pub contents: Option<Vec<DirEntryInfo>>,
}

/// A node of the folder tree.
#[derive(Debug)]
pub struct FileNode {
    pub name: String,
    pub path: PathBuf,
    pub is_dir: bool,
    pub children: Vec<FileNode>,
    pub is_expanded: bool,
    pub contains_pdf: bool,
}

/// The mathematical value of a [`FileNode`].
pub struct FileNodeView {
    pub name: Seq<char>,
    pub path: PathBuf,
    pub is_dir: bool,
    pub children: Seq<FileNodeView>,
    pub is_expanded: bool,
    pub contains_pdf: bool,
}

impl FileNode {
    pub open spec fn view_of(self) -> FileNodeView
        decreases self,
    {
        FileNodeView {
            name: self.name@,
            path: self.path,
            is_dir: self.is_dir,
            children: Seq::new(
                self.children@.len(),
                |i: int|
                    if 0 <= i < self.children@.len() {
                        self.children@[i].view_of()
                    } else {
                        empty_view()
                    },
            ),
            is_expanded: self.is_expanded,
            contains_pdf: self.contains_pdf,
        }
    }
}

impl View for FileNode {
    type V = FileNodeView;

    open spec fn view(&self) -> FileNodeView {
        self.view_of()
    }
}

/// A copy of a node and all below it.
pub fn clone_node(n: &FileNode) -> (r: FileNode)
    ensures
        r@ == n@,
    decreases n,
{
    let mut children: Vec<FileNode> = Vec::new();
    let mut i: usize = 0;
    while i < n.children.len()
        invariant
            i <= n.children@.len(),
            children@.len() == i,
            forall|k: int| 0 <= k < i ==> #[trigger] children@[k]@ == n.children@[k]@,
        decreases n.children@.len() - i,
    {
        let c = clone_node(&n.children[i]);
        children.push(c);
        i = i + 1;
    }
    let r = FileNode {
        name: n.name.clone(),
        path: n.path.clone(),
        is_dir: n.is_dir,
        children,
        is_expanded: n.is_expanded,
        contains_pdf: n.contains_pdf,
    };
    assert(r@.children =~= n@.children) by {
        assert(r.children@.len() == n.children@.len());
        assert forall|k: int| 0 <= k < r.children@.len() implies r@.children[k] == n@.children[k] by {
            assert(r.children@[k]@ == n.children@[k]@);
        }
    }
    r
}

impl Clone for FileNode {
    fn clone(&self) -> (r: Self)
        ensures
            r@ == self@,
    {
        clone_node(self)
    }
}

impl Default for FileNode {
    /// A file node with no name, an empty path, no children and every flag
    /// off.
    fn default() -> (r: Self)
        ensures
            r.name@ == Seq::<char>::empty(),
            !r.is_dir,
            r.children@ == Seq::<FileNode>::empty(),
            !r.is_expanded,
            !r.contains_pdf,
    {
        FileNode {
            name: String::new(),
            path: PathBuf::new(),
            is_dir: false,
            children: Vec::new(),
            is_expanded: false,
            contains_pdf: false,
        }
    }
}

/// A placeholder value, never part of a tree.
pub open spec fn empty_view() -> FileNodeView {
    FileNodeView {
        name: Seq::empty(),
        path: arbitrary(),
        is_dir: false,
        children: Seq::empty(),
        is_expanded: false,
        contains_pdf: false,
    }
}

/// The values of a sequence of nodes.
pub open spec fn views(s: Seq<FileNode>) -> Seq<FileNodeView> {
    Seq::new(s.len(), |i: int| s[i]@)
}

/// The order of the children of a folder: folders before files, each group
/// by name, compared as UTF-8 bytes (`String::cmp`).  As one byte string:
/// a leading 0 for a folder or 1 for a file, then the name.
pub open spec fn node_key(is_dir: bool, name: Seq<char>) -> Seq<u8> {
    seq![if is_dir { 0u8 } else { 1u8 }] + encode_utf8(name)
}

/// The sort key of a node value.
pub open spec fn view_key() -> spec_fn(FileNodeView) -> Seq<u8> {
    |v: FileNodeView| node_key(v.is_dir, v.name)
}

/// The node listed for a PDF file.
pub open spec fn pdf_file_view(e: DirEntryInfo) -> FileNodeView {
    FileNodeView {
        name: e.name@,
        path: e.path,
        is_dir: false,
        children: Seq::empty(),
        is_expanded: false,
        contains_pdf: true,
    }
}

/// What an entry adds to the children of its folder, given the folder node
/// `sub` built from it when it is a directory: that folder, when it holds a
/// PDF or all folders are shown; a file node for a PDF file; else nothing.
pub open spec fn contribution(e: DirEntryInfo, sub: FileNodeView, show_all_folders: bool) -> Option<
    FileNodeView,
> {
    if e.is_dir {
        if show_all_folders || sub.contains_pdf {
            Some(sub)
        } else {
            None
        }
    } else if is_pdf_file_name(e.os_name@) {
        Some(pdf_file_view(e))
    } else {
        None
    }
}

/// The entries of a listing; none when it could not be read.
pub open spec fn listing(contents: Option<Vec<DirEntryInfo>>) -> Seq<DirEntryInfo> {
    match contents {
        Some(v) => v@,
        None => Seq::empty(),
    }
}

/// What each entry of the directory `e` adds, in listing order.
pub open spec fn contributions(e: DirEntryInfo, show_all_folders: bool) -> Seq<Option<FileNodeView>>
    decreases e, 0nat,
{
    match e.contents {
        Some(v) => Seq::new(
            v@.len(),
            |i: int|
                if 0 <= i < v@.len() {
                    contribution(v@[i], scan_dir_view(v@[i], show_all_folders), show_all_folders)
                } else {
                    None
                },
        ),
        None => Seq::empty(),
    }
}

/// Keeps what is there.
pub open spec fn present(s: Seq<Option<FileNodeView>>) -> Seq<FileNodeView> {
    s.filter_map(|o: Option<FileNodeView>| o)
}

/// Some node of `s` contains a PDF.
pub open spec fn any_contains_pdf(s: Seq<FileNodeView>) -> bool
    decreases s.len(),
{
    s.len() > 0 && (any_contains_pdf(s.drop_last()) || s.last().contains_pdf)
}

/// Some node of `s` is a file.
pub open spec fn any_file(s: Seq<FileNodeView>) -> bool
    decreases s.len(),
{
    s.len() > 0 && (any_file(s.drop_last()) || !s.last().is_dir)
}

/// The folder node of a directory below the root: its PDF files and the
/// folders that hold a PDF (or all folders, when they are all shown),
/// sorted folders first and then by name; it contains a PDF when one of
/// those children does; it starts collapsed.
pub open spec fn scan_dir_view(e: DirEntryInfo, show_all_folders: bool) -> FileNodeView
    decreases e, 1nat,
{
    let kept = present(contributions(e, show_all_folders));
    FileNodeView {
        name: e.name@,
        path: e.path,
        is_dir: true,
        children: sort_by(kept, view_key()),
        is_expanded: false,
        contains_pdf: any_contains_pdf(kept),
    }
}

/// The root node of the tree: like a folder below it, but expanded, and it
/// counts as containing a PDF only when a PDF file lies directly in it.
pub open spec fn root_view(root: DirEntryInfo, show_all_folders: bool) -> FileNodeView {
    let kept = present(contributions(root, show_all_folders));
    FileNodeView {
        name: root.name@,
        path: root.path,
        is_dir: true,
        children: sort_by(kept, view_key()),
        is_expanded: true,
        contains_pdf: any_file(kept),
    }
}

proof fn lemma_views_push(s: Seq<FileNode>, x: FileNode)
    ensures
        views(s.push(x)) == views(s).push(x@),
{
    assert(views(s.push(x)) =~= views(s).push(x@));
}

/// Whether `a` goes behind `b` in the order of children.
fn node_less(a: &FileNode, b: &FileNode) -> (r: bool)
    ensures
        r == bytes_lt(node_key(a.is_dir, a.name@), node_key(b.is_dir, b.name@)),
{
    let ghost ka = seq![if a.is_dir { 0u8 } else { 1u8 }];
    let ghost kb = seq![if b.is_dir { 0u8 } else { 1u8 }];
    if a.is_dir != b.is_dir {
        assert((ka + encode_utf8(a.name@))[0] == ka[0]);
        assert((kb + encode_utf8(b.name@))[0] == kb[0]);
        a.is_dir
    } else {
        let r = bytes_less(a.name.as_str().as_bytes(), b.name.as_str().as_bytes());
        assert((ka + encode_utf8(a.name@)).drop_first() =~= encode_utf8(a.name@));
        assert((kb + encode_utf8(b.name@)).drop_first() =~= encode_utf8(b.name@));
        r
    }
}

/// Sorts nodes folders first, then by name, keeping the order of equal
/// keys (`sort_by` on `(is_dir desc, name)`).
pub fn sort_file_nodes(v: Vec<FileNode>) -> (r: Vec<FileNode>)
    ensures
        views(r@) == sort_by(views(v@), view_key()),
{
    let ghost v0 = v@;
    let mut rest = v;
    let mut result: Vec<FileNode> = Vec::new();
    let ghost mut done: Seq<FileNode> = Seq::empty();
    while rest.len() > 0
        invariant
            v0 == done + rest@,
            views(result@) == sort_by(views(done), view_key()),
        decreases rest@.len(),
    {
        let x = rest.remove(0);
        let mut j = result.len();
        while j > 0 && node_less(&x, &result[j - 1])
            invariant
                j <= result@.len(),
                forall|m: int|
                    j <= m < result@.len() ==> bytes_lt(
                        node_key(x.is_dir, x.name@),
                        #[trigger] node_key(result@[m].is_dir, result@[m].name@),
                    ),
            decreases j,
        {
            j = j - 1;
        }
        proof {
            let vs = views(result@);
            assert(is_insert_point(vs, x@, view_key(), j as int)) by {
                assert forall|m: int| j <= m < vs.len() implies bytes_lt(
                    view_key()(x@),
                    #[trigger] view_key()(vs[m]),
                ) by {
                    assert(vs[m] == result@[m]@);
                }
                if j > 0 {
                    assert(vs[j - 1] == result@[j - 1]@);
                }
            }
            lemma_insert_at(vs, x@, view_key(), j as int);
            assert(views(done.push(x)).drop_last() =~= views(done));
            assert(views(done.push(x)).last() == x@);
            assert(v0 == done.push(x) + rest@) by {
                assert(done + seq![x] + rest@ =~= done.push(x) + rest@);
            }
        }
        let ghost old_result = result@;
        result.insert(j, x);
        proof {
            assert(views(result@) =~= views(old_result).insert(j as int, x@));
            done = done.push(x);
        }
    }
    assert(done =~= v0);
    result
}


/// The nodes that the entries of directory `e` add, in listing order, and
/// whether one of them contains a PDF and whether one of them is a file.
fn collect_children(e: &DirEntryInfo, show_all_folders: bool) -> (r: (Vec<FileNode>, bool, bool))
    ensures
        views(r.0@) == present(contributions(*e, show_all_folders)),
        r.1 == any_contains_pdf(present(contributions(*e, show_all_folders))),
        r.2 == any_file(present(contributions(*e, show_all_folders))),
    decreases e, 0nat,
{
    let mut children: Vec<FileNode> = Vec::new();
    let mut found_pdf = false;
    let mut found_file = false;
    let ghost all = contributions(*e, show_all_folders);
    match &e.contents {
        Some(entries) => {
            let mut i: usize = 0;
            assert(all.take(0) =~= Seq::<Option<FileNodeView>>::empty());
            while i < entries.len()
                invariant
                    all == contributions(*e, show_all_folders),
                    e.contents == Some(*entries),
                    all.len() == entries@.len(),
                    i <= entries@.len(),
                    views(children@) == present(all.take(i as int)),
                    found_pdf == any_contains_pdf(present(all.take(i as int))),
                    found_file == any_file(present(all.take(i as int))),
                decreases entries@.len() - i,
            {
                let entry = &entries[i];
                let ghost before = present(all.take(i as int));
                proof {
                    all.lemma_filter_map_take_succ(|o: Option<FileNodeView>| o, i as int);
                    assert(all[i as int] == contribution(
                        entries@[i as int],
                        scan_dir_view(entries@[i as int], show_all_folders),
                        show_all_folders,
                    ));
                }
                if entry.is_dir {
                    let child = scan_dir(entry, show_all_folders);
                    if show_all_folders || child.contains_pdf {
                        proof {
                            lemma_views_push(children@, child);
                            assert(before + seq![child@] =~= before.push(child@));
                            assert(before.push(child@).drop_last() =~= before);
                        }
                        if child.contains_pdf {
                            found_pdf = true;
                        }
                        children.push(child);
                    }
                } else if has_pdf_extension(entry.os_name.as_slice()) {
                    let node = FileNode {
                        name: entry.name.clone(),
                        path: entry.path.clone(),
                        is_dir: false,
                        children: Vec::new(),
                        is_expanded: false,
                        contains_pdf: true,
                    };
                    proof {
                        assert(node@.children =~= Seq::<FileNodeView>::empty());
                        assert(node@ == pdf_file_view(*entry));
                        lemma_views_push(children@, node);
                        assert(before + seq![node@] =~= before.push(node@));
                        assert(before.push(node@).drop_last() =~= before);
                    }
                    children.push(node);
                    found_pdf = true;
                    found_file = true;
                }
                proof {
                    assert(before + Seq::<FileNodeView>::empty() =~= before);
                }
                i = i + 1;
            }
            assert(all.take(entries@.len() as int) =~= all);
        },
        None => {
            assert(all =~= Seq::<Option<FileNodeView>>::empty());
            assert(present(all) =~= Seq::<FileNodeView>::empty());
            assert(views(children@) =~= Seq::<FileNodeView>::empty());
        },
    }
    (children, found_pdf, found_file)
}

/// Builds the folder node of a directory below the root.
pub fn scan_dir(e: &DirEntryInfo, show_all_folders: bool) -> (n: FileNode)
    ensures
        n@ == scan_dir_view(*e, show_all_folders),
    decreases e, 1nat,
{
    let (children, found_pdf, _found_file) = collect_children(e, show_all_folders);
    let children = sort_file_nodes(children);
    let n = FileNode {
        name: e.name.clone(),
        path: e.path.clone(),
        is_dir: true,
        children,
        is_expanded: false,
        contains_pdf: found_pdf,
    };
    assert(n@.children =~= views(n.children@));
    n
}

/// Builds the folder tree of a directory: one expanded root node whose
/// children are the PDF files in it and the folders below it that hold a
/// PDF (all of them, with `show_all_folders`), folders first, then by name.
pub fn build_file_tree(root: &DirEntryInfo, show_all_folders: bool) -> (r: Vec<FileNode>)
    ensures
        r@.len() == 1,
        r@[0]@ == root_view(*root, show_all_folders),
{
    let (children, _found_pdf, found_file) = collect_children(root, show_all_folders);
    let children = sort_file_nodes(children);
    let n = FileNode {
        name: root.name.clone(),
        path: root.path.clone(),
        is_dir: true,
        children,
        is_expanded: true,
        contains_pdf: found_file,
    };
    assert(n@.children =~= views(n.children@));
    let mut r: Vec<FileNode> = Vec::new();
    r.push(n);
    r
}


/// Whether a PDF file lies in the directory `e` or anywhere below it.
pub open spec fn has_pdf_below(e: DirEntryInfo) -> bool
    decreases e, 1nat,
{
    pdf_flags(e).contains(true)
}

/// For each entry of the directory `e`: whether it is a PDF file, or a
/// directory with a PDF file in or below it.
pub open spec fn pdf_flags(e: DirEntryInfo) -> Seq<bool>
    decreases e, 0nat,
{
    match e.contents {
        Some(v) => Seq::new(
            v@.len(),
            |i: int|
                if 0 <= i < v@.len() {
                    if v@[i].is_dir {
                        has_pdf_below(v@[i])
                    } else {
                        is_pdf_file_name(v@[i].os_name@)
                    }
                } else {
                    false
                },
        ),
        None => Seq::empty(),
    }
}

/// An entry adds a node that contains a PDF.
pub open spec fn adds_pdf_holder(o: Option<FileNodeView>) -> bool {
    o matches Some(v) && v.contains_pdf
}

proof fn lemma_any_present(s: Seq<Option<FileNodeView>>)
    ensures
        any_contains_pdf(present(s)) == exists|i: int| 0 <= i < s.len() && #[trigger] adds_pdf_holder(s[i]),
    decreases s.len(),
{
    if s.len() > 0 {
        let t = s.drop_last();
        lemma_any_present(t);
        let p = present(t);
        match s.last() {
            Some(v) => {
                assert(present(s) == p + seq![v]);
                assert((p + seq![v]).drop_last() =~= p);
                assert(any_contains_pdf(present(s)) == (any_contains_pdf(p) || v.contains_pdf));
                assert(adds_pdf_holder(s[s.len() - 1]) == v.contains_pdf);
            },
            None => {
                assert(present(s) == p);
                assert(!adds_pdf_holder(s[s.len() - 1]));
            },
        }
        if exists|i: int| 0 <= i < s.len() && #[trigger] adds_pdf_holder(s[i]) {
            let i = choose|i: int| 0 <= i < s.len() && #[trigger] adds_pdf_holder(s[i]);
            if i < t.len() {
                assert(adds_pdf_holder(t[i]));
            }
        }
        if exists|i: int| 0 <= i < t.len() && #[trigger] adds_pdf_holder(t[i]) {
            let i = choose|i: int| 0 <= i < t.len() && #[trigger] adds_pdf_holder(t[i]);
            assert(adds_pdf_holder(s[i]));
        }
    } else {
        assert(present(s) =~= Seq::<FileNodeView>::empty());
    }
}

/// Law: a folder below the root is marked as containing a PDF exactly when
/// a PDF file lies in it or anywhere below it, whether or not all folders
/// are shown.
pub proof fn lemma_contains_pdf_iff_pdf_below(e: DirEntryInfo, show_all_folders: bool)
    ensures
        scan_dir_view(e, show_all_folders).contains_pdf == has_pdf_below(e),
    decreases e,
{
    let cs = contributions(e, show_all_folders);
    let flags = pdf_flags(e);
    lemma_any_present(cs);
    assert(cs.len() == flags.len());
    assert forall|i: int| 0 <= i < cs.len() implies #[trigger] adds_pdf_holder(cs[i]) == flags[i] by {
        let v = e.contents->0;
        let x = v@[i];
        assert(cs[i] == contribution(x, scan_dir_view(x, show_all_folders), show_all_folders));
        assert(flags[i] == if x.is_dir {
            has_pdf_below(x)
        } else {
            is_pdf_file_name(x.os_name@)
        });
        if x.is_dir {
            assert(decreases_to!(e => e.contents));
            assert(decreases_to!(e.contents => v));
            assert(decreases_to!(v => v@));
            assert(decreases_to!(v@ => v@[i]));
            lemma_contains_pdf_iff_pdf_below(x, show_all_folders);
        }
    }
    if has_pdf_below(e) {
        let i = choose|i: int| 0 <= i < flags.len() && flags[i] == true;
        assert(adds_pdf_holder(cs[i]));
    }
    if exists|i: int| 0 <= i < cs.len() && #[trigger] adds_pdf_holder(cs[i]) {
        let i = choose|i: int| 0 <= i < cs.len() && #[trigger] adds_pdf_holder(cs[i]);
        assert(flags[i]);
        assert(flags.contains(true));
    }
}

/// Law: the children of every folder, the root included, are sorted:
/// folders before files, each group by name.
pub proof fn lemma_children_sorted(e: DirEntryInfo, show_all_folders: bool)
    ensures
        sorted_by(scan_dir_view(e, show_all_folders).children, view_key()),
        sorted_by(root_view(e, show_all_folders).children, view_key()),
{
    lemma_sort_by_sorted(present(contributions(e, show_all_folders)), view_key());
}

proof fn lemma_key_order(di: bool, ni: Seq<char>, dj: bool, nj: Seq<char>)
    requires
        !bytes_lt(node_key(dj, nj), node_key(di, ni)),
    ensures
        di || !dj,
        di == dj ==> !bytes_lt(encode_utf8(nj), encode_utf8(ni)),
{
    let ki = node_key(di, ni);
    let kj = node_key(dj, nj);
    assert(ki[0] == (if di { 0u8 } else { 1u8 }));
    assert(kj[0] == (if dj { 0u8 } else { 1u8 }));
    if di == dj {
        assert(ki.drop_first() =~= encode_utf8(ni));
        assert(kj.drop_first() =~= encode_utf8(nj));
    }
}

/// Every folder comes before every file, and among folders, as among
/// files, the UTF-8 bytes of the names never go down.
pub open spec fn folders_first_by_name(c: Seq<FileNodeView>) -> bool {
    forall|i: int, j: int|
        #![trigger c[i], c[j]]
        0 <= i < j < c.len() ==> (c[i].is_dir || !c[j].is_dir) && (c[i].is_dir == c[j].is_dir
            ==> !bytes_lt(encode_utf8(c[j].name), encode_utf8(c[i].name)))
}

/// Law: the children of every folder, the root included, come in the order
/// of `(is_dir desc, name)`: folders before files, each group by the bytes
/// of the whole name.
pub proof fn lemma_children_folders_first_by_name(e: DirEntryInfo, show_all_folders: bool)
    ensures
        folders_first_by_name(scan_dir_view(e, show_all_folders).children),
        folders_first_by_name(root_view(e, show_all_folders).children),
{
    lemma_children_sorted(e, show_all_folders);
    let c = scan_dir_view(e, show_all_folders).children;
    assert forall|i: int, j: int| 0 <= i < j < c.len() implies (c[i].is_dir || !c[j].is_dir) && (
    c[i].is_dir == c[j].is_dir ==> !bytes_lt(encode_utf8(c[j].name), encode_utf8(c[i].name))) by {
        assert(!bytes_lt(view_key()(c[j]), view_key()(c[i])));
        lemma_key_order(c[i].is_dir, c[i].name, c[j].is_dir, c[j].name);
    }
    let r = root_view(e, show_all_folders).children;
    assert forall|i: int, j: int| 0 <= i < j < r.len() implies (r[i].is_dir || !r[j].is_dir) && (
    r[i].is_dir == r[j].is_dir ==> !bytes_lt(encode_utf8(r[j].name), encode_utf8(r[i].name))) by {
        assert(!bytes_lt(view_key()(r[j]), view_key()(r[i])));
        lemma_key_order(r[i].is_dir, r[i].name, r[j].is_dir, r[j].name);
    }
}

/// Law: the children of a folder are what its entries add, each as often
/// as it is added, only reordered.
pub proof fn lemma_children_are_contributions(e: DirEntryInfo, show_all_folders: bool)
    ensures
        scan_dir_view(e, show_all_folders).children.to_multiset() == present(
            contributions(e, show_all_folders),
        ).to_multiset(),
        root_view(e, show_all_folders).children.to_multiset() == present(
            contributions(e, show_all_folders),
        ).to_multiset(),
{
    lemma_sort_by_permutes(present(contributions(e, show_all_folders)), view_key());
}

/// Where a child of a folder comes from: the entry of the folder's listing
/// at the returned position, a PDF file or a directory scanned in turn.
proof fn lemma_child_origin(e: DirEntryInfo, show_all_folders: bool, c: FileNodeView) -> (i: int)
    requires
        scan_dir_view(e, show_all_folders).children.contains(c) || root_view(
            e,
            show_all_folders,
        ).children.contains(c),
    ensures
        e.contents is Some,
        0 <= i < e.contents->0@.len(),
        ({
            let x = e.contents->0@[i];
            if x.is_dir {
                &&& c == scan_dir_view(x, show_all_folders)
                &&& (show_all_folders || c.contains_pdf)
            } else {
                &&& is_pdf_file_name(x.os_name@)
                &&& c == pdf_file_view(x)
            }
        }),
{
    let cs = contributions(e, show_all_folders);
    let kept = present(cs);
    let sorted = sort_by(kept, view_key());
    lemma_sort_by_permutes(kept, view_key());
    sorted.to_multiset_ensures();
    kept.to_multiset_ensures();
    assert(scan_dir_view(e, show_all_folders).children == sorted);
    assert(root_view(e, show_all_folders).children == sorted);
    assert(sorted.to_multiset().count(c) > 0);
    assert(kept.to_multiset().count(c) > 0);
    assert(kept.contains(c));
    cs.lemma_filter_map_contains(|o: Option<FileNodeView>| o, c);
    let t = choose|t: Option<FileNodeView>| #[trigger] cs.contains(t) && t == Some(c);
    let i = choose|i: int| 0 <= i < cs.len() && cs[i] == t;
    let v = e.contents->0;
    let x = v@[i];
    assert(cs[i] == contribution(x, scan_dir_view(x, show_all_folders), show_all_folders));
    i
}

/// Law: unless all folders are shown, every child listed, in the root or
/// in a folder below it, contains a PDF: it is a PDF file or a folder with
/// one in or below it.
pub proof fn lemma_only_pdf_holders_listed(e: DirEntryInfo, c: FileNodeView)
    requires
        scan_dir_view(e, false).children.contains(c) || root_view(e, false).children.contains(c),
    ensures
        c.contains_pdf,
        !c.is_dir ==> c.children.len() == 0,
{
    lemma_child_origin(e, false, c);
}

/// Every node of a tree contains a PDF.
pub open spec fn every_node_holds_pdf(v: FileNodeView) -> bool
    decreases v,
{
    &&& v.contains_pdf
    &&& forall|i: int| 0 <= i < v.children.len() ==> every_node_holds_pdf(#[trigger] v.children[i])
}

proof fn lemma_subtree_holds_pdf(e: DirEntryInfo)
    requires
        scan_dir_view(e, false).contains_pdf,
    ensures
        every_node_holds_pdf(scan_dir_view(e, false)),
    decreases e,
{
    let n = scan_dir_view(e, false);
    assert forall|k: int| 0 <= k < n.children.len() implies every_node_holds_pdf(#[trigger] n.children[k]) by {
        let c = n.children[k];
        assert(n.children.contains(c));
        let i = lemma_child_origin(e, false, c);
        let v = e.contents->0;
        let x = v@[i];
        if x.is_dir {
            assert(decreases_to!(e => e.contents));
            assert(decreases_to!(e.contents => v));
            assert(decreases_to!(v => v@));
            assert(decreases_to!(v@ => v@[i]));
            lemma_subtree_holds_pdf(x);
        } else {
            assert(c.children.len() == 0);
        }
    }
}

/// Law: unless all folders are shown, the tree lists no folder without a
/// PDF: every node below the root, at any depth, contains a PDF.
pub proof fn lemma_tree_lists_only_pdf_holders(root: DirEntryInfo, c: FileNodeView)
    requires
        root_view(root, false).children.contains(c),
    ensures
        every_node_holds_pdf(c),
{
    let i = lemma_child_origin(root, false, c);
    let x = root.contents->0@[i];
    if x.is_dir {
        lemma_subtree_holds_pdf(x);
    } else {
        assert(c.children.len() == 0);
    }
}

} // verus!
