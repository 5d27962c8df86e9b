//! The table of contents as PDFium gives it: a tree of bookmarks, read in
//! document order, turned into a tree of [`TocItem`]s.
use crate::engine::{
    lemma_max_of_bounds, lemma_toc_views_push, max_of, no_toc_item, toc_views, TocItem, TocItemView,
};
use vstd::prelude::*;
use vstd::string::*;

verus! {

broadcast use vstd::seq_lib::group_seq_properties;

/// A bookmark as PDFium reports it.
pub struct BookmarkNode {
    /// Its title, when it has one.
    pub title: Option<String>,
    /// The page index of its destination, when it has a destination whose
    /// page index PDFium can tell.
    pub page_index: Option<i32>,
    /// Its direct children, in order.
    pub children: Vec<BookmarkNode>,
}


/// The number of levels of a bookmark tree.
pub open spec fn bookmark_depth(b: BookmarkNode) -> nat
    decreases b, 1nat,
{
    1 + max_of(child_depths(b))
}

/// The number of levels of each child of a bookmark.
pub open spec fn child_depths(b: BookmarkNode) -> Seq<nat>
    decreases b, 0nat,
{
    Seq::new(
        b.children@.len(),
        |i: int|
            if 0 <= i < b.children@.len() {
                bookmark_depth(b.children@[i])
            } else {
                0
            },
    )
}

/// The number of levels of a list of bookmark trees.
pub open spec fn bookmarks_depth(s: Seq<BookmarkNode>) -> nat {
    max_of(Seq::new(s.len(), |i: int| bookmark_depth(s[i])))
}

/// The title shown for a bookmark without one.
pub open spec fn untitled() -> Seq<char> {
    "无标题"@
}

/// The entry for a bookmark at nesting `level`: its title, or a placeholder
/// when it has none; its page index, or 0 when it has none; its children one
/// level deeper.
pub open spec fn bookmark_item(b: BookmarkNode, level: int) -> TocItemView
    decreases b,
{
    TocItemView {
        title: match b.title {
            Some(t) => t@,
            None => untitled(),
        },
        page_index: match b.page_index {
            Some(p) => #[verifier::truncate] (p as usize),
            None => 0,
        },
        children: Seq::new(
            b.children@.len(),
            |i: int|
                if 0 <= i < b.children@.len() {
                    bookmark_item(b.children@[i], level + 1)
                } else {
                    no_toc_item()
                },
        ),
        level: #[verifier::truncate] (level as usize),
    }
}

/// The entries for a list of bookmarks at nesting `level`.
pub open spec fn bookmark_items(s: Seq<BookmarkNode>, level: int) -> Seq<TocItemView> {
    Seq::new(s.len(), |i: int| bookmark_item(s[i], level))
}

/// The title a bookmark's entry shows.
pub open spec fn shown_title(b: BookmarkNode) -> Seq<char> {
    match b.title {
        Some(t) => t@,
        None => untitled(),
    }
}

/// Law: the entry of a bookmark, at any level, has one child per child
/// bookmark and in document order: the `i`-th child shows the `i`-th child
/// bookmark's title, leads to its page (0 when it has none), sits one level
/// deeper and has as many children as it has.
pub proof fn lemma_bookmark_children_in_order(b: BookmarkNode, level: int)
    requires
        0 <= level,
        level + 1 <= usize::MAX,
    ensures
        bookmark_item(b, level).children.len() == b.children@.len(),
        forall|i: int|
            #![trigger bookmark_item(b, level).children[i]]
            0 <= i < b.children@.len() ==> {
                let c = bookmark_item(b, level).children[i];
                &&& c.title == shown_title(b.children@[i])
                &&& c.page_index == match b.children@[i].page_index {
                    Some(p) => #[verifier::truncate] (p as usize),
                    None => 0,
                }
                &&& c.level == level + 1
                &&& c.children.len() == b.children@[i].children@.len()
            },
{
    assert forall|i: int|
        #![trigger bookmark_item(b, level).children[i]]
        0 <= i < b.children@.len() implies {
        let c = bookmark_item(b, level).children[i];
        &&& c.title == shown_title(b.children@[i])
        &&& c.page_index == match b.children@[i].page_index {
            Some(p) => #[verifier::truncate] (p as usize),
            None => 0,
        }
        &&& c.level == level + 1
        &&& c.children.len() == b.children@[i].children@.len()
    } by {
        let c = bookmark_item(b, level).children[i];
        assert(c == bookmark_item(b.children@[i], level + 1));
    }
}

/// Turns bookmarks into table-of-contents entries, keeping their order and
/// nesting.
pub fn parse_bookmarks(nodes: &Vec<BookmarkNode>, level: usize) -> (r: Vec<TocItem>)
    requires
        level + bookmarks_depth(nodes@) <= usize::MAX,
    ensures
        toc_views(r@) == bookmark_items(nodes@, level as int),
    decreases nodes,
{
    let mut items: Vec<TocItem> = Vec::new();
    let mut i: usize = 0;
    while i < nodes.len()
        invariant
            level + bookmarks_depth(nodes@) <= usize::MAX,
            i <= nodes@.len(),
            toc_views(items@) == bookmark_items(nodes@, level as int).take(i as int),
        decreases nodes@.len() - i,
    {
        let bm = &nodes[i];
        let ghost depths = Seq::new(bm.children@.len(), |k: int| bookmark_depth(bm.children@[k]));
        proof {
            let all = Seq::new(nodes@.len(), |k: int| bookmark_depth(nodes@[k]));
            lemma_max_of_bounds(all, i as int);
            assert(bookmarks_depth(bm.children@) == max_of(depths));
            assert(depths =~= child_depths(*bm));
            assert(decreases_to!(*nodes => nodes@));
            assert(decreases_to!(nodes@ => nodes@[i as int]));
            assert(decreases_to!(nodes@[i as int] => nodes@[i as int].children));
        }
        let children = parse_bookmarks(&bm.children, level + 1);
        let title = match &bm.title {
            Some(t) => t.clone(),
            None => String::from_str("无标题"),
        };
        let page_index: usize = match bm.page_index {
            Some(p) => #[verifier::truncate] (p as usize),
            None => 0,
        };
        let item = TocItem { title, page_index, children, level };
        proof {
            assert(item@.children =~= bookmark_item(*bm, level as int).children) by {
                assert(item@.children =~= toc_views(item.children@));
            }
            assert(item@ == bookmark_item(*bm, level as int));
            lemma_toc_views_push(items@, item);
            assert(bookmark_items(nodes@, level as int).take(i + 1) =~= bookmark_items(
                nodes@,
                level as int,
            ).take(i as int).push(item@));
        }
        items.push(item);
        i = i + 1;
    }
    assert(bookmark_items(nodes@, level as int).take(nodes@.len() as int) =~= bookmark_items(
        nodes@,
        level as int,
    ));
    items
}

} // verus!
