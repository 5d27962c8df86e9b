//! The MuPDF engine's document model and its table of contents, which MuPDF
//! gives as an outline tree and this engine turns into a tree of entries,
//! each with its nesting level.
use crate::engine::{
    lemma_max_of_bounds, lemma_toc_views_push, max_of, no_toc_item, toc_views, EngineError,
    TocItem, TocItemView,
};
use vstd::prelude::*;
use vstd::string::*;

verus! {

broadcast use vstd::seq_lib::group_seq_properties;

/// A link destination of an outline entry.
pub struct LinkDest {
    /// The page the document resolves the destination to, or `None` when
    /// resolving it fails.
    pub resolved_page: Option<i32>,
}

/// An entry of a MuPDF outline.
pub struct OutlineNode {
    pub title: String,
    pub dest: Option<LinkDest>,
    /// The entries below this one.
    pub down: Vec<OutlineNode>,
}

/// What the engine knows of an open document.
pub struct MuDocument {
    /// The number of pages, or `None` when MuPDF could not count them.
    pub page_count: Option<i32>,
    /// The outline, when the document has one.
    pub outline: Option<OutlineNode>,
}

/// The MuPDF engine.
pub struct MuPdfEngine {
    document: Option<MuDocument>,
}

/// The title shown for an outline entry without one.
pub open spec fn untitled() -> Seq<char> {
    "Untitled"@
}

/// The page an outline entry leads to: the resolved page of its
/// destination; 0 when it has none, no document is open, or resolving
/// failed.
pub open spec fn resolved_page(dest: Option<LinkDest>, has_document: bool) -> usize {
    match dest {
        None => 0,
        Some(d) => if !has_document {
            0
        } else {
            match d.resolved_page {
                Some(p) => #[verifier::truncate] (p as usize),
                None => 0,
            }
        },
    }
}

/// The entry for an outline node at nesting `level`: its title, or a
/// placeholder when the title is empty; the page its destination leads to;
/// the entries below it, in order, one level deeper.
pub open spec fn outline_item(o: OutlineNode, level: int, has_document: bool) -> TocItemView
    decreases o,
{
    TocItemView {
        title: if o.title@.len() == 0 {
            untitled()
        } else {
            o.title@
        },
        page_index: resolved_page(o.dest, has_document),
        children: Seq::new(
            o.down@.len(),
            |i: int|
                if 0 <= i < o.down@.len() {
                    outline_item(o.down@[i], level + 1, has_document)
                } else {
                    no_toc_item()
                },
        ),
        level: #[verifier::truncate] (level as usize),
    }
}

/// The number of levels of an outline tree.
pub open spec fn outline_depth(o: OutlineNode) -> nat
    decreases o, 1nat,
{
    1 + max_of(below_depths(o))
}

/// The number of levels of each subtree below an outline node.
pub open spec fn below_depths(o: OutlineNode) -> Seq<nat>
    decreases o, 0nat,
{
    Seq::new(
        o.down@.len(),
        |i: int|
            if 0 <= i < o.down@.len() {
                outline_depth(o.down@[i])
            } else {
                0
            },
    )
}

impl MuPdfEngine {
    /// The open document, if any.
    pub closed spec fn document(&self) -> Option<MuDocument> {
        self.document
    }

    /// An engine with no document open.
    pub fn new() -> (r: Result<Self, EngineError>)
        ensures
            r matches Ok(e) && e.document() is None,
    {
        Ok(MuPdfEngine { document: None })
    }

    /// Makes `doc`, as MuPDF loaded it, the open document.
    pub fn open(&mut self, doc: MuDocument) -> (r: Result<(), EngineError>)
        ensures
            r is Ok,
            final(self).document() == Some(doc),
    {
        self.document = Some(doc);
        Ok(())
    }

    /// The number of pages: 0 without a document or when MuPDF could not
    /// count them.
    pub fn page_count(&self) -> (r: usize)
        ensures
            r == match self.document() {
                Some(d) => match d.page_count {
                    Some(n) => #[verifier::truncate] (n as usize),
                    None => 0,
                },
                None => 0,
            },
    {
        match &self.document {
            Some(d) => match d.page_count {
                Some(n) => n as usize,
                None => 0,
            },
            None => 0,
        }
    }

    /// The page an outline destination leads to.
    pub fn resolve_page_index(&self, dest: &Option<LinkDest>) -> (r: usize)
        ensures
            r == resolved_page(*dest, self.document() is Some),
    {
        let dest = match dest {
            Some(d) => d,
            None => return 0,
        };
        match &self.document {
            Some(_) => match dest.resolved_page {
                Some(p) => p as usize,
                None => 0,
            },
            None => 0,
        }
    }

    /// Appends the entry for the outline tree `outline` at nesting `level`,
    /// with the entries below it as its children, to `items`.
    pub fn parse_outline(&self, outline: &OutlineNode, level: usize, items: &mut Vec<TocItem>)
        requires
            level + outline_depth(*outline) <= usize::MAX,
        ensures
            toc_views(final(items)@) == toc_views(old(items)@).push(
                outline_item(*outline, level as int, self.document() is Some),
            ),
        decreases outline,
    {
        let ghost has_doc = self.document() is Some;
        let title = if outline.title.as_str().is_empty() {
            String::from_str("Untitled")
        } else {
            outline.title.clone()
        };
        let page_index = self.resolve_page_index(&outline.dest);
        let mut children: Vec<TocItem> = Vec::new();
        let mut i: usize = 0;
        while i < outline.down.len()
            invariant
                has_doc == (self.document() is Some),
                level + outline_depth(*outline) <= usize::MAX,
                i <= outline.down@.len(),
                children@.len() == i,
                forall|k: int|
                    0 <= k < i ==> #[trigger] children@[k]@ == outline_item(
                        outline.down@[k],
                        level + 1,
                        has_doc,
                    ),
            decreases outline.down@.len() - i,
        {
            let child = &outline.down[i];
            proof {
                lemma_max_of_bounds(below_depths(*outline), i as int);
                assert(decreases_to!(*outline => outline.down));
                assert(decreases_to!(outline.down => outline.down@));
                assert(decreases_to!(outline.down@ => outline.down@[i as int]));
            }
            let ghost before = children@;
            self.parse_outline(child, level + 1, &mut children);
            proof {
                assert(toc_views(children@).len() == children@.len());
                assert(children@.len() == i + 1);
                assert forall|k: int| 0 <= k < i + 1 implies #[trigger] children@[k]@
                    == outline_item(outline.down@[k], level + 1, has_doc) by {
                    assert(children@[k]@ == toc_views(children@)[k]);
                    if k < i {
                        assert(toc_views(before)[k] == before[k]@);
                    }
                }
            }
            i = i + 1;
        }
        let item = TocItem { title, page_index, children, level };
        proof {
            let want = outline_item(*outline, level as int, has_doc).children;
            assert forall|k: int| 0 <= k < want.len() implies #[trigger] item@.children[k]
                == want[k] by {
                assert(item.children@[k]@ == outline_item(outline.down@[k], level + 1, has_doc));
            }
            assert(item@.children =~= want);
            assert(item@ == outline_item(*outline, level as int, has_doc));
            lemma_toc_views_push(items@, item);
        }
        items.push(item);
    }

    /// The table of contents: the outline's tree of entries; none without a
    /// document or outline.
    pub fn get_toc(&self) -> (r: Vec<TocItem>)
        requires
            match self.document() {
                Some(d) => match d.outline {
                    Some(o) => outline_depth(o) <= usize::MAX,
                    None => true,
                },
                None => true,
            },
        ensures
            toc_views(r@) == match self.document() {
                Some(d) => match d.outline {
                    Some(o) => seq![outline_item(o, 0, true)],
                    None => Seq::empty(),
                },
                None => Seq::empty(),
            },
    {
        let mut items: Vec<TocItem> = Vec::new();
        let doc = match &self.document {
            Some(d) => d,
            None => {
                assert(toc_views(items@) =~= Seq::<TocItemView>::empty());
                return items;
            },
        };
        match &doc.outline {
            Some(o) => {
                assert(toc_views(items@) =~= Seq::<TocItemView>::empty());
                self.parse_outline(o, 0, &mut items);
                assert(toc_views(items@) =~= seq![outline_item(*o, 0, true)]);
            },
            None => {
                assert(toc_views(items@) =~= Seq::<TocItemView>::empty());
            },
        }
        items
    }
}

/// The title an outline node's entry shows.
pub open spec fn shown_title(o: OutlineNode) -> Seq<char> {
    if o.title@.len() == 0 {
        untitled()
    } else {
        o.title@
    }
}

/// Law: the entry of an outline node, at any level, has one child per
/// outline child and in outline order: the `i`-th child shows the `i`-th
/// outline child's title, leads to the page its destination resolves to,
/// sits one level deeper and has as many children as it has.
pub proof fn lemma_outline_children_in_order(o: OutlineNode, level: int, has_document: bool)
    requires
        0 <= level,
        level + 1 <= usize::MAX,
    ensures
        outline_item(o, level, has_document).children.len() == o.down@.len(),
        forall|i: int|
            #![trigger outline_item(o, level, has_document).children[i]]
            0 <= i < o.down@.len() ==> {
                let c = outline_item(o, level, has_document).children[i];
                &&& c.title == shown_title(o.down@[i])
                &&& c.page_index == resolved_page(o.down@[i].dest, has_document)
                &&& c.level == level + 1
                &&& c.children.len() == o.down@[i].down@.len()
            },
{
    assert forall|i: int|
        #![trigger outline_item(o, level, has_document).children[i]]
        0 <= i < o.down@.len() implies {
        let c = outline_item(o, level, has_document).children[i];
        &&& c.title == shown_title(o.down@[i])
        &&& c.page_index == resolved_page(o.down@[i].dest, has_document)
        &&& c.level == level + 1
        &&& c.children.len() == o.down@[i].down@.len()
    } by {
        let c = outline_item(o, level, has_document).children[i];
        assert(c == outline_item(o.down@[i], level + 1, has_document));
        assert(c.level == level + 1);
    }
}

/// The RGBA bytes of RGB samples: each pixel's three bytes, then an opaque
/// alpha of 255.
pub open spec fn rgba_of_rgb(samples: Seq<u8>) -> Seq<u8> {
    Seq::new(
        (samples.len() / 3 * 4) as nat,
        |i: int|
            if i % 4 == 3 {
                255u8
            } else {
                samples[(i / 4) * 3 + i % 4]
            },
    )
}

/// The four bytes of pixel `k` of RGBA bytes.
pub open spec fn rgba_pixel(rgba: Seq<u8>, k: int) -> Seq<u8> {
    rgba.subrange(4 * k, 4 * k + 4)
}

/// The three samples of pixel `k` of RGB samples.
pub open spec fn rgb_pixel(samples: Seq<u8>, k: int) -> Seq<u8> {
    samples.subrange(3 * k, 3 * k + 3)
}

/// Law: turning RGB samples into RGBA bytes keeps the pixels, in order, and
/// makes each opaque: pixel `k` of the result is pixel `k` of the samples
/// followed by an alpha of 255, and there is one pixel per three samples.
pub proof fn lemma_rgba_pixels_opaque(samples: Seq<u8>)
    ensures
        rgba_of_rgb(samples).len() == samples.len() / 3 * 4,
        forall|k: int|
            0 <= k < samples.len() / 3 ==> #[trigger] rgba_pixel(rgba_of_rgb(samples), k)
                == rgb_pixel(samples, k).push(255u8),
{
    let r = rgba_of_rgb(samples);
    assert forall|k: int| 0 <= k < samples.len() / 3 implies #[trigger] rgba_pixel(r, k)
        == rgb_pixel(samples, k).push(255u8) by {
        assert(3 * k + 3 <= samples.len()) by (nonlinear_arith)
            requires
                0 <= k < samples.len() / 3,
        ;
        assert(4 * k + 4 <= samples.len() / 3 * 4) by (nonlinear_arith)
            requires
                0 <= k < samples.len() / 3,
        ;
        assert forall|j: int| 0 <= j < 4 implies #[trigger] r[4 * k + j] == rgb_pixel(samples, k).push(
            255u8,
        )[j] by {
            assert((4 * k + j) / 4 == k) by (nonlinear_arith)
                requires
                    0 <= j < 4,
            ;
            assert((4 * k + j) % 4 == j) by (nonlinear_arith)
                requires
                    0 <= j < 4,
            ;
        }
        assert(rgba_pixel(r, k) =~= rgb_pixel(samples, k).push(255u8)) by {
            assert forall|j: int| 0 <= j < 4 implies rgba_pixel(r, k)[j] == rgb_pixel(samples, k).push(
                255u8,
            )[j] by {
                assert(rgba_pixel(r, k)[j] == r[4 * k + j]);
            }
        }
    }
}

/// Turns the RGB samples MuPDF renders into RGBA bytes.
pub fn rgb_to_rgba(samples: &[u8]) -> (r: Vec<u8>)
    requires
        samples@.len() % 3 == 0,
    ensures
        r@ == rgba_of_rgb(samples@),
{
    let n = samples.len() / 3;
    assert(samples@.len() == samples.len());
    let mut rgba: Vec<u8> = Vec::new();
    let mut k: usize = 0;
    while k < n
        invariant
            n == samples@.len() / 3,
            samples@.len() % 3 == 0,
            samples@.len() <= usize::MAX,
            k <= n,
            rgba@.len() == k * 4,
            forall|i: int| 0 <= i < rgba@.len() ==> #[trigger] rgba@[i] == rgba_of_rgb(samples@)[i],
        decreases n - k,
    {
        assert(k * 3 + 2 < samples@.len()) by (nonlinear_arith)
            requires
                k < n,
                n == samples@.len() / 3,
                samples@.len() % 3 == 0,
        ;
        let base = k * 3;
        rgba.push(samples[base]);
        rgba.push(samples[base + 1]);
        rgba.push(samples[base + 2]);
        rgba.push(255);
        proof {
            let m = (k * 4) as int;
            assert forall|j: int| 0 <= j < 4 implies #[trigger] rgba@[m + j] == rgba_of_rgb(samples@)[m + j] by {
                assert((m + j) / 4 == k) by (nonlinear_arith)
                    requires
                        m == k * 4,
                        0 <= j < 4,
                ;
                assert((m + j) % 4 == j) by (nonlinear_arith)
                    requires
                        m == k * 4,
                        0 <= j < 4,
                ;
            }
            assert forall|i: int| 0 <= i < rgba@.len() implies #[trigger] rgba@[i] == rgba_of_rgb(samples@)[i] by {
                if i >= m {
                    assert(rgba@[m + (i - m)] == rgba_of_rgb(samples@)[m + (i - m)]);
                }
            }
        }
        k = k + 1;
    }
    assert(rgba@ =~= rgba_of_rgb(samples@));
    rgba
}

} // verus!
