//! What the rendering engines share: the table of contents of a document
//! and the choice of engine.
use vstd::prelude::*;
use vstd::string::*;

pub mod bitmap;
pub mod mupdf;
pub mod pdfium;
pub mod webview;

verus! {

/// An entry of a document's table of contents (a bookmark).
#[derive(Debug)]
pub struct TocItem {
    pub title: String,
    pub page_index: usize,
    pub children: Vec<TocItem>,
    pub level: usize,
}

/// The mathematical value of a [`TocItem`].
pub struct TocItemView {
    pub title: Seq<char>,
    pub page_index: usize,
    pub children: Seq<TocItemView>,
    pub level: usize,
}

/// A placeholder value, never part of a table of contents.
pub open spec fn no_toc_item() -> TocItemView {
    TocItemView { title: Seq::empty(), page_index: 0, children: Seq::empty(), level: 0 }
}

impl TocItem {
    pub open spec fn view_of(self) -> TocItemView
        decreases self,
    {
        TocItemView {
            title: self.title@,
            page_index: self.page_index,
            children: Seq::new(
                self.children@.len(),
                |i: int|
                    if 0 <= i < self.children@.len() {
                        self.children@[i].view_of()
                    } else {
                        no_toc_item()
                    },
            ),
            level: self.level,
        }
    }
}

impl View for TocItem {
    type V = TocItemView;

    open spec fn view(&self) -> TocItemView {
        self.view_of()
    }
}

/// The values of a sequence of entries.
pub open spec fn toc_views(s: Seq<TocItem>) -> Seq<TocItemView> {
    Seq::new(s.len(), |i: int| s[i]@)
}

pub proof fn lemma_toc_views_push(s: Seq<TocItem>, x: TocItem)
    ensures
        toc_views(s.push(x)) == toc_views(s).push(x@),
{
    assert(toc_views(s.push(x)) =~= toc_views(s).push(x@));
}

/// A copy of an entry and all below it.
pub fn clone_toc_item(t: &TocItem) -> (r: TocItem)
    ensures
        r@ == t@,
    decreases t,
{
    let mut children: Vec<TocItem> = Vec::new();
    let mut i: usize = 0;
    while i < t.children.len()
        invariant
            i <= t.children@.len(),
            children@.len() == i,
            forall|k: int| 0 <= k < i ==> #[trigger] children@[k]@ == t.children@[k]@,
        decreases t.children@.len() - i,
    {
        let c = clone_toc_item(&t.children[i]);
        children.push(c);
        i = i + 1;
    }
    let r = TocItem { title: t.title.clone(), page_index: t.page_index, children, level: t.level };
    assert(r@.children =~= t@.children) by {
        assert forall|k: int| 0 <= k < r.children@.len() implies r@.children[k] == t@.children[k] by {
            assert(r.children@[k]@ == t.children@[k]@);
        }
    }
    r
}

impl Clone for TocItem {
    fn clone(&self) -> (r: Self)
        ensures
            r@ == self@,
    {
        clone_toc_item(self)
    }
}

/// The largest of some numbers; 0 for none.
pub open spec fn max_of(s: Seq<nat>) -> nat
    decreases s.len(),
{
    if s.len() == 0 {
        0
    } else {
        let m = max_of(s.drop_last());
        if s.last() > m {
            s.last()
        } else {
            m
        }
    }
}

pub proof fn lemma_max_of_bounds(s: Seq<nat>, i: int)
    requires
        0 <= i < s.len(),
    ensures
        s[i] <= max_of(s),
    decreases s.len(),
{
    if i < s.len() - 1 {
        lemma_max_of_bounds(s.drop_last(), i);
    }
}

/// The decimal digit of `d`, below 10.
pub open spec fn digit_char(d: nat) -> char {
    if d == 0 {
        '0'
    } else if d == 1 {
        '1'
    } else if d == 2 {
        '2'
    } else if d == 3 {
        '3'
    } else if d == 4 {
        '4'
    } else if d == 5 {
        '5'
    } else if d == 6 {
        '6'
    } else if d == 7 {
        '7'
    } else if d == 8 {
        '8'
    } else {
        '9'
    }
}

/// The decimal notation of `n`, without leading zeros.
pub open spec fn decimal(n: nat) -> Seq<char>
    decreases n,
{
    if n < 10 {
        seq![digit_char(n)]
    } else {
        decimal(n / 10).push(digit_char(n % 10))
    }
}

/// The one-character string of the decimal digit `d`.
fn digit_str(d: usize) -> (r: &'static str)
    requires
        d < 10,
    ensures
        r@ == seq![digit_char(d as nat)],
{
    if d == 0 {
        proof {
            reveal_strlit("0");
        }
        "0"
    } else if d == 1 {
        proof {
            reveal_strlit("1");
        }
        "1"
    } else if d == 2 {
        proof {
            reveal_strlit("2");
        }
        "2"
    } else if d == 3 {
        proof {
            reveal_strlit("3");
        }
        "3"
    } else if d == 4 {
        proof {
            reveal_strlit("4");
        }
        "4"
    } else if d == 5 {
        proof {
            reveal_strlit("5");
        }
        "5"
    } else if d == 6 {
        proof {
            reveal_strlit("6");
        }
        "6"
    } else if d == 7 {
        proof {
            reveal_strlit("7");
        }
        "7"
    } else if d == 8 {
        proof {
            reveal_strlit("8");
        }
        "8"
    } else {
        proof {
            reveal_strlit("9");
        }
        "9"
    }
}

/// The decimal notation of `n`, as `usize::to_string` writes it.
fn decimal_string(n: usize) -> (r: String)
    ensures
        r@ == decimal(n as nat),
    decreases n,
{
    if n < 10 {
        String::from_str(digit_str(n))
    } else {
        let mut s = decimal_string(n / 10);
        s.append(digit_str(n % 10));
        s
    }
}

/// The label of an entry in the bookmark list: its title and its page
/// number, counted from 1.
pub open spec fn toc_label_view(title: Seq<char>, page_index: usize) -> Seq<char> {
    title + " (P"@ + decimal((page_index + 1) as nat) + ")"@
}

/// The label of an entry: `"{title} (P{page_index + 1})"`.
pub fn toc_label(item: &TocItem) -> (r: String)
    requires
        item.page_index < usize::MAX,
    ensures
        r@ == toc_label_view(item.title@, item.page_index),
{
    let mut label = item.title.clone();
    label.append(" (P");
    let number = decimal_string(item.page_index + 1);
    label.append(number.as_str());
    label.append(")");
    label
}

/// The rendering engines to choose from.
#[derive(Debug, Clone, Copy, PartialEq, Eq, Structural)]
pub enum EngineType {
    MuPdf,
    Pdfium,
    WindowsDataPdf,
    WebView2,
}

impl Default for EngineType {
    /// PDFium, unless chosen otherwise.
    fn default() -> (r: Self)
        ensures
            r == EngineType::Pdfium,
    {
        EngineType::Pdfium
    }
}

/// Why an engine could not do what was asked.
#[derive(Debug)]
pub enum EngineError {
    /// No document is open.
    NotOpen,
    /// The engine's backend refused, with its message.
    Backend(String),
    /// The bytes of a rendered page do not fill an image of its size.
    ImageSize,
    /// A rendered page could not be decoded; the decoder's message.
    Decode(String),
}

} // verus!
