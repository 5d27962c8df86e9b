//! The WebView2 engine.  It does not render pages itself: each page shows
//! as a dark placeholder of fixed size, and the document has one page and
//! no table of contents.
use crate::engine::{toc_views, EngineError, TocItem, TocItemView};
use egui::ColorImage;
use vstd::prelude::*;

verus! {

#[verifier::external_type_specification]
#[verifier::external_body]
pub struct ExColorImage(ColorImage);

/// The image that `ColorImage::from_rgba_unmultiplied` makes of `width` by
/// `height` pixels given row by row as unmultiplied RGBA bytes.
pub uninterp spec fn rgba_image(width: usize, height: usize, rgba: Seq<u8>) -> ColorImage;

/// `ColorImage::from_rgba_unmultiplied([width, height], rgba)`; it panics
/// unless `rgba` holds four bytes for each pixel.
#[verifier::external_body]
pub(crate) fn color_image_from_rgba(width: usize, height: usize, rgba: &[u8]) -> (img: ColorImage)
    requires
        width * height * 4 == rgba@.len(),
    ensures
        img == rgba_image(width, height, rgba@),
{
    ColorImage::from_rgba_unmultiplied([width, height], rgba)
}

/// The width of the placeholder page, in pixels.
pub const PLACEHOLDER_WIDTH: usize = 600;

/// The height of the placeholder page, in pixels.
pub const PLACEHOLDER_HEIGHT: usize = 800;

/// The placeholder page: every pixel the opaque dark grey (45, 45, 50).
pub open spec fn placeholder_pixels() -> Seq<u8> {
    Seq::new(
        (PLACEHOLDER_WIDTH * PLACEHOLDER_HEIGHT * 4) as nat,
        |i: int|
            if i % 4 == 0 || i % 4 == 1 {
                45u8
            } else if i % 4 == 2 {
                50u8
            } else {
                255u8
            },
    )
}

/// The RGBA bytes of the placeholder page, row by row.
pub fn placeholder_rgba() -> (r: Vec<u8>)
    ensures
        r@ == placeholder_pixels(),
{
    let width = PLACEHOLDER_WIDTH;
    let height = PLACEHOLDER_HEIGHT;
    let mut pixels: Vec<u8> = Vec::new();
    let mut y: usize = 0;
    while y < height
        invariant
            width == PLACEHOLDER_WIDTH,
            height == PLACEHOLDER_HEIGHT,
            y <= height,
            pixels@.len() == y * width * 4,
            forall|i: int| 0 <= i < pixels@.len() ==> #[trigger] pixels@[i] == placeholder_pixels()[i],
        decreases height - y,
    {
        let mut x: usize = 0;
        while x < width
            invariant
                width == PLACEHOLDER_WIDTH,
                height == PLACEHOLDER_HEIGHT,
                y < height,
                x <= width,
                pixels@.len() == (y * width + x) * 4,
                forall|i: int| 0 <= i < pixels@.len() ==> #[trigger] pixels@[i] == placeholder_pixels()[i],
            decreases width - x,
        {
            let ghost n = pixels@.len() as int;
            assert(n % 4 == 0);
            pixels.push(45);
            pixels.push(45);
            pixels.push(50);
            pixels.push(255);
            proof {
                assert((n + 1) % 4 == 1);
                assert((n + 2) % 4 == 2);
                assert((n + 3) % 4 == 3);
                assert(pixels@[n] == placeholder_pixels()[n]);
                assert(pixels@[n + 1] == placeholder_pixels()[n + 1]);
                assert(pixels@[n + 2] == placeholder_pixels()[n + 2]);
                assert(pixels@[n + 3] == placeholder_pixels()[n + 3]);
            }
            x = x + 1;
        }
        y = y + 1;
    }
    assert(pixels@ =~= placeholder_pixels());
    pixels
}

/// The WebView2 engine: it remembers the path of the open document.
pub struct WebView2Engine {
    current_path: Option<String>,
}

impl View for WebView2Engine {
    type V = Option<Seq<char>>;

    /// The path of the open document, if any.
    closed spec fn view(&self) -> Option<Seq<char>> {
        match self.current_path {
            Some(p) => Some(p@),
            None => None,
        }
    }
}

impl WebView2Engine {
    /// An engine with no document open.
    pub fn new() -> (r: Result<Self, EngineError>)
        ensures
            r matches Ok(e) && e@ is None,
    {
        Ok(WebView2Engine { current_path: None })
    }

    /// Opens the document at `path` (given as text): the engine remembers
    /// the path.
    pub fn open(&mut self, path: &str) -> (r: Result<(), EngineError>)
        ensures
            r is Ok,
            final(self)@ == Some(path@),
    {
        self.current_path = Some(path.to_owned());
        Ok(())
    }

    /// The image of a page: always the placeholder.
    pub fn render_page(&self, page_index: usize) -> (r: Result<ColorImage, EngineError>)
        ensures
            r matches Ok(img) && img == rgba_image(
                PLACEHOLDER_WIDTH,
                PLACEHOLDER_HEIGHT,
                placeholder_pixels(),
            ),
    {
        let pixels = placeholder_rgba();
        Ok(color_image_from_rgba(PLACEHOLDER_WIDTH, PLACEHOLDER_HEIGHT, pixels.as_slice()))
    }

    /// The number of pages: always one.
    pub fn page_count(&self) -> (r: usize)
        ensures
            r == 1,
    {
        1
    }

    /// The table of contents: always empty.
    pub fn get_toc(&self) -> (r: Vec<TocItem>)
        ensures
            toc_views(r@) == Seq::<TocItemView>::empty(),
    {
        let r: Vec<TocItem> = Vec::new();
        assert(toc_views(r@) =~= Seq::<TocItemView>::empty());
        r
    }
}

} // verus!
