use tree_pdf_viewer::engine::mupdf::{rgb_to_rgba, LinkDest, MuDocument, MuPdfEngine, OutlineNode};
use tree_pdf_viewer::engine::pdfium::{parse_bookmarks, BookmarkNode};
use tree_pdf_viewer::engine::webview::{placeholder_rgba, WebView2Engine};
use tree_pdf_viewer::engine::bitmap::{decode_page_image, image_from_rgba, rgb_samples_image};
use tree_pdf_viewer::engine::{toc_label, EngineError, EngineType, TocItem};
use tree_pdf_viewer::settings::Settings;

fn outline(title: &str, page: Option<Option<i32>>, down: Vec<OutlineNode>) -> OutlineNode {
    OutlineNode {
        title: title.to_string(),
        dest: page.map(|p| LinkDest { resolved_page: p }),
        down,
    }
}

fn flat(items: &[TocItem]) -> Vec<(String, usize, usize, usize)> {
    items.iter().map(|t| (t.title.clone(), t.page_index, t.level, t.children.len())).collect()
}

#[test]
fn mupdf_outline_becomes_a_tree_of_entries() {
    let mut engine = MuPdfEngine::new().unwrap();
    assert_eq!(engine.page_count(), 0);
    assert!(engine.get_toc().is_empty());
    let doc = MuDocument {
        page_count: Some(12),
        outline: Some(outline(
            "Book",
            Some(Some(0)),
            vec![
                outline("", Some(Some(3)), vec![outline("1.1", Some(None), vec![])]),
                outline("Two", None, vec![]),
            ],
        )),
    };
    engine.open(doc).unwrap();
    assert_eq!(engine.page_count(), 12);
    let toc = engine.get_toc();
    assert_eq!(flat(&toc), vec![("Book".to_string(), 0, 0, 2)]);
    assert_eq!(
        flat(&toc[0].children),
        vec![("Untitled".to_string(), 3, 1, 1), ("Two".to_string(), 0, 1, 0)]
    );
    assert_eq!(flat(&toc[0].children[0].children), vec![("1.1".to_string(), 0, 2, 0)]);
}

#[test]
fn mupdf_without_outline_or_page_count() {
    let mut engine = MuPdfEngine::new().unwrap();
    engine.open(MuDocument { page_count: None, outline: None }).unwrap();
    assert_eq!(engine.page_count(), 0);
    assert!(engine.get_toc().is_empty());
    assert_eq!(engine.resolve_page_index(&None), 0);
    assert_eq!(engine.resolve_page_index(&Some(LinkDest { resolved_page: Some(7) })), 7);
}

#[test]
fn mupdf_resolves_nothing_without_a_document() {
    let engine = MuPdfEngine::new().unwrap();
    assert_eq!(engine.resolve_page_index(&Some(LinkDest { resolved_page: Some(7) })), 0);
    let mut items = Vec::new();
    engine.parse_outline(&outline("A", Some(Some(5)), vec![]), 2, &mut items);
    assert_eq!(flat(&items), vec![("A".to_string(), 0, 2, 0)]);
}

#[test]
fn pdfium_bookmarks_keep_their_nesting() {
    let nodes = vec![
        BookmarkNode {
            title: Some("Intro".to_string()),
            page_index: Some(0),
            children: vec![BookmarkNode { title: None, page_index: Some(4), children: vec![] }],
        },
        BookmarkNode { title: Some("End".to_string()), page_index: None, children: vec![] },
    ];
    let toc = parse_bookmarks(&nodes, 0);
    assert_eq!(flat(&toc), vec![("Intro".to_string(), 0, 0, 1), ("End".to_string(), 0, 0, 0)]);
    assert_eq!(flat(&toc[0].children), vec![("无标题".to_string(), 4, 1, 0)]);
    let copy = toc[0].clone();
    assert_eq!(flat(&copy.children), flat(&toc[0].children));
}

#[test]
fn pdfium_negative_page_index_wraps_like_a_cast() {
    let nodes = vec![BookmarkNode { title: None, page_index: Some(-1), children: vec![] }];
    let toc = parse_bookmarks(&nodes, 3);
    assert_eq!(toc[0].page_index, (-1i32) as usize);
    assert_eq!(toc[0].level, 3);
}

#[test]
fn webview_shows_a_grey_placeholder() {
    let mut engine = WebView2Engine::new().unwrap();
    engine.open("/tmp/a.pdf").unwrap();
    assert_eq!(engine.page_count(), 1);
    assert!(engine.get_toc().is_empty());
    let img = engine.render_page(0).unwrap();
    assert_eq!(img.size, [600, 800]);
    assert_eq!(img.pixels.len(), 600 * 800);
    assert!(img.pixels.iter().all(|p| *p == egui::Color32::from_rgb(45, 45, 50)));
    let other = engine.render_page(41).unwrap();
    assert_eq!(other.pixels, img.pixels);
}

#[test]
fn placeholder_bytes() {
    let px = placeholder_rgba();
    assert_eq!(px.len(), 600 * 800 * 4);
    assert_eq!(&px[0..8], &[45, 45, 50, 255, 45, 45, 50, 255]);
}

#[test]
fn defaults() {
    assert_eq!(EngineType::default(), EngineType::Pdfium);
    let s = Settings::default();
    assert_eq!(s.engine, EngineType::Pdfium);
    assert!(!s.show_all_folders);
    assert_eq!(s.prefetch_pages, 2);
    assert!(s.last_opened_dir.is_none());
}

#[test]
fn toc_labels_count_pages_from_one() {
    let item = |title: &str, page: usize| TocItem { title: title.to_string(), page_index: page, children: vec![], level: 0 };
    assert_eq!(toc_label(&item("Intro", 0)), "Intro (P1)");
    assert_eq!(toc_label(&item("第二章", 99)), "第二章 (P100)");
    assert_eq!(toc_label(&item("", 9)), " (P10)");
}

#[test]
fn rgb_samples_become_opaque_rgba() {
    assert_eq!(rgb_to_rgba(&[1, 2, 3, 4, 5, 6]), vec![1, 2, 3, 255, 4, 5, 6, 255]);
    assert!(rgb_to_rgba(&[]).is_empty());
}

#[test]
fn rgba_bytes_become_an_image_of_their_size() {
    let bytes = [1u8, 2, 3, 4, 5, 6, 7, 8];
    let img = image_from_rgba(2, 1, &bytes).unwrap();
    assert_eq!(img.size, [2, 1]);
    assert_eq!(img.pixels[0], egui::Color32::from_rgba_unmultiplied(1, 2, 3, 4));
    assert_eq!(img.pixels[1], egui::Color32::from_rgba_unmultiplied(5, 6, 7, 8));
    assert!(matches!(image_from_rgba(3, 1, &bytes), Err(EngineError::ImageSize)));
    assert!(matches!(image_from_rgba(usize::MAX, 2, &bytes), Err(EngineError::ImageSize)));
}

#[test]
fn rgb_samples_become_an_opaque_image() {
    let samples = [10u8, 20, 30, 40, 50, 60];
    let img = rgb_samples_image(1, 2, &samples).unwrap();
    assert_eq!(img.size, [1, 2]);
    assert_eq!(img.pixels, vec![
        egui::Color32::from_rgb(10, 20, 30),
        egui::Color32::from_rgb(40, 50, 60),
    ]);
    assert!(matches!(rgb_samples_image(2, 2, &samples), Err(EngineError::ImageSize)));
    assert!(matches!(rgb_samples_image(1, 2, &samples[..5]), Err(EngineError::ImageSize)));
}

#[test]
fn encoded_page_decodes_to_its_pixels() {
    let src = image::RgbaImage::from_raw(2, 1, vec![255, 0, 0, 255, 0, 0, 255, 255]).unwrap();
    let mut png = std::io::Cursor::new(Vec::new());
    src.write_to(&mut png, image::ImageFormat::Png).unwrap();
    let img = decode_page_image(png.get_ref()).unwrap();
    assert_eq!(img.size, [2, 1]);
    assert_eq!(img.pixels, vec![egui::Color32::from_rgb(255, 0, 0), egui::Color32::from_rgb(0, 0, 255)]);
    assert!(matches!(decode_page_image(b"not an image"), Err(EngineError::Decode(_))));
}
