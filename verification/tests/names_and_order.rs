use std::path::Path;
use tree_pdf_viewer::names::{has_pdf_extension, name_has_pdf_extension, starts_with_dot};
use tree_pdf_viewer::order::bytes_less;

fn std_is_pdf(name: &str) -> bool {
    Path::new(name)
        .extension()
        .map_or(false, |ext| ext.eq_ignore_ascii_case("pdf"))
}

#[test]
fn pdf_extension_matches_path_extension() {
    let names = [
        "a.pdf", "A.PDF", "report.Pdf", ".pdf", "pdf", "a.pdfx", "a.b.PdF", "..pdf", "..", ".",
        "a.", "x.pd", "x.p.df", "notes.txt", "b.PDF", "中文.pdf", "a.pdf.bak", "", "a..pdf",
    ];
    for name in names {
        assert_eq!(has_pdf_extension(name.as_bytes()), std_is_pdf(name), "{}", name);
    }
}

#[test]
fn decoded_name_pdf_test_matches_path_extension() {
    let names = [
        "a.pdf", "A.PDF", "report.Pdf", ".pdf", "pdf", "a.pdfx", "a.b.PdF", "..pdf", "..", ".",
        "a.", "x.pd", "x.p.df", "notes.txt", "b.PDF", "中文.pdf", "a.pdf.bak", "", "a..pdf",
        "é.pdf", "a.pdé", "\u{fffd}.pdf",
    ];
    for name in names {
        assert_eq!(name_has_pdf_extension(name), std_is_pdf(name), "{}", name);
    }
}

#[test]
fn lossy_name_gives_the_byte_test_result() {
    let raw: &[u8] = b"scan\xff\xfe.PDF";
    let lossy = String::from_utf8_lossy(raw).to_string();
    assert!(has_pdf_extension(raw));
    assert!(name_has_pdf_extension(&lossy));
    let raw_txt: &[u8] = b"a.pd\xff";
    let lossy_txt = String::from_utf8_lossy(raw_txt).to_string();
    assert!(!has_pdf_extension(raw_txt));
    assert!(!name_has_pdf_extension(&lossy_txt));
}

#[test]
fn pdf_extension_cases() {
    assert!(has_pdf_extension(b"a.pdf"));
    assert!(has_pdf_extension(b"SCAN.PDF"));
    assert!(!has_pdf_extension(b".pdf"));
    assert!(!has_pdf_extension(b"a.pdf2"));
    assert!(has_pdf_extension(b"..pdf"));
}

#[test]
fn hidden_names() {
    assert!(starts_with_dot(".git"));
    assert!(!starts_with_dot("git"));
    assert!(!starts_with_dot(""));
}

#[test]
fn byte_order_matches_ord() {
    let words: [&[u8]; 8] = [b"", b"a", b"ab", b"b", b"B", b"abc", b"ab\xff", b"\x00"];
    for a in words {
        for b in words {
            assert_eq!(bytes_less(a, b), a < b, "{:?} {:?}", a, b);
        }
    }
}
