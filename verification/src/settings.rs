//! The viewer's settings, kept between runs.
use crate::engine::EngineType;
use std::path::PathBuf;
use vstd::prelude::*;

verus! {

/// The viewer's settings.
pub struct Settings {
    /// The engine that renders documents.
    pub engine: EngineType,
    /// Whether folders without a PDF are listed too.
    pub show_all_folders: bool,
    /// How many pages ahead are rendered in advance.
    pub prefetch_pages: usize,
    /// The folder opened last, if any.
    pub last_opened_dir: Option<PathBuf>,
}

impl Default for Settings {
    /// PDFium, only folders with a PDF, two pages ahead, no folder yet.
    fn default() -> (r: Self)
        ensures
            r.engine == EngineType::Pdfium,
            !r.show_all_folders,
            r.prefetch_pages == 2,
            r.last_opened_dir is None,
    {
        Settings {
            engine: EngineType::Pdfium,
            show_all_folders: false,
            prefetch_pages: 2,
            last_opened_dir: None,
        }
    }
}

} // verus!
