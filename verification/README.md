# Tree PDF Viewer

A PDF viewer with a folder tree in its sidebar. The library (`src/`) holds
what the viewer decides, specified and proved with Verus; `app/` is the egui
program around it: windows, file dialogs, reading directories, and the
rendering engines that draw pages through native libraries.

## Library modules

- `order`: the byte-string order of file names and a stable insertion sort
  specified over it, with its laws (sorted, a permutation, stable).
- `names`: the `pdf` extension test, done on the OS bytes of a file name the
  way `Path::extension` splits it; hidden names.
- `file_tree`: the sidebar's folder tree built from a directory listing:
  PDF files and the folders that hold one (or all folders), folders first,
  then by name.
- `pdf_tree`: the tree of PDF files handed to a web front end: hidden folders
  skipped, entries in name order, folders only when they hold a PDF.
- `engine`: the table of contents (bookmarks) of the engines — PDFium's
  nested bookmarks, MuPDF's outline tree — the WebView2 placeholder page,
  page images built from the bytes an engine renders, the choice of engine
  and the bookmark labels.
- `cache`: the texture cache over the `lru` crate: at most a fixed number of
  rendered pages, the least recently used one making room.
- `settings`: the settings kept between runs and their defaults.

The directory scanners take listings that `app/` reads from the file system
(`DirEntryInfo`, `ScanEntry`); everything they decide from those listings is
in the library.
