# VectorSnap

A PDF reader for teachers: it crops regions of a page at high resolution,
recognises formulas in a crop as LaTeX (with a local or a cloud model),
previews that LaTeX, exports pages as images or PDFs, merges files into one
PDF, and remembers where each document was left.

## Layout

- `src/` is the verified library. Verus proves the contract of every
  function in it except three small trusted wrappers around outside code,
  whose contracts it takes as given and whose doc comments say what they
  claim: `string_of` (std's `String::from_iter`), `base64_encode` (the
  `base64` crate) and `encode_png` (the `image` crate).
  - `text` — characters, trimming, searching, replacing, lines, decimals;
  - `page_range` — page selections such as `1-5, 8, 12` and their labels;
  - `history` — the last page read in each document, bounded to the most
    recent documents. Paths and their pages are kept in parallel vectors,
    beside the recency order, rather than in a map keyed by `String`:
    Verus specifies `HashMap` and `BTreeMap` well for integer keys, but
    with `String` keys it proves next to nothing about them, so the
    vectors are what let the history's laws be proved;
  - `reader` — the reading session: opening, reloading and closing
    documents, page navigation and page rotation;
  - `shortcuts` — what a frame of key presses asks for, with the vim-style
    `[count]gg` prefix;
  - `annotations` — per-page stroke layers with undo;
  - `raster` — pixel canvases, disks, lines and flattening onto white;
  - `latex` — wrapping formulas into documents, finding the body, cleaning
    recogniser output, compiler error reports, SyncTeX and editor commands;
  - `ocr` — choosing the recogniser, its prompt, the PNG data URL sent to a
    cloud model, and reading its reply;
  - `config` — settings, OCR models and favourite lists;
  - `export` — default file names, file kinds, crop clamping, the crop DPI
    guess and reload attempts.
- `tests/` runs the library on concrete inputs.
- `app/` is the desktop program around the library: windows and widgets,
  PDF rendering, files, the clipboard, processes and the network.
