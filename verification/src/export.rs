//! Decisions around exporting and importing files: default file names,
//! which formats need a white background, which files a merge accepts,
//! where a crop falls on the rendered page, and which DPI suits a page.
use vstd::prelude::*;
use crate::text::{append_chars, append_str, chars_of, dec, push_dec, string_of, trim, trim_str};
use crate::page_range::{generate_range_string, range_label};

verus! {

// ---------------------------------------------------------------------------
// File names and titles
// ---------------------------------------------------------------------------

/// The name exported files start with: the open document's, or `Document`.
pub open spec fn base_name(pdf_name: Option<Seq<char>>) -> Seq<char> {
    match pdf_name {
        Some(n) => n,
        None => "Document"@,
    }
}

/// The characters of an optional string.
pub open spec fn opt_view(s: Option<&str>) -> Option<Seq<char>> {
    match s {
        Some(s) => Some(s@),
        None => None,
    }
}

fn push_base_name(out: &mut Vec<char>, pdf_name: Option<&str>)
    ensures
        final(out)@ == old(out)@ + base_name(opt_view(pdf_name)),
{
    match pdf_name {
        Some(n) => append_str(out, n),
        None => append_str(out, "Document"),
    }
}

/// The default name of an exported page: `<name>_Page_<n>.<ext>`, with the
/// 1-based page number.
pub fn page_export_name(pdf_name: Option<&str>, page_index: usize, ext: &str) -> (r: String)
    requires
        page_index < usize::MAX,
    ensures
        r@ == base_name(opt_view(pdf_name)) + "_Page_"@ + dec((page_index + 1) as nat) + "."@ + ext@,
{
    let mut out: Vec<char> = Vec::new();
    push_base_name(&mut out, pdf_name);
    append_str(&mut out, "_Page_");
    push_dec(&mut out, page_index as u64 + 1);
    append_str(&mut out, ".");
    append_str(&mut out, ext);
    string_of(&out)
}

/// The default name of a PDF made of selected pages: `<name>_<label>.pdf`,
/// where the label names the pages (see `range_label`).
pub fn range_export_name(pdf_name: Option<&str>, indices: &[u16]) -> (r: String)
    requires
        forall|i: int| 0 <= i < indices@.len() ==> #[trigger] indices@[i] < 65535,
    ensures
        r@ == base_name(opt_view(pdf_name)) + "_"@ + range_label(indices@) + ".pdf"@,
{
    let mut out: Vec<char> = Vec::new();
    push_base_name(&mut out, pdf_name);
    append_str(&mut out, "_");
    let label = generate_range_string(indices);
    append_str(&mut out, label.as_str());
    append_str(&mut out, ".pdf");
    string_of(&out)
}

/// The default name of a saved snapshot: `<name>_<kind>_<timestamp>.<ext>`.
pub fn snapshot_name(pdf_name: Option<&str>, kind: &str, timestamp: &str, ext: &str) -> (r: String)
    ensures
        r@ == base_name(opt_view(pdf_name)) + "_"@ + kind@ + "_"@ + timestamp@ + "."@ + ext@,
{
    let mut out: Vec<char> = Vec::new();
    push_base_name(&mut out, pdf_name);
    append_str(&mut out, "_");
    append_str(&mut out, kind);
    append_str(&mut out, "_");
    append_str(&mut out, timestamp);
    append_str(&mut out, ".");
    append_str(&mut out, ext);
    string_of(&out)
}

/// The window title: the open document's name, or `VectorSnap`.
pub fn window_title(pdf_name: Option<&str>) -> (r: String)
    ensures
        r@ == match opt_view(pdf_name) {
            Some(n) => n,
            None => "VectorSnap"@,
        },
{
    match pdf_name {
        Some(n) => string_of(&chars_of(n)),
        None => string_of(&chars_of("VectorSnap")),
    }
}

// ---------------------------------------------------------------------------
// File kinds
// ---------------------------------------------------------------------------

/// `c` is `l`, or the upper-case ASCII letter of which `l` is the lower case.
pub open spec fn char_matches_lower(c: char, l: char) -> bool {
    c == l || ('A' <= c <= 'Z' && c as u32 + 32 == l as u32)
}

/// `s` equals `lower` (which is lower-case ASCII) ignoring ASCII case.
/// For the words compared here (`pdf`, `jpg`, `jpeg`, `png`) this is what
/// comparing the Unicode lower-case form gives: no other character has a
/// lower-case form among their letters.
pub open spec fn eq_ignore_case(s: Seq<char>, lower: Seq<char>) -> bool {
    s.len() == lower.len() && forall|i: int| 0 <= i < s.len() ==> char_matches_lower(#[trigger] s[i], lower[i])
}

fn matches_lower(c: char, l: char) -> (b: bool)
    ensures
        b == char_matches_lower(c, l),
{
    c == l || ('A' <= c && c <= 'Z' && c as u32 + 32 == l as u32)
}

/// Whether `s` equals the lower-case ASCII word `lower`, ignoring case.
pub fn eq_ignoring_case(s: &str, lower: &str) -> (b: bool)
    ensures
        b == eq_ignore_case(s@, lower@),
{
    let a = chars_of(s);
    let l = chars_of(lower);
    if a.len() != l.len() {
        return false;
    }
    let mut i: usize = 0;
    while i < a.len()
        invariant
            a@ == s@,
            l@ == lower@,
            a@.len() == l@.len(),
            i <= a@.len(),
            forall|j: int| 0 <= j < i ==> char_matches_lower(#[trigger] a@[j], l@[j]),
        decreases a.len() - i,
    {
        if !matches_lower(a[i], l[i]) {
            return false;
        }
        i += 1;
    }
    true
}

/// Whether an image saved with extension `ext` is written as JPEG (white
/// background, no alpha), comparing exactly as the snapshot saver does.
pub fn is_jpeg_extension(ext: &str) -> (b: bool)
    ensures
        b == (ext@ == "jpg"@ || ext@ == "jpeg"@),
{
    let e = string_of(&chars_of(ext));
    let jpg = string_of(&chars_of("jpg"));
    let jpeg = string_of(&chars_of("jpeg"));
    e == jpg || e == jpeg
}

/// Whether a page exported with extension `ext` is written as JPEG,
/// ignoring case as the page exporter does.
pub fn is_jpeg_extension_any_case(ext: &str) -> (b: bool)
    ensures
        b == (eq_ignore_case(ext@, "jpg"@) || eq_ignore_case(ext@, "jpeg"@)),
{
    eq_ignoring_case(ext, "jpg") || eq_ignoring_case(ext, "jpeg")
}

/// What a file given to the merger is taken as.
#[derive(Clone, Copy, PartialEq, Eq, Structural, Debug)]
pub enum MergeFileKind {
    Pdf,
    Image,
    Skipped,
}

/// The kind of a file by its extension, ignoring case: `pdf` documents,
/// `jpg`, `jpeg` and `png` images; other files are skipped.
pub open spec fn merge_kind(ext: Seq<char>) -> MergeFileKind {
    if eq_ignore_case(ext, "pdf"@) {
        MergeFileKind::Pdf
    } else if eq_ignore_case(ext, "jpg"@) || eq_ignore_case(ext, "jpeg"@) || eq_ignore_case(ext, "png"@) {
        MergeFileKind::Image
    } else {
        MergeFileKind::Skipped
    }
}

/// `c` with an ASCII capital letter made small.
pub open spec fn ascii_lower_char(c: char) -> char {
    if 'A' <= c <= 'Z' {
        ((c as u32) + 32) as char
    } else {
        c
    }
}

/// `s` with its ASCII capital letters made small.
pub open spec fn ascii_lower(s: Seq<char>) -> Seq<char> {
    s.map_values(|c: char| ascii_lower_char(c))
}

proof fn lemma_char_by_code(a: char, b: char)
    requires
        a as u32 == b as u32,
    ensures
        a == b,
{
}

/// Against a word without capitals, comparing ignoring case is comparing
/// the small-letter form.
proof fn lemma_eq_ignore_case_is_lower(s: Seq<char>, w: Seq<char>)
    requires
        forall|i: int| 0 <= i < w.len() ==> !('A' <= #[trigger] w[i] <= 'Z'),
    ensures
        eq_ignore_case(s, w) <==> ascii_lower(s) == w,
{
    if eq_ignore_case(s, w) {
        assert forall|i: int| 0 <= i < s.len() implies #[trigger] ascii_lower(s)[i] == w[i] by {
            assert(char_matches_lower(s[i], w[i]));
            if 'A' <= s[i] <= 'Z' && s[i] != w[i] {
                assert(w[i] as u32 == s[i] as u32 + 32);
                lemma_char_by_code(((s[i] as u32) + 32) as char, w[i]);
            }
        }
        assert(ascii_lower(s) =~= w);
    }
    if ascii_lower(s) == w {
        assert forall|i: int| 0 <= i < s.len() implies char_matches_lower(#[trigger] s[i], w[i]) by {
            assert(ascii_lower(s)[i] == w[i]);
            if 'A' <= s[i] <= 'Z' {
                assert(w[i] == ((s[i] as u32) + 32) as char);
                assert(w[i] as u32 == s[i] as u32 + 32);
            }
        }
    }
}

/// A file's kind depends on its extension only up to ASCII case: the kind
/// of an extension is that of its small-letter form, which is a PDF for
/// `pdf`, an image for `jpg`, `jpeg` and `png`, and skipped otherwise.
pub proof fn lemma_merge_kind_by_lower(ext: Seq<char>)
    ensures
        merge_kind(ext) == merge_kind(ascii_lower(ext)),
        merge_kind(ext) == (if ascii_lower(ext) == "pdf"@ {
            MergeFileKind::Pdf
        } else if ascii_lower(ext) == "jpg"@ || ascii_lower(ext) == "jpeg"@ || ascii_lower(ext) == "png"@ {
            MergeFileKind::Image
        } else {
            MergeFileKind::Skipped
        }),
{
    reveal_strlit("pdf");
    reveal_strlit("jpg");
    reveal_strlit("jpeg");
    reveal_strlit("png");
    let l = ascii_lower(ext);
    assert forall|i: int| 0 <= i < l.len() implies !('A' <= #[trigger] l[i] <= 'Z') by {
        let c = ext[i];
        if 'A' <= c <= 'Z' {
            assert(l[i] == ((c as u32) + 32) as char);
            assert((((c as u32) + 32) as char) as u32 == c as u32 + 32);
        }
    }
    assert(ascii_lower(l) =~= l) by {
        assert forall|i: int| 0 <= i < l.len() implies #[trigger] ascii_lower(l)[i] == l[i] by {
            assert(!('A' <= l[i] <= 'Z'));
        }
    }
    lemma_eq_ignore_case_is_lower(ext, "pdf"@);
    lemma_eq_ignore_case_is_lower(ext, "jpg"@);
    lemma_eq_ignore_case_is_lower(ext, "jpeg"@);
    lemma_eq_ignore_case_is_lower(ext, "png"@);
    lemma_eq_ignore_case_is_lower(l, "pdf"@);
    lemma_eq_ignore_case_is_lower(l, "jpg"@);
    lemma_eq_ignore_case_is_lower(l, "jpeg"@);
    lemma_eq_ignore_case_is_lower(l, "png"@);
}

/// The kind of a file by its extension; see `merge_kind`.
pub fn classify_merge_file(ext: &str) -> (k: MergeFileKind)
    ensures
        k == merge_kind(ext@),
{
    if eq_ignoring_case(ext, "pdf") {
        MergeFileKind::Pdf
    } else if eq_ignoring_case(ext, "jpg") || eq_ignoring_case(ext, "jpeg") || eq_ignoring_case(ext, "png") {
        MergeFileKind::Image
    } else {
        MergeFileKind::Skipped
    }
}

/// Whether a file dropped on the window opens as a PDF: its extension is
/// `pdf` in any case.
pub fn is_pdf_extension(ext: &str) -> (b: bool)
    ensures
        b == eq_ignore_case(ext@, "pdf"@),
{
    eq_ignoring_case(ext, "pdf")
}

/// Whether a file name ends in `.pdf`, ignoring case (the merge list shows
/// such files with a document icon, others with a picture icon).
pub fn has_pdf_name(name: &str) -> (b: bool)
    ensures
        b == (name@.len() >= 4 && eq_ignore_case(name@.skip(name@.len() - 4), ".pdf"@)),
{
    let n = chars_of(name);
    if n.len() < 4 {
        return false;
    }
    let tail = crate::text::slice_chars(&n, n.len() - 4, n.len());
    assert(tail@ =~= name@.skip(name@.len() - 4));
    let t = string_of(&tail);
    eq_ignoring_case(t.as_str(), ".pdf")
}

// ---------------------------------------------------------------------------
// Cropping
// ---------------------------------------------------------------------------

/// The crop rectangle `(x, y, w, h)` kept on an image of `img_w` by `img_h`
/// pixels: the corner moved onto the image, the size cut to what remains;
/// nothing when that leaves no pixel.
pub open spec fn crop_rect(img_w: u32, img_h: u32, x: u32, y: u32, w: u32, h: u32) -> Option<(u32, u32, u32, u32)> {
    let max_x: u32 = if img_w > 0 { (img_w - 1) as u32 } else { 0 };
    let max_y: u32 = if img_h > 0 { (img_h - 1) as u32 } else { 0 };
    let cx: u32 = if x < max_x { x } else { max_x };
    let cy: u32 = if y < max_y { y } else { max_y };
    let cw: u32 = if w < img_w - cx { w } else { (img_w - cx) as u32 };
    let ch: u32 = if h < img_h - cy { h } else { (img_h - cy) as u32 };
    if cw > 0 && ch > 0 {
        Some((cx, cy, cw, ch))
    } else {
        None
    }
}

/// The crop rectangle kept on the rendered page; see `crop_rect`. A kept
/// rectangle lies on the image.
pub fn clamp_crop(img_w: u32, img_h: u32, x: u32, y: u32, w: u32, h: u32) -> (r: Option<(u32, u32, u32, u32)>)
    ensures
        r == crop_rect(img_w, img_h, x, y, w, h),
        r matches Some((cx, cy, cw, ch)) ==> cx + cw <= img_w && cy + ch <= img_h,
{
    let max_x = if img_w > 0 { img_w - 1 } else { 0 };
    let max_y = if img_h > 0 { img_h - 1 } else { 0 };
    let cx = if x < max_x { x } else { max_x };
    let cy = if y < max_y { y } else { max_y };
    let cw = if w < img_w - cx { w } else { img_w - cx };
    let ch = if h < img_h - cy { h } else { img_h - cy };
    if cw > 0 && ch > 0 && cx as u64 + cw as u64 <= img_w as u64 && cy as u64 + ch as u64 <= img_h as u64 {
        Some((cx, cy, cw, ch))
    } else {
        None
    }
}

// ---------------------------------------------------------------------------
// Choosing a crop DPI
// ---------------------------------------------------------------------------

/// What an object on a page is, as the DPI guess sees it.
#[derive(Clone, Copy, PartialEq, Eq, Structural, Debug)]
pub enum PageObjectKind {
    Text,
    Path,
    /// An image, and whether it covers more than nine tenths of the page.
    Image(bool),
    Other,
}

/// The number of objects of `objs` that `f` holds for.
pub open spec fn count_where(objs: Seq<PageObjectKind>, f: spec_fn(PageObjectKind) -> bool) -> int
    decreases objs.len(),
{
    if objs.len() == 0 {
        0
    } else {
        count_where(objs.drop_last(), f) + if f(objs.last()) { 1int } else { 0 }
    }
}

/// The number of text objects.
pub open spec fn text_count(objs: Seq<PageObjectKind>) -> int {
    count_where(objs, |o: PageObjectKind| o == PageObjectKind::Text)
}

/// The number of path objects.
pub open spec fn path_count(objs: Seq<PageObjectKind>) -> int {
    count_where(objs, |o: PageObjectKind| o == PageObjectKind::Path)
}

/// The number of images.
pub open spec fn image_count(objs: Seq<PageObjectKind>) -> int {
    count_where(objs, |o: PageObjectKind| o is Image)
}

/// The number of images that cover the page.
pub open spec fn full_page_image_count(objs: Seq<PageObjectKind>) -> int {
    count_where(objs, |o: PageObjectKind| o == PageObjectKind::Image(true))
}

/// The vector evidence of a page: 50 for more than 10 characters of text,
/// 100 more for more than 200, 5 per text object, and 20 per path object
/// beyond the twentieth.
pub open spec fn vector_score(text_len: int, objs: Seq<PageObjectKind>) -> int {
    (if text_len > 10 { 50int } else { 0 }) + (if text_len > 200 { 100int } else { 0 }) + 5 * text_count(objs)
        + 20 * (if path_count(objs) > 20 { path_count(objs) - 20 } else { 0 })
}

/// The DPI suggested for crops of a page: 300 for a page without area, or
/// that looks scanned (an image covers it, with fewer than 20 characters of
/// text and fewer than 10 paths); 600 for one with enough vector evidence
/// (a score above 40) or with images none of which covers it; else 300.
/// `text_len` is the length in bytes of the page text without surrounding
/// whitespace.
pub open spec fn suggested_dpi(has_area: bool, text_len: int, objs: Seq<PageObjectKind>) -> u32 {
    if !has_area {
        300
    } else if full_page_image_count(objs) > 0 && text_len < 20 && path_count(objs) < 10 {
        300
    } else if vector_score(text_len, objs) > 40 || (image_count(objs) > 0 && full_page_image_count(objs) == 0) {
        600
    } else {
        300
    }
}

proof fn lemma_counts_bounded(objs: Seq<PageObjectKind>)
    ensures
        0 <= text_count(objs) <= objs.len(),
        0 <= path_count(objs) <= objs.len(),
        0 <= image_count(objs) <= objs.len(),
        0 <= full_page_image_count(objs) <= image_count(objs),
        text_count(objs) + path_count(objs) <= objs.len(),
    decreases objs.len(),
{
    if objs.len() > 0 {
        lemma_counts_bounded(objs.drop_last());
    }
}

/// The UTF-8 length of the page text without surrounding whitespace.
pub fn trimmed_text_len(text: Option<&str>) -> (n: usize)
    ensures
        n == match text {
            Some(t) => vstd::utf8::encode_utf8(trim(t@)).len() as usize,
            None => 0usize,
        },
{
    match text {
        Some(t) => {
            let s = trim_str(t);
            s.as_str().len()
        },
        None => 0,
    }
}

/// The vector score of a page and its path and image counts fit an `i32`,
/// in which the score is kept.
pub open spec fn score_fits(text_len: int, objs: Seq<PageObjectKind>) -> bool {
    &&& vector_score(text_len, objs) <= i32::MAX
    &&& path_count(objs) <= i32::MAX
    &&& image_count(objs) <= i32::MAX
}

proof fn lemma_prefix_counts(objs: Seq<PageObjectKind>, i: int)
    requires
        0 <= i <= objs.len(),
    ensures
        text_count(objs.take(i)) <= text_count(objs),
        path_count(objs.take(i)) <= path_count(objs),
        image_count(objs.take(i)) <= image_count(objs),
    decreases objs.len(),
{
    if i < objs.len() {
        lemma_prefix_counts(objs.drop_last(), i);
        assert(objs.drop_last().take(i) =~= objs.take(i));
    } else {
        assert(objs.take(i) =~= objs);
    }
}

/// Whether a page's score and counts fit, as `suggest_page_dpi` needs of a
/// page with area.
pub fn page_score_fits(text_len: usize, objs: &[PageObjectKind]) -> (r: bool)
    ensures
        r == score_fits(text_len as int, objs@),
{
    let mut texts: u64 = 0;
    let mut paths: u64 = 0;
    let mut images: u64 = 0;
    let mut i: usize = 0;
    while i < objs.len()
        invariant
            i <= objs@.len(),
            texts == text_count(objs@.take(i as int)),
            paths == path_count(objs@.take(i as int)),
            images == image_count(objs@.take(i as int)),
            texts + paths <= i,
            images <= i,
        decreases objs.len() - i,
    {
        let o = objs[i];
        proof {
            assert(objs@.take(i + 1).drop_last() =~= objs@.take(i as int));
            assert(objs@.take(i + 1).last() == o);
            lemma_counts_bounded(objs@.take(i as int));
        }
        match o {
            PageObjectKind::Text => {
                texts += 1;
            },
            PageObjectKind::Path => {
                paths += 1;
            },
            PageObjectKind::Image(_) => {
                images += 1;
            },
            PageObjectKind::Other => {},
        }
        i += 1;
    }
    assert(objs@.take(i as int) =~= objs@);
    let base: u128 = if text_len > 10 { 50 } else { 0 } + if text_len > 200 { 100 } else { 0 };
    let extra: u128 = if paths > 20 { (paths - 20) as u128 } else { 0 };
    let score: u128 = base + 5 * (texts as u128) + 20 * extra;
    score <= 2147483647 && paths <= 2147483647 && images <= 2147483647
}

/// The DPI suggested for crops of a page; see `suggested_dpi`.
pub fn suggest_page_dpi(has_area: bool, text_len: usize, objs: &[PageObjectKind]) -> (dpi: u32)
    requires
        has_area ==> score_fits(text_len as int, objs@),
    ensures
        dpi == suggested_dpi(has_area, text_len as int, objs@),
{
    if !has_area {
        return 300;
    }
    let mut score: i32 = 0;
    if text_len > 10 {
        score += 50;
    }
    if text_len > 200 {
        score += 100;
    }
    let mut has_full_page_img = false;
    let mut paths: i32 = 0;
    let mut images: i32 = 0;
    let mut texts: i32 = 0;
    let mut i: usize = 0;
    while i < objs.len()
        invariant
            i <= objs@.len(),
            score_fits(text_len as int, objs@),
            texts == text_count(objs@.take(i as int)),
            paths == path_count(objs@.take(i as int)),
            images == image_count(objs@.take(i as int)),
            has_full_page_img == (full_page_image_count(objs@.take(i as int)) > 0),
            score == (if text_len > 10 { 50int } else { 0 }) + (if text_len > 200 { 100int } else { 0 }) + 5 * texts
                + 20 * (if paths > 20 { paths - 20 } else { 0 }),
            texts + paths <= i,
            images <= i,
        decreases objs.len() - i,
    {
        let o = objs[i];
        proof {
            assert(objs@.take(i + 1).drop_last() =~= objs@.take(i as int));
            assert(objs@.take(i + 1).last() == o);
            lemma_counts_bounded(objs@.take(i as int));
            lemma_counts_bounded(objs@.take(i + 1));
            lemma_prefix_counts(objs@, i + 1);
        }
        match o {
            PageObjectKind::Text => {
                score += 5;
                texts += 1;
            },
            PageObjectKind::Path => {
                paths += 1;
                if paths > 20 {
                    score += 20;
                }
            },
            PageObjectKind::Image(covers) => {
                images += 1;
                if covers {
                    has_full_page_img = true;
                }
            },
            PageObjectKind::Other => {},
        }
        i += 1;
    }
    assert(objs@.take(i as int) =~= objs@);
    assert(score == vector_score(text_len as int, objs@));
    assert(has_full_page_img == (full_page_image_count(objs@) > 0));
    assert(images == image_count(objs@));
    assert(paths == path_count(objs@));
    if has_full_page_img && text_len < 20 && paths < 10 {
        return 300;
    }
    if score > 40 || (images > 0 && !has_full_page_img) {
        proof {
            lemma_counts_bounded(objs@);
        }
        return 600;
    }
    300
}

// ---------------------------------------------------------------------------
// Reloading a changed file
// ---------------------------------------------------------------------------

/// How many times a changed document is reloaded before giving up.
pub const RELOAD_ATTEMPTS: u8 = 10;

/// The reload attempts left after one attempt: none after a success, one
/// fewer after a failure.
pub fn after_reload_attempt(attempts_left: u8, loaded: bool) -> (left: u8)
    requires
        attempts_left > 0,
    ensures
        left == if loaded { 0 } else { attempts_left - 1 },
{
    if loaded {
        0
    } else {
        attempts_left - 1
    }
}

} // verus!
