use vectorsnap::export::{
    after_reload_attempt, clamp_crop, classify_merge_file, eq_ignoring_case, has_pdf_name,
    is_jpeg_extension, is_jpeg_extension_any_case, is_pdf_extension, page_export_name,
    page_score_fits, snapshot_name, suggest_page_dpi, trimmed_text_len, window_title, MergeFileKind,
    PageObjectKind, RELOAD_ATTEMPTS,
};
use vectorsnap::text::{is_blank, trim_str};

#[test]
fn page_export_names() {
    assert_eq!(page_export_name(Some("paper"), 0, "png"), "paper_Page_1.png");
    assert_eq!(page_export_name(None, 41, "jpg"), "Document_Page_42.jpg");
}

#[test]
fn snapshot_names() {
    assert_eq!(
        snapshot_name(Some("notes"), "Snap", "20240101_120000", "png"),
        "notes_Snap_20240101_120000.png"
    );
    assert_eq!(snapshot_name(None, "Crop", "t", "pdf"), "Document_Crop_t.pdf");
}

#[test]
fn window_titles() {
    assert_eq!(window_title(Some("thesis")), "thesis");
    assert_eq!(window_title(None), "VectorSnap");
}

#[test]
fn case_insensitive_comparison() {
    assert!(eq_ignoring_case("PdF", "pdf"));
    assert!(!eq_ignoring_case("pdfx", "pdf"));
    assert!(!eq_ignoring_case("pdg", "pdf"));
    assert!(eq_ignoring_case("", ""));
}

#[test]
fn jpeg_extensions() {
    assert!(is_jpeg_extension("jpg"));
    assert!(is_jpeg_extension("jpeg"));
    assert!(!is_jpeg_extension("JPG"));
    assert!(!is_jpeg_extension("png"));
    assert!(is_jpeg_extension_any_case("JPG"));
    assert!(is_jpeg_extension_any_case("JpEg"));
    assert!(!is_jpeg_extension_any_case("pdf"));
}

#[test]
fn merge_file_kinds() {
    assert_eq!(classify_merge_file("PDF"), MergeFileKind::Pdf);
    assert_eq!(classify_merge_file("png"), MergeFileKind::Image);
    assert_eq!(classify_merge_file("Jpeg"), MergeFileKind::Image);
    assert_eq!(classify_merge_file("jpg"), MergeFileKind::Image);
    assert_eq!(classify_merge_file("gif"), MergeFileKind::Skipped);
    assert_eq!(classify_merge_file(""), MergeFileKind::Skipped);
}

#[test]
fn pdf_names_and_extensions() {
    assert!(is_pdf_extension("pdf"));
    assert!(is_pdf_extension("PDF"));
    assert!(!is_pdf_extension("pdfs"));
    assert!(has_pdf_name("Report.PDF"));
    assert!(has_pdf_name(".pdf"));
    assert!(!has_pdf_name("pdf"));
    assert!(!has_pdf_name("photo.png"));
}

#[test]
fn crop_inside_image_is_kept() {
    assert_eq!(clamp_crop(100, 80, 10, 20, 30, 40), Some((10, 20, 30, 40)));
}

#[test]
fn crop_cut_at_image_edge() {
    assert_eq!(clamp_crop(100, 80, 90, 70, 30, 40), Some((90, 70, 10, 10)));
    assert_eq!(clamp_crop(100, 80, 500, 500, 30, 40), Some((99, 79, 1, 1)));
}

#[test]
fn empty_crop_is_dropped() {
    assert_eq!(clamp_crop(100, 80, 10, 10, 0, 5), None);
    assert_eq!(clamp_crop(0, 0, 0, 0, 5, 5), None);
}

#[test]
fn dpi_for_page_without_area() {
    assert_eq!(suggest_page_dpi(false, 1000, &[PageObjectKind::Text]), 300);
}

#[test]
fn dpi_for_scanned_page() {
    assert_eq!(suggest_page_dpi(true, 5, &[PageObjectKind::Image(true)]), 300);
}

#[test]
fn dpi_for_text_page() {
    assert_eq!(suggest_page_dpi(true, 11, &[]), 600);
    assert_eq!(suggest_page_dpi(true, 10, &[]), 300);
}

#[test]
fn dpi_for_text_objects() {
    let objs = vec![PageObjectKind::Text; 9];
    assert_eq!(suggest_page_dpi(true, 0, &objs), 600);
    let objs = vec![PageObjectKind::Text; 8];
    assert_eq!(suggest_page_dpi(true, 0, &objs), 300);
}

#[test]
fn dpi_for_many_paths() {
    let objs = vec![PageObjectKind::Path; 23];
    assert_eq!(suggest_page_dpi(true, 0, &objs), 600);
    let objs = vec![PageObjectKind::Path; 22];
    assert_eq!(suggest_page_dpi(true, 0, &objs), 300);
}

#[test]
fn dpi_for_small_images() {
    assert_eq!(suggest_page_dpi(true, 0, &[PageObjectKind::Image(false), PageObjectKind::Other]), 600);
}

#[test]
fn dpi_for_scan_with_text_layer() {
    let objs = [PageObjectKind::Image(true), PageObjectKind::Image(false)];
    assert_eq!(suggest_page_dpi(true, 25, &objs), 600);
    assert_eq!(suggest_page_dpi(true, 15, &objs), 300);
}

#[test]
fn page_text_length_is_trimmed_bytes() {
    assert_eq!(trimmed_text_len(None), 0);
    assert_eq!(trimmed_text_len(Some("  abc \n")), 3);
    assert_eq!(trimmed_text_len(Some(" 公式 ")), 6);
}

#[test]
fn reload_attempts_count_down() {
    assert_eq!(RELOAD_ATTEMPTS, 10);
    assert_eq!(after_reload_attempt(RELOAD_ATTEMPTS, false), 9);
    assert_eq!(after_reload_attempt(1, false), 0);
    assert_eq!(after_reload_attempt(7, true), 0);
}

#[test]
fn trimming_text() {
    assert_eq!(trim_str("\u{3000} a b \t\n"), "a b");
    assert!(is_blank(" \r\n"));
    assert!(!is_blank(" x "));
}

#[test]
fn ordinary_page_score_fits() {
    let objs = vec![PageObjectKind::Text, PageObjectKind::Path, PageObjectKind::Image(false)];
    assert!(page_score_fits(500, &objs));
    assert!(page_score_fits(0, &[]));
    assert_eq!(suggest_page_dpi(true, 500, &objs), 600);
}
