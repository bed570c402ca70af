use vectorsnap::export::range_export_name;
use vectorsnap::page_range::{generate_range_string, pages_to_delete, parse_page_range};

#[test]
fn parse_mixed_selection() {
    assert_eq!(parse_page_range("1-5, 8, 12", 20), vec![0, 1, 2, 3, 4, 7, 11]);
}

#[test]
fn parse_reversed_range() {
    assert_eq!(parse_page_range("10-7", 20), vec![6, 7, 8, 9]);
}

#[test]
fn parse_range_cut_to_document() {
    assert_eq!(parse_page_range("0-3", 2), vec![0, 1]);
    assert_eq!(parse_page_range("4-9", 6), vec![3, 4, 5]);
}

#[test]
fn parse_full_width_separators() {
    assert_eq!(parse_page_range("1，3；5;7—8", 10), vec![0, 2, 4, 6, 7]);
}

#[test]
fn parse_skips_pages_outside_document() {
    assert_eq!(parse_page_range("abc, 0, 25, 3", 10), vec![2]);
}

#[test]
fn parse_sorts_and_removes_duplicates() {
    assert_eq!(parse_page_range("5, 2,2,1-3", 5), vec![0, 1, 2, 4]);
}

#[test]
fn parse_drops_other_characters() {
    assert_eq!(parse_page_range("p. 1 2", 20), vec![11]);
}

#[test]
fn parse_numbers_too_large_name_nothing() {
    assert_eq!(parse_page_range("70000", 100), Vec::<u16>::new());
    assert_eq!(parse_page_range("1-70000", 100), Vec::<u16>::new());
}

#[test]
fn parse_incomplete_ranges_name_nothing() {
    assert_eq!(parse_page_range("-3, 4-", 10), Vec::<u16>::new());
}

#[test]
fn parse_extra_hyphens_use_first_two_numbers() {
    assert_eq!(parse_page_range("1-3-5", 10), vec![0, 1, 2]);
}

#[test]
fn parse_empty_document_or_text() {
    assert_eq!(parse_page_range("1-3", 0), Vec::<u16>::new());
    assert_eq!(parse_page_range("", 10), Vec::<u16>::new());
}

#[test]
fn range_label_of_runs() {
    assert_eq!(generate_range_string(&[0, 1, 2, 4]), "1-3_5");
    assert_eq!(generate_range_string(&[0, 2, 3, 7, 8, 9]), "1_3-4_8-10");
}

#[test]
fn range_label_of_single_and_none() {
    assert_eq!(generate_range_string(&[3]), "4");
    assert_eq!(generate_range_string(&[]), "");
}

#[test]
fn range_label_follows_given_order() {
    assert_eq!(generate_range_string(&[5, 4]), "6_5");
}

#[test]
fn range_label_of_parsed_selection() {
    let pages = parse_page_range("5, 1-3", 10);
    assert_eq!(generate_range_string(&pages), "1-3_5");
}

#[test]
fn range_export_file_name() {
    assert_eq!(range_export_name(Some("paper"), &[0, 1, 2, 4]), "paper_1-3_5.pdf");
    assert_eq!(range_export_name(None, &[9]), "Document_10.pdf");
}

#[test]
fn pages_to_delete_descending_complement() {
    assert_eq!(pages_to_delete(5, &[1, 3]), vec![4, 2, 0]);
    assert_eq!(pages_to_delete(3, &[0, 1, 2]), Vec::<u16>::new());
    assert_eq!(pages_to_delete(0, &[]), Vec::<u16>::new());
}

#[test]
fn parsed_pages_lie_in_document() {
    for p in parse_page_range("1-100, 3, 40-2", 37) {
        assert!(p < 37);
    }
    assert_eq!(parse_page_range("1-100", 3), vec![0, 1, 2]);
}

#[test]
fn deleting_listed_pages_leaves_selection() {
    let keep = parse_page_range("2, 4-5, 9", 10);
    let mut pages: Vec<u16> = (0..10).collect();
    for i in pages_to_delete(10, &keep) {
        pages.remove(i as usize);
    }
    assert_eq!(pages, keep);
    assert_eq!(pages, vec![1, 3, 4, 8]);
}

#[test]
fn joined_selection_is_union_of_parts() {
    let a = parse_page_range("1-3", 10);
    let b = parse_page_range("7", 10);
    let joined = parse_page_range("1-3,7", 10);
    assert_eq!(a, vec![0, 1, 2]);
    assert_eq!(b, vec![6]);
    assert_eq!(joined, vec![0, 1, 2, 6]);
    assert_eq!(parse_page_range("7,1-3", 10), joined);
}

#[test]
fn larger_document_only_adds_pages() {
    assert_eq!(parse_page_range("2-6,9", 4), vec![1, 2, 3]);
    assert_eq!(parse_page_range("2-6,9", 12), vec![1, 2, 3, 4, 5, 8]);
}

#[test]
fn range_label_parses_back() {
    let indices: Vec<u16> = vec![0, 1, 2, 5, 7, 8, 11];
    let label = generate_range_string(&indices);
    assert_eq!(label, "1-3_6_8-9_12");
    assert_eq!(parse_page_range(&label.replace('_', ","), 12), indices);
    assert_eq!(parse_page_range(&generate_range_string(&[]).replace('_', ","), 12), Vec::<u16>::new());
}
