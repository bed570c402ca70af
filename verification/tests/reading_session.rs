use vectorsnap::history::{AppHistory, MAX_RECORDS};
use vectorsnap::reader::{PageAction, PageRotation, Reader, RotationStep};

fn history_pages(h: &AppHistory) -> Vec<(String, usize)> {
    let mut e = h.entries();
    e.sort();
    e
}

#[test]
fn history_records_and_restores() {
    let mut h = AppHistory::new();
    assert_eq!(h.restore_page("/a.pdf"), 0);
    assert_eq!(h.last_page("/a.pdf"), None);
    h.record_visit("/a.pdf", 7);
    assert_eq!(h.restore_page("/a.pdf"), 7);
    assert_eq!(h.last_page("/a.pdf"), Some(7));
    assert_eq!(h.order(), vec!["/a.pdf".to_string()]);
}

#[test]
fn history_visit_moves_path_to_most_recent() {
    let mut h = AppHistory::new();
    h.record_visit("/a.pdf", 1);
    h.record_visit("/b.pdf", 2);
    h.record_visit("/a.pdf", 3);
    assert_eq!(h.order(), vec!["/b.pdf".to_string(), "/a.pdf".to_string()]);
    assert_eq!(h.restore_page("/a.pdf"), 3);
    assert_eq!(h.restore_page("/b.pdf"), 2);
}

#[test]
fn history_forgets_oldest_beyond_limit() {
    let mut h = AppHistory::new();
    for i in 0..(MAX_RECORDS + 2) {
        h.record_visit(&format!("/doc{}.pdf", i), i);
    }
    let order = h.order();
    assert_eq!(order.len(), MAX_RECORDS);
    assert_eq!(order[0], "/doc2.pdf");
    assert_eq!(order[MAX_RECORDS - 1], format!("/doc{}.pdf", MAX_RECORDS + 1));
    assert_eq!(h.last_page("/doc0.pdf"), None);
    assert_eq!(h.last_page("/doc1.pdf"), None);
    assert_eq!(h.last_page("/doc2.pdf"), Some(2));
    assert_eq!(h.entries().len(), MAX_RECORDS);
}

#[test]
fn history_set_and_forget_pages() {
    let mut h = AppHistory::new();
    h.set_last_page("/x.pdf", 4);
    h.set_last_page("/y.pdf", 5);
    h.set_last_page("/x.pdf", 6);
    assert_eq!(history_pages(&h), vec![("/x.pdf".to_string(), 6), ("/y.pdf".to_string(), 5)]);
    assert!(h.order().is_empty());
    h.forget_page("/x.pdf");
    assert_eq!(history_pages(&h), vec![("/y.pdf".to_string(), 5)]);
    h.set_order(vec!["/y.pdf".to_string()]);
    assert_eq!(h.order(), vec!["/y.pdf".to_string()]);
}

#[test]
fn reopening_resumes_where_left() {
    let mut r = Reader::new(AppHistory::new());
    assert!(r.open_document("/a.pdf", 20));
    assert_eq!(r.current_page(), 0);
    r.navigate(PageAction::GotoPage(12));
    assert_eq!(r.current_page(), 12);
    assert!(r.open_document("/b.pdf", 5));
    assert_eq!(r.current_page(), 0);
    r.navigate(PageAction::NextPage);
    assert!(r.open_document("/a.pdf", 20));
    assert_eq!(r.current_page(), 12);
    assert_eq!(r.history().restore_page("/b.pdf"), 1);
}

#[test]
fn reopening_a_shorter_document_cuts_the_page() {
    let mut r = Reader::new(AppHistory::new());
    r.open_document("/a.pdf", 20);
    r.navigate(PageAction::LastPage);
    r.close_document();
    assert_eq!(r.path(), None);
    assert_eq!(r.history().restore_page("/a.pdf"), 19);
    r.open_document("/a.pdf", 10);
    assert_eq!(r.current_page(), 9);
}

#[test]
fn reloading_keeps_page() {
    let mut r = Reader::new(AppHistory::new());
    r.open_document("/a.pdf", 20);
    r.navigate(PageAction::GotoPage(5));
    assert!(!r.open_document("/a.pdf", 20));
    assert_eq!(r.current_page(), 5);
    assert_eq!(r.history().last_page("/a.pdf"), None);
    r.open_document("/a.pdf", 3);
    assert_eq!(r.current_page(), 2);
}

#[test]
fn record_position_needs_open_document() {
    let mut r = Reader::new(AppHistory::new());
    assert!(!r.record_current_position());
    r.open_document("/a.pdf", 4);
    r.navigate(PageAction::NextPage);
    assert!(r.record_current_position());
    assert_eq!(r.history().last_page("/a.pdf"), Some(1));
}

#[test]
fn navigation_moves() {
    let mut r = Reader::new(AppHistory::new());
    r.open_document("/a.pdf", 30);
    assert!(!r.navigate(PageAction::PrevPage));
    assert!(r.navigate(PageAction::Next10Pages));
    assert_eq!(r.current_page(), 10);
    r.navigate(PageAction::Next10Pages);
    r.navigate(PageAction::Next10Pages);
    assert_eq!(r.current_page(), 29);
    assert!(!r.navigate(PageAction::NextPage));
    r.navigate(PageAction::Prev10Pages);
    assert_eq!(r.current_page(), 19);
    r.navigate(PageAction::PrevPage);
    assert_eq!(r.current_page(), 18);
    r.navigate(PageAction::FirstPage);
    assert_eq!(r.current_page(), 0);
    r.navigate(PageAction::GotoPage(1000));
    assert_eq!(r.current_page(), 29);
    r.navigate(PageAction::Prev10Pages);
    r.navigate(PageAction::Prev10Pages);
    r.navigate(PageAction::Prev10Pages);
    assert_eq!(r.current_page(), 0);
}

#[test]
fn navigation_without_document() {
    let mut r = Reader::new(AppHistory::new());
    assert!(!r.navigate(PageAction::NextPage));
    assert!(!r.navigate(PageAction::LastPage));
    assert!(!r.navigate(PageAction::GotoPage(3)));
    assert_eq!(r.current_page(), 0);
}

#[test]
fn display_page_and_links() {
    let mut r = Reader::new(AppHistory::new());
    r.open_document("/a.pdf", 8);
    r.set_display_page(3);
    assert_eq!(r.current_page(), 2);
    r.follow_link(6);
    assert_eq!(r.current_page(), 6);
    r.follow_link(50);
    assert_eq!(r.current_page(), 7);
}

#[test]
fn rotation_steps_and_round_trip() {
    let mut r = Reader::new(AppHistory::new());
    r.open_document("/a.pdf", 3);
    r.navigate(PageAction::GotoPage(1));
    r.rotate_current_page(RotationStep::Clockwise);
    assert_eq!(r.rotation_of(1), 90);
    assert_eq!(r.rotation_of(0), 0);
    assert_eq!(r.render_rotation(1), PageRotation::Degrees90);
    assert!(r.is_page_sideways(1));
    assert!(!r.is_page_sideways(0));
    r.rotate_current_page(RotationStep::CounterClockwise);
    assert_eq!(r.rotation_of(1), 0);
    r.rotate_current_page(RotationStep::CounterClockwise);
    assert_eq!(r.rotation_of(1), -90);
    assert_eq!(r.render_rotation(1), PageRotation::Degrees270);
    r.rotate_current_page(RotationStep::CounterClockwise);
    assert_eq!(r.rotation_of(1), -180);
    assert_eq!(r.render_rotation(1), PageRotation::Degrees180);
    assert!(!r.is_page_sideways(1));
}

#[test]
fn four_quarter_turns_are_a_full_turn() {
    let mut r = Reader::new(AppHistory::new());
    r.open_document("/a.pdf", 1);
    for _ in 0..4 {
        r.rotate_current_page(RotationStep::Clockwise);
    }
    assert_eq!(r.rotation_of(0), 0);
    assert_eq!(r.render_rotation(0), PageRotation::Degrees0);
}

#[test]
fn rotation_without_document_does_nothing() {
    let mut r = Reader::new(AppHistory::new());
    r.rotate_current_page(RotationStep::Clockwise);
    assert_eq!(r.rotation_of(0), 0);
}

#[test]
fn opening_resets_rotations() {
    let mut r = Reader::new(AppHistory::new());
    r.open_document("/a.pdf", 2);
    r.rotate_current_page(RotationStep::Clockwise);
    r.open_document("/a.pdf", 2);
    assert_eq!(r.rotation_of(0), 0);
}

#[test]
fn history_recording_twice_is_recording_once() {
    let mut once = AppHistory::new();
    once.record_visit("/a.pdf", 1);
    once.record_visit("/b.pdf", 4);
    let mut twice = AppHistory::new();
    twice.record_visit("/a.pdf", 1);
    twice.record_visit("/b.pdf", 4);
    twice.record_visit("/b.pdf", 4);
    assert_eq!(once.order(), twice.order());
    assert_eq!(history_pages(&once), history_pages(&twice));
}

#[test]
fn history_order_matches_recorded_paths() {
    let mut h = AppHistory::new();
    for (i, p) in ["/a.pdf", "/b.pdf", "/a.pdf", "/c.pdf", "/b.pdf"].iter().enumerate() {
        h.record_visit(p, i);
    }
    let mut order = h.order();
    assert_eq!(order, vec!["/a.pdf".to_string(), "/c.pdf".to_string(), "/b.pdf".to_string()]);
    order.sort();
    let keys: Vec<String> = history_pages(&h).into_iter().map(|(k, _)| k).collect();
    assert_eq!(order, keys);
}
