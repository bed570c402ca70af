use vectorsnap::shortcuts::{close_topmost, toggle_ocr_panel, GotoPrefix, KeyInput, Panels, ShortcutAction};

fn digit(d: u8) -> KeyInput {
    KeyInput { plain_digit: Some(d), ..KeyInput::none() }
}

fn g() -> KeyInput {
    KeyInput { plain_g: true, ..KeyInput::none() }
}

fn step(p: &mut GotoPrefix, k: KeyInput) -> (ShortcutAction, bool) {
    p.step(k, false, false, false)
}

#[test]
fn count_then_gg_goes_to_page() {
    let mut p = GotoPrefix::new();
    assert_eq!(step(&mut p, digit(2)), (ShortcutAction::Nothing, false));
    assert_eq!(step(&mut p, digit(5)), (ShortcutAction::Nothing, false));
    assert_eq!(step(&mut p, g()), (ShortcutAction::Nothing, true));
    assert!(p.pending_g());
    assert_eq!(step(&mut p, g()), (ShortcutAction::GotoPage(24), false));
    assert!(!p.pending_g());
    assert_eq!(step(&mut p, g()), (ShortcutAction::Nothing, true));
    assert_eq!(step(&mut p, g()), (ShortcutAction::FirstPage, false));
}

#[test]
fn gg_without_count_goes_to_first_page() {
    let mut p = GotoPrefix::new();
    step(&mut p, g());
    assert_eq!(step(&mut p, g()), (ShortcutAction::FirstPage, false));
}

#[test]
fn zero_without_count_goes_to_first_page() {
    let mut p = GotoPrefix::new();
    assert_eq!(step(&mut p, digit(0)), (ShortcutAction::FirstPage, false));
    step(&mut p, g());
    assert_eq!(step(&mut p, g()), (ShortcutAction::FirstPage, false));
}

#[test]
fn zero_after_count_goes_to_first_page() {
    let mut p = GotoPrefix::new();
    step(&mut p, digit(1));
    assert_eq!(step(&mut p, digit(0)), (ShortcutAction::FirstPage, false));
    step(&mut p, g());
    assert_eq!(step(&mut p, g()), (ShortcutAction::FirstPage, false));
}

#[test]
fn caret_typed_as_shift_six_wins_over_the_six() {
    let mut p = GotoPrefix::new();
    step(&mut p, digit(3));
    let shift_six = KeyInput { caret_typed: true, shift: true, plain_digit: Some(6), ..KeyInput::none() };
    assert_eq!(step(&mut p, shift_six), (ShortcutAction::FirstPage, false));
    step(&mut p, g());
    assert_eq!(step(&mut p, g()), (ShortcutAction::FirstPage, false));
}

#[test]
fn caret_goes_to_first_page() {
    let mut p = GotoPrefix::new();
    let caret = KeyInput { caret_typed: true, ..KeyInput::none() };
    assert_eq!(step(&mut p, caret), (ShortcutAction::FirstPage, false));
}

#[test]
fn late_second_g_starts_over() {
    let mut p = GotoPrefix::new();
    step(&mut p, digit(7));
    step(&mut p, g());
    assert_eq!(p.step(g(), true, false, false), (ShortcutAction::Nothing, true));
    assert_eq!(step(&mut p, g()), (ShortcutAction::FirstPage, false));
}

#[test]
fn digit_after_first_g_cancels_it() {
    let mut p = GotoPrefix::new();
    step(&mut p, g());
    step(&mut p, digit(3));
    assert!(!p.pending_g());
    step(&mut p, g());
    assert_eq!(step(&mut p, g()), (ShortcutAction::GotoPage(2), false));
}

#[test]
fn huge_count_does_nothing() {
    let mut p = GotoPrefix::new();
    for _ in 0..30 {
        step(&mut p, digit(9));
    }
    step(&mut p, g());
    assert_eq!(step(&mut p, g()), (ShortcutAction::Nothing, false));
}

#[test]
fn movement_clears_count() {
    let mut p = GotoPrefix::new();
    step(&mut p, digit(5));
    let j = KeyInput { plain_j: true, j_pressed: true, ..KeyInput::none() };
    assert_eq!(step(&mut p, j), (ShortcutAction::NextPage, false));
    step(&mut p, g());
    assert_eq!(step(&mut p, g()), (ShortcutAction::FirstPage, false));
}

#[test]
fn click_clears_count() {
    let mut p = GotoPrefix::new();
    step(&mut p, digit(5));
    let click = KeyInput { pointer_pressed: true, ..KeyInput::none() };
    assert_eq!(step(&mut p, click), (ShortcutAction::Nothing, false));
    step(&mut p, g());
    assert_eq!(step(&mut p, g()), (ShortcutAction::FirstPage, false));
}

#[test]
fn shift_g_goes_to_last_page_and_clears() {
    let mut p = GotoPrefix::new();
    step(&mut p, digit(4));
    let sg = KeyInput { shift_g: true, shift: true, ..KeyInput::none() };
    assert_eq!(step(&mut p, sg), (ShortcutAction::LastPage, false));
    step(&mut p, g());
    assert_eq!(step(&mut p, g()), (ShortcutAction::FirstPage, false));
}

#[test]
fn focused_text_field_takes_keys() {
    let mut p = GotoPrefix::new();
    assert_eq!(p.step(digit(4), false, true, false), (ShortcutAction::Nothing, false));
    assert_eq!(p.step(g(), false, true, false), (ShortcutAction::Nothing, false));
    assert!(!p.pending_g());
    let plus = KeyInput { plain_plus: true, ..KeyInput::none() };
    assert_eq!(p.step(plus, false, true, false), (ShortcutAction::Nothing, false));
    let ctrl_plus = KeyInput { ctrl: true, plus_pressed: true, ..KeyInput::none() };
    assert_eq!(p.step(ctrl_plus, false, true, false), (ShortcutAction::ZoomIn, false));
    step(&mut p, g());
    assert_eq!(step(&mut p, g()), (ShortcutAction::FirstPage, false));
}

#[test]
fn escape_save_and_zoom() {
    let mut p = GotoPrefix::new();
    let esc = KeyInput { plain_escape: true, escape_pressed: true, ..KeyInput::none() };
    assert_eq!(step(&mut p, esc).0, ShortcutAction::ClosePreview);
    let save = KeyInput { ctrl: true, s_pressed: true, ..KeyInput::none() };
    assert_eq!(p.step(save, false, false, true).0, ShortcutAction::SaveImage);
    assert_eq!(p.step(save, false, false, false).0, ShortcutAction::Nothing);
    let zoom_in = KeyInput { ctrl: true, equals_pressed: true, ..KeyInput::none() };
    assert_eq!(step(&mut p, zoom_in).0, ShortcutAction::ZoomIn);
    let zoom_out = KeyInput { plain_minus: true, ..KeyInput::none() };
    assert_eq!(step(&mut p, zoom_out).0, ShortcutAction::ZoomOut);
    let reset = KeyInput { plain_a: true, ..KeyInput::none() };
    assert_eq!(step(&mut p, reset).0, ShortcutAction::ResetZoom);
    let reset2 = KeyInput { ctrl: true, num0_pressed: true, ..KeyInput::none() };
    assert_eq!(p.step(reset2, false, true, false).0, ShortcutAction::ResetZoom);
}

#[test]
fn page_and_view_keys() {
    let mut p = GotoPrefix::new();
    let cases = [
        (KeyInput { shift_r: true, ..KeyInput::none() }, ShortcutAction::RotateCounterClockwise),
        (KeyInput { plain_r: true, ..KeyInput::none() }, ShortcutAction::RotateClockwise),
        (KeyInput { h_pressed: true, ..KeyInput::none() }, ShortcutAction::ScrollLeft),
        (KeyInput { right_pressed: true, ..KeyInput::none() }, ShortcutAction::ScrollRight),
        (KeyInput { shift_k: true, ..KeyInput::none() }, ShortcutAction::Prev10Pages),
        (KeyInput { shift_j: true, ..KeyInput::none() }, ShortcutAction::Next10Pages),
        (KeyInput { plain_up: true, ..KeyInput::none() }, ShortcutAction::PrevPage),
        (KeyInput { plain_page_down: true, ..KeyInput::none() }, ShortcutAction::NextPage),
        (KeyInput { plain_home: true, ..KeyInput::none() }, ShortcutAction::FirstPage),
        (KeyInput { plain_end: true, ..KeyInput::none() }, ShortcutAction::LastPage),
        (KeyInput { plain_v: true, ..KeyInput::none() }, ShortcutAction::ToggleOcrWindow),
        (KeyInput { plain_v: true, shift: true, ..KeyInput::none() }, ShortcutAction::ForceOpenEmptyOcr),
        (KeyInput { plain_q: true, ..KeyInput::none() }, ShortcutAction::ResetApp),
        (KeyInput::none(), ShortcutAction::Nothing),
    ];
    for (keys, expected) in cases {
        assert_eq!(step(&mut p, keys), (expected, false));
    }
}

#[test]
fn copy_needs_a_crop() {
    let mut p = GotoPrefix::new();
    let copy = KeyInput { copy_event: true, ..KeyInput::none() };
    assert_eq!(p.step(copy, false, false, true).0, ShortcutAction::CopyImage);
    assert_eq!(p.step(copy, false, false, false).0, ShortcutAction::Nothing);
}

#[test]
fn escape_closes_topmost_panel() {
    let all = Panels { preview_open: true, ocr_open: true, has_crop: true };
    let a = close_topmost(all);
    assert_eq!(a, Panels { preview_open: false, ocr_open: true, has_crop: true });
    let b = close_topmost(a);
    assert_eq!(b, Panels { preview_open: false, ocr_open: false, has_crop: true });
    let c = close_topmost(b);
    assert_eq!(c, Panels { preview_open: false, ocr_open: false, has_crop: false });
    assert_eq!(close_topmost(c), c);
}

#[test]
fn ocr_panel_toggles_only_with_latex() {
    assert!(toggle_ocr_panel(false, true));
    assert!(!toggle_ocr_panel(true, true));
    assert!(!toggle_ocr_panel(false, false));
    assert!(toggle_ocr_panel(true, false));
}
