//! Keyboard shortcuts: which action a frame of key presses asks for, and
//! the vim-style "[count]gg" prefix that spans frames.
use vstd::prelude::*;
use crate::text::{is_digit, parse_bounded, parse_dec};

verus! {

/// The keys of one frame, as the shortcut handler reads them. A `plain_*`
/// key was pressed without Ctrl, Alt or Command (Shift allowed); a `shift_*`
/// key was pressed with Shift; a `*_pressed` key was pressed with any
/// modifiers; `ctrl` and `shift` tell whether those modifiers are held.
#[derive(Clone, Copy, PartialEq, Eq, Structural, Debug)]
pub struct KeyInput {
    pub ctrl: bool,
    pub shift: bool,
    pub plain_escape: bool,
    pub s_pressed: bool,
    pub equals_pressed: bool,
    pub plus_pressed: bool,
    pub minus_pressed: bool,
    pub num0_pressed: bool,
    pub plain_equals: bool,
    pub plain_plus: bool,
    pub plain_minus: bool,
    pub plain_a: bool,
    pub shift_r: bool,
    pub plain_r: bool,
    pub shift_g: bool,
    /// The smallest digit key pressed without modifiers, if any.
    pub plain_digit: Option<u8>,
    pub plain_g: bool,
    pub escape_pressed: bool,
    pub j_pressed: bool,
    pub k_pressed: bool,
    pub page_up_pressed: bool,
    pub page_down_pressed: bool,
    pub pointer_pressed: bool,
    pub copy_event: bool,
    pub h_pressed: bool,
    pub l_pressed: bool,
    pub left_pressed: bool,
    pub right_pressed: bool,
    pub shift_k: bool,
    pub shift_j: bool,
    pub plain_k: bool,
    pub plain_page_up: bool,
    pub plain_up: bool,
    pub plain_j: bool,
    pub plain_page_down: bool,
    pub plain_down: bool,
    pub plain_home: bool,
    /// A `^` was typed.
    pub caret_typed: bool,
    pub plain_end: bool,
    pub plain_v: bool,
    pub plain_q: bool,
}

impl KeyInput {
    /// A frame with no key pressed and no modifier held.
    pub fn none() -> (k: KeyInput)
        ensures
            k == no_keys(),
    {
        KeyInput {
            ctrl: false,
            shift: false,
            plain_escape: false,
            s_pressed: false,
            equals_pressed: false,
            plus_pressed: false,
            minus_pressed: false,
            num0_pressed: false,
            plain_equals: false,
            plain_plus: false,
            plain_minus: false,
            plain_a: false,
            shift_r: false,
            plain_r: false,
            shift_g: false,
            plain_digit: None,
            plain_g: false,
            escape_pressed: false,
            j_pressed: false,
            k_pressed: false,
            page_up_pressed: false,
            page_down_pressed: false,
            pointer_pressed: false,
            copy_event: false,
            h_pressed: false,
            l_pressed: false,
            left_pressed: false,
            right_pressed: false,
            shift_k: false,
            shift_j: false,
            plain_k: false,
            plain_page_up: false,
            plain_up: false,
            plain_j: false,
            plain_page_down: false,
            plain_down: false,
            plain_home: false,
            caret_typed: false,
            plain_end: false,
            plain_v: false,
            plain_q: false,
        }
    }
}

/// What a frame's shortcuts ask for.
#[derive(Clone, Copy, PartialEq, Eq, Structural, Debug)]
pub enum ShortcutAction {
    Nothing,
    PrevPage,
    NextPage,
    Prev10Pages,
    Next10Pages,
    FirstPage,
    LastPage,
    ClosePreview,
    CopyImage,
    SaveImage,
    ZoomIn,
    ZoomOut,
    ResetZoom,
    ResetApp,
    ToggleOcrWindow,
    ForceOpenEmptyOcr,
    ScrollLeft,
    ScrollRight,
    RotateClockwise,
    RotateCounterClockwise,
    /// The 0-based page to show.
    GotoPage(usize),
}

/// The "[count]gg" prefix: the digits typed so far and whether a first `g`
/// is waiting for a second.
pub struct GotoView {
    pub digits: Seq<char>,
    pub pending_g: bool,
}

/// The outcome of a frame: the prefix after it, the action, and whether a
/// first `g` was just pressed (so that its time should be noted).
pub struct StepView {
    pub state: GotoView,
    pub action: ShortcutAction,
    pub g_armed: bool,
}

/// The character of the digit `d`.
pub open spec fn digit_key_char(d: u8) -> char {
    crate::text::digit_char(d as nat)
}

/// The prefix emptied.
pub open spec fn cleared() -> GotoView {
    GotoView { digits: Seq::empty(), pending_g: false }
}

/// The action of a second `g` after the digits `digits`: the page they
/// number (1-based, so the index one less), the first page when there are
/// none, nothing when the number does not fit a `usize`.
pub open spec fn goto_action(digits: Seq<char>) -> ShortcutAction {
    if digits.len() == 0 {
        ShortcutAction::FirstPage
    } else {
        match parse_bounded(digits, usize::MAX as nat) {
            Some(n) => ShortcutAction::GotoPage(if n > 0 { (n - 1) as usize } else { 0 }),
            None => ShortcutAction::Nothing,
        }
    }
}

/// One frame of shortcut handling. `expired` tells that more than a second
/// passed since the first `g`; `has_focus` that a text field takes the keys;
/// `has_crop` that a cropped image is at hand. Earlier rules win: Esc;
/// Ctrl+S with a crop; zoom in, zoom out and reset zoom; then, unless a text
/// field has focus: rotation with R, Shift+G for the last page, `0` or a
/// typed `^` for the first page whatever count is pending (a `^` typed as
/// Shift+6 wins over the 6), the digits 1 to 9 for the count, `g` twice to
/// go to the counted page, clearing the count on other movement or a click,
/// copying with a crop, scrolling sideways with H/L or the arrows, paging
/// with K/J, the arrows, Page Up/Down, Home and End, the OCR panel with V,
/// and Q to return to the start screen.
pub open spec fn shortcut_step(
    prefix: GotoView,
    keys: KeyInput,
    expired: bool,
    has_focus: bool,
    has_crop: bool,
) -> StepView {
    let st = if prefix.pending_g && expired { cleared() } else { prefix };
    let done = |a: ShortcutAction| StepView { state: st, action: a, g_armed: false };
    if keys.plain_escape {
        done(ShortcutAction::ClosePreview)
    } else if keys.ctrl && keys.s_pressed && has_crop {
        done(ShortcutAction::SaveImage)
    } else if (keys.ctrl && (keys.equals_pressed || keys.plus_pressed)) || (!has_focus && keys.plain_equals)
        || (!has_focus && keys.plain_plus) {
        done(ShortcutAction::ZoomIn)
    } else if (keys.ctrl && keys.minus_pressed) || (!has_focus && keys.plain_minus) {
        done(ShortcutAction::ZoomOut)
    } else if !has_focus && keys.plain_a {
        done(ShortcutAction::ResetZoom)
    } else if keys.ctrl && keys.num0_pressed {
        done(ShortcutAction::ResetZoom)
    } else if has_focus {
        done(ShortcutAction::Nothing)
    } else if keys.shift_r {
        done(ShortcutAction::RotateCounterClockwise)
    } else if keys.plain_r {
        done(ShortcutAction::RotateClockwise)
    } else if keys.shift_g {
        StepView { state: cleared(), action: ShortcutAction::LastPage, g_armed: false }
    } else if keys.caret_typed || keys.plain_digit == Some(0u8) {
        StepView { state: cleared(), action: ShortcutAction::FirstPage, g_armed: false }
    } else if keys.plain_digit is Some {
        StepView {
            state: GotoView { digits: st.digits.push(digit_key_char(keys.plain_digit->0)), pending_g: false },
            action: ShortcutAction::Nothing,
            g_armed: false,
        }
    } else if keys.plain_g {
        if st.pending_g {
            StepView { state: cleared(), action: goto_action(st.digits), g_armed: false }
        } else {
            StepView { state: GotoView { digits: st.digits, pending_g: true }, action: ShortcutAction::Nothing, g_armed: true }
        }
    } else {
        let reset = keys.escape_pressed || keys.j_pressed || keys.k_pressed || keys.page_up_pressed
            || keys.page_down_pressed || keys.pointer_pressed;
        let st2 = if reset { cleared() } else { st };
        let action = if keys.copy_event && has_crop {
            ShortcutAction::CopyImage
        } else if keys.h_pressed || keys.left_pressed {
            ShortcutAction::ScrollLeft
        } else if keys.l_pressed || keys.right_pressed {
            ShortcutAction::ScrollRight
        } else if keys.shift_k {
            ShortcutAction::Prev10Pages
        } else if keys.shift_j {
            ShortcutAction::Next10Pages
        } else if keys.plain_k || keys.plain_page_up || keys.plain_up {
            ShortcutAction::PrevPage
        } else if keys.plain_j || keys.plain_page_down || keys.plain_down {
            ShortcutAction::NextPage
        } else if keys.plain_home {
            ShortcutAction::FirstPage
        } else if keys.plain_end {
            ShortcutAction::LastPage
        } else if keys.plain_v {
            if keys.shift {
                ShortcutAction::ForceOpenEmptyOcr
            } else {
                ShortcutAction::ToggleOcrWindow
            }
        } else if keys.plain_q {
            ShortcutAction::ResetApp
        } else {
            ShortcutAction::Nothing
        };
        StepView { state: st2, action, g_armed: false }
    }
}

/// The "[count]gg" prefix kept between frames.
pub struct GotoPrefix {
    digits: Vec<char>,
    pending_g: bool,
}

impl GotoPrefix {
    /// The prefix holds only digits.
    pub closed spec fn wf(self) -> bool {
        forall|i: int| 0 <= i < self.digits@.len() ==> is_digit(#[trigger] self.digits@[i])
    }

    /// The prefix as mathematical values.
    pub closed spec fn view(self) -> GotoView {
        GotoView { digits: self.digits@, pending_g: self.pending_g }
    }

    /// An empty prefix.
    pub fn new() -> (p: GotoPrefix)
        ensures
            p.wf(),
            p.view() == cleared(),
    {
        let p = GotoPrefix { digits: Vec::new(), pending_g: false };
        assert(p.view().digits =~= Seq::<char>::empty());
        p
    }

    /// Whether a first `g` waits for a second.
    pub fn pending_g(&self) -> (b: bool)
        ensures
            b == self.view().pending_g,
    {
        self.pending_g
    }

    fn clear(&mut self)
        ensures
            final(self).wf(),
            final(self).view() == cleared(),
    {
        self.digits = Vec::new();
        self.pending_g = false;
        assert(self.view().digits =~= Seq::<char>::empty());
    }

    /// Handles one frame of keys; see `shortcut_step`. Returns the action and
    /// whether a first `g` was just pressed.
    pub fn step(&mut self, keys: KeyInput, expired: bool, has_focus: bool, has_crop: bool) -> (r: (ShortcutAction, bool))
        requires
            old(self).wf(),
            keys.plain_digit matches Some(d) ==> d < 10,
        ensures
            final(self).wf(),
            final(self).view() == shortcut_step(old(self).view(), keys, expired, has_focus, has_crop).state,
            r.0 == shortcut_step(old(self).view(), keys, expired, has_focus, has_crop).action,
            r.1 == shortcut_step(old(self).view(), keys, expired, has_focus, has_crop).g_armed,
    {
        if self.pending_g && expired {
            self.clear();
        }
        if keys.plain_escape {
            return (ShortcutAction::ClosePreview, false);
        }
        if keys.ctrl && keys.s_pressed && has_crop {
            return (ShortcutAction::SaveImage, false);
        }
        if (keys.ctrl && (keys.equals_pressed || keys.plus_pressed)) || (!has_focus && keys.plain_equals) || (
        !has_focus && keys.plain_plus) {
            return (ShortcutAction::ZoomIn, false);
        }
        if (keys.ctrl && keys.minus_pressed) || (!has_focus && keys.plain_minus) {
            return (ShortcutAction::ZoomOut, false);
        }
        if !has_focus && keys.plain_a {
            return (ShortcutAction::ResetZoom, false);
        }
        if keys.ctrl && keys.num0_pressed {
            return (ShortcutAction::ResetZoom, false);
        }
        if has_focus {
            return (ShortcutAction::Nothing, false);
        }
        if keys.shift_r {
            return (ShortcutAction::RotateCounterClockwise, false);
        }
        if keys.plain_r {
            return (ShortcutAction::RotateClockwise, false);
        }
        if keys.shift_g {
            self.clear();
            return (ShortcutAction::LastPage, false);
        }
        if keys.caret_typed || keys.plain_digit == Some(0u8) {
            self.clear();
            return (ShortcutAction::FirstPage, false);
        }
        if let Some(d) = keys.plain_digit {
            let c = digit_char_of(d);
            self.digits.push(c);
            self.pending_g = false;
            return (ShortcutAction::Nothing, false);
        }
        if keys.plain_g {
            if self.pending_g {
                let action = if self.digits.len() > 0 {
                    match parse_dec(&self.digits, usize::MAX as u64) {
                        Some(n) => ShortcutAction::GotoPage(if n > 0 { (n - 1) as usize } else { 0 }),
                        None => ShortcutAction::Nothing,
                    }
                } else {
                    ShortcutAction::FirstPage
                };
                self.clear();
                return (action, false);
            } else {
                self.pending_g = true;
                return (ShortcutAction::Nothing, true);
            }
        }
        if keys.escape_pressed || keys.j_pressed || keys.k_pressed || keys.page_up_pressed
            || keys.page_down_pressed || keys.pointer_pressed {
            self.clear();
        }
        let action = if keys.copy_event && has_crop {
            ShortcutAction::CopyImage
        } else if keys.h_pressed || keys.left_pressed {
            ShortcutAction::ScrollLeft
        } else if keys.l_pressed || keys.right_pressed {
            ShortcutAction::ScrollRight
        } else if keys.shift_k {
            ShortcutAction::Prev10Pages
        } else if keys.shift_j {
            ShortcutAction::Next10Pages
        } else if keys.plain_k || keys.plain_page_up || keys.plain_up {
            ShortcutAction::PrevPage
        } else if keys.plain_j || keys.plain_page_down || keys.plain_down {
            ShortcutAction::NextPage
        } else if keys.plain_home {
            ShortcutAction::FirstPage
        } else if keys.plain_end {
            ShortcutAction::LastPage
        } else if keys.plain_v {
            if keys.shift {
                ShortcutAction::ForceOpenEmptyOcr
            } else {
                ShortcutAction::ToggleOcrWindow
            }
        } else if keys.plain_q {
            ShortcutAction::ResetApp
        } else {
            ShortcutAction::Nothing
        };
        (action, false)
    }
}

fn digit_char_of(d: u8) -> (c: char)
    requires
        d < 10,
    ensures
        c == digit_key_char(d),
        is_digit(c),
{
    if d == 0 {
        '0'
    } else if d == 1 {
        '1'
    } else if d == 2 {
        '2'
    } else if d == 3 {
        '3'
    } else if d == 4 {
        '4'
    } else if d == 5 {
        '5'
    } else if d == 6 {
        '6'
    } else if d == 7 {
        '7'
    } else if d == 8 {
        '8'
    } else {
        '9'
    }
}

/// Which panels are showing, for deciding what Esc closes.
#[derive(Clone, Copy, PartialEq, Eq, Structural, Debug)]
pub struct Panels {
    pub preview_open: bool,
    pub ocr_open: bool,
    pub has_crop: bool,
}

/// Esc closes the LaTeX preview if it is open, else the OCR panel if it is
/// open, else discards the cropped image.
pub fn close_topmost(p: Panels) -> (r: Panels)
    ensures
        r == if p.preview_open {
            Panels { preview_open: false, ..p }
        } else if p.ocr_open {
            Panels { ocr_open: false, ..p }
        } else {
            Panels { has_crop: false, ..p }
        },
{
    if p.preview_open {
        Panels { preview_open: false, ..p }
    } else if p.ocr_open {
        Panels { ocr_open: false, ..p }
    } else {
        Panels { has_crop: false, ..p }
    }
}

/// V shows or hides the OCR panel, but only when there is a LaTeX text.
pub fn toggle_ocr_panel(ocr_open: bool, has_latex: bool) -> (r: bool)
    ensures
        r == if has_latex { !ocr_open } else { ocr_open },
{
    if has_latex {
        !ocr_open
    } else {
        ocr_open
    }
}

/// A frame with no keys pressed.
pub open spec fn no_keys() -> KeyInput {
    KeyInput {
        ctrl: false,
        shift: false,
        plain_escape: false,
        s_pressed: false,
        equals_pressed: false,
        plus_pressed: false,
        minus_pressed: false,
        num0_pressed: false,
        plain_equals: false,
        plain_plus: false,
        plain_minus: false,
        plain_a: false,
        shift_r: false,
        plain_r: false,
        shift_g: false,
        plain_digit: None,
        plain_g: false,
        escape_pressed: false,
        j_pressed: false,
        k_pressed: false,
        page_up_pressed: false,
        page_down_pressed: false,
        pointer_pressed: false,
        copy_event: false,
        h_pressed: false,
        l_pressed: false,
        left_pressed: false,
        right_pressed: false,
        shift_k: false,
        shift_j: false,
        plain_k: false,
        plain_page_up: false,
        plain_up: false,
        plain_j: false,
        plain_page_down: false,
        plain_down: false,
        plain_home: false,
        caret_typed: false,
        plain_end: false,
        plain_v: false,
        plain_q: false,
    }
}

/// A frame in which only the `g` key is pressed.
pub open spec fn g_key() -> KeyInput {
    KeyInput { plain_g: true, ..no_keys() }
}

/// Pressing `g` twice within the time limit, with no text field focused,
/// after typing the digits of a page number, goes to that page (the first
/// page without digits) and empties the prefix.
pub proof fn lemma_count_gg(digits: Seq<char>, has_crop: bool)
    requires
        forall|i: int| 0 <= i < digits.len() ==> is_digit(#[trigger] digits[i]),
    ensures
        ({
            let first = shortcut_step(GotoView { digits, pending_g: false }, g_key(), false, false, has_crop);
            let second = shortcut_step(first.state, g_key(), false, false, has_crop);
            &&& first.action == ShortcutAction::Nothing
            &&& first.g_armed
            &&& second.state == cleared()
            &&& second.action == goto_action(digits)
        }),
{
}

/// With no text field focused, a frame with only `0`, or with a typed `^`
/// (together with the digit key that produced it or not), goes to the
/// first page and empties the prefix, whatever count was pending.
pub proof fn lemma_first_page_keys(prefix: GotoView, expired: bool, has_crop: bool, with_caret: Option<u8>)
    ensures
        shortcut_step(prefix, (KeyInput { plain_digit: Some(0u8), ..no_keys() }), expired, false, has_crop).action
            == ShortcutAction::FirstPage,
        shortcut_step(prefix, (KeyInput { plain_digit: Some(0u8), ..no_keys() }), expired, false, has_crop).state
            == cleared(),
        shortcut_step(
            prefix,
            (KeyInput { caret_typed: true, shift: true, plain_digit: with_caret, ..no_keys() }),
            expired,
            false,
            has_crop,
        ).action == ShortcutAction::FirstPage,
        shortcut_step(
            prefix,
            (KeyInput { caret_typed: true, shift: true, plain_digit: with_caret, ..no_keys() }),
            expired,
            false,
            has_crop,
        ).state == cleared(),
{
}

/// What single keys do, with no text field focused, whatever the prefix,
/// the time since a first `g` and whether a crop is at hand: K, Up and Page
/// Up turn back a page and J, Down and Page Down forward (K, J and the page
/// keys also empty the prefix); Shift+K and Shift+J move ten pages; Home
/// and End, and Shift+G, go to the first and last page; H or Left and L or
/// Right scroll sideways; V toggles the OCR panel and Shift+V opens it
/// empty; Q returns to the start screen; R turns the page clockwise and
/// Shift+R counter-clockwise.
pub proof fn lemma_single_keys(prefix: GotoView, expired: bool, has_crop: bool)
    ensures
        shortcut_step(prefix, (KeyInput { plain_k: true, k_pressed: true, ..no_keys() }), expired, false, has_crop).action == ShortcutAction::PrevPage,
        shortcut_step(prefix, (KeyInput { plain_k: true, k_pressed: true, ..no_keys() }), expired, false, has_crop).state == cleared(),
        shortcut_step(prefix, (KeyInput { plain_up: true, ..no_keys() }), expired, false, has_crop).action == ShortcutAction::PrevPage,
        shortcut_step(prefix, (KeyInput { plain_page_up: true, page_up_pressed: true, ..no_keys() }), expired, false, has_crop).action == ShortcutAction::PrevPage,
        shortcut_step(prefix, (KeyInput { plain_page_up: true, page_up_pressed: true, ..no_keys() }), expired, false, has_crop).state == cleared(),
        shortcut_step(prefix, (KeyInput { plain_j: true, j_pressed: true, ..no_keys() }), expired, false, has_crop).action == ShortcutAction::NextPage,
        shortcut_step(prefix, (KeyInput { plain_j: true, j_pressed: true, ..no_keys() }), expired, false, has_crop).state == cleared(),
        shortcut_step(prefix, (KeyInput { plain_down: true, ..no_keys() }), expired, false, has_crop).action == ShortcutAction::NextPage,
        shortcut_step(prefix, (KeyInput { plain_page_down: true, page_down_pressed: true, ..no_keys() }), expired, false, has_crop).action == ShortcutAction::NextPage,
        shortcut_step(prefix, (KeyInput { plain_page_down: true, page_down_pressed: true, ..no_keys() }), expired, false, has_crop).state == cleared(),
        shortcut_step(prefix, (KeyInput { shift: true, shift_k: true, plain_k: true, k_pressed: true, ..no_keys() }), expired, false, has_crop).action == ShortcutAction::Prev10Pages,
        shortcut_step(prefix, (KeyInput { shift: true, shift_k: true, plain_k: true, k_pressed: true, ..no_keys() }), expired, false, has_crop).state == cleared(),
        shortcut_step(prefix, (KeyInput { shift: true, shift_j: true, plain_j: true, j_pressed: true, ..no_keys() }), expired, false, has_crop).action == ShortcutAction::Next10Pages,
        shortcut_step(prefix, (KeyInput { shift: true, shift_j: true, plain_j: true, j_pressed: true, ..no_keys() }), expired, false, has_crop).state == cleared(),
        shortcut_step(prefix, (KeyInput { plain_home: true, ..no_keys() }), expired, false, has_crop).action == ShortcutAction::FirstPage,
        shortcut_step(prefix, (KeyInput { plain_end: true, ..no_keys() }), expired, false, has_crop).action == ShortcutAction::LastPage,
        shortcut_step(prefix, (KeyInput { shift: true, shift_g: true, plain_g: true, ..no_keys() }), expired, false, has_crop).action == ShortcutAction::LastPage,
        shortcut_step(prefix, (KeyInput { h_pressed: true, ..no_keys() }), expired, false, has_crop).action == ShortcutAction::ScrollLeft,
        shortcut_step(prefix, (KeyInput { left_pressed: true, ..no_keys() }), expired, false, has_crop).action == ShortcutAction::ScrollLeft,
        shortcut_step(prefix, (KeyInput { l_pressed: true, ..no_keys() }), expired, false, has_crop).action == ShortcutAction::ScrollRight,
        shortcut_step(prefix, (KeyInput { right_pressed: true, ..no_keys() }), expired, false, has_crop).action == ShortcutAction::ScrollRight,
        shortcut_step(prefix, (KeyInput { plain_v: true, ..no_keys() }), expired, false, has_crop).action == ShortcutAction::ToggleOcrWindow,
        shortcut_step(prefix, (KeyInput { shift: true, plain_v: true, ..no_keys() }), expired, false, has_crop).action == ShortcutAction::ForceOpenEmptyOcr,
        shortcut_step(prefix, (KeyInput { plain_q: true, ..no_keys() }), expired, false, has_crop).action == ShortcutAction::ResetApp,
        shortcut_step(prefix, (KeyInput { plain_r: true, ..no_keys() }), expired, false, has_crop).action == ShortcutAction::RotateClockwise,
        shortcut_step(prefix, (KeyInput { shift: true, shift_r: true, plain_r: true, ..no_keys() }), expired, false, has_crop).action == ShortcutAction::RotateCounterClockwise,
{
}

/// What the view keys do with no text field focused, whatever the prefix
/// and the time since a first `g`: Esc closes the preview; Ctrl with `=` or
/// `+`, or a plain `=`, zooms in; Ctrl with `-`, or a plain `-`, zooms out;
/// A or Ctrl+0 resets the zoom; with a crop at hand, Ctrl+S saves it and a
/// copy copies it.
pub proof fn lemma_view_keys(prefix: GotoView, expired: bool, has_crop: bool)
    ensures
        shortcut_step(prefix, (KeyInput { plain_escape: true, escape_pressed: true, ..no_keys() }), expired, false, has_crop).action == ShortcutAction::ClosePreview,
        shortcut_step(prefix, (KeyInput { ctrl: true, equals_pressed: true, ..no_keys() }), expired, false, has_crop).action == ShortcutAction::ZoomIn,
        shortcut_step(prefix, (KeyInput { ctrl: true, plus_pressed: true, ..no_keys() }), expired, false, has_crop).action == ShortcutAction::ZoomIn,
        shortcut_step(prefix, (KeyInput { plain_equals: true, equals_pressed: true, ..no_keys() }), expired, false, has_crop).action == ShortcutAction::ZoomIn,
        shortcut_step(prefix, (KeyInput { ctrl: true, minus_pressed: true, ..no_keys() }), expired, false, has_crop).action == ShortcutAction::ZoomOut,
        shortcut_step(prefix, (KeyInput { plain_minus: true, minus_pressed: true, ..no_keys() }), expired, false, has_crop).action == ShortcutAction::ZoomOut,
        shortcut_step(prefix, (KeyInput { plain_a: true, ..no_keys() }), expired, false, has_crop).action == ShortcutAction::ResetZoom,
        shortcut_step(prefix, (KeyInput { ctrl: true, num0_pressed: true, ..no_keys() }), expired, false, has_crop).action == ShortcutAction::ResetZoom,
        shortcut_step(prefix, (KeyInput { ctrl: true, s_pressed: true, ..no_keys() }), expired, false, true).action == ShortcutAction::SaveImage,
        shortcut_step(prefix, (KeyInput { copy_event: true, ..no_keys() }), expired, false, true).action == ShortcutAction::CopyImage,
{
}

/// While a text field has focus, the keys never change the prefix, except
/// that an expired first `g` is forgotten.
pub proof fn lemma_focus_keeps_prefix(prefix: GotoView, keys: KeyInput, expired: bool, has_crop: bool)
    requires
        !(prefix.pending_g && expired),
    ensures
        shortcut_step(prefix, keys, expired, true, has_crop).state == prefix,
        !shortcut_step(prefix, keys, expired, true, has_crop).g_armed,
{
}

} // verus!
