//! The reading session: which document is open, the page shown, how each
//! page is turned, and the history of where each document was left.
use vstd::prelude::*;
use crate::history::{
    AppHistory, HistoryView, MAX_RECORDS, excess, lemma_record_no_repeat, lemma_record_then_restore, lemma_without,
    record_visit, restore_page, without,
};

verus! {

/// A move to another page.
#[derive(Clone, Copy, PartialEq, Eq, Structural, Debug)]
pub enum PageAction {
    PrevPage,
    NextPage,
    Prev10Pages,
    Next10Pages,
    FirstPage,
    LastPage,
    /// The 0-based page to show.
    GotoPage(usize),
}

/// A quarter turn of the page shown.
#[derive(Clone, Copy, PartialEq, Eq, Structural, Debug)]
pub enum RotationStep {
    Clockwise,
    CounterClockwise,
}

/// How far a page is turned when it is rendered.
#[derive(Clone, Copy, PartialEq, Eq, Structural, Debug)]
pub enum PageRotation {
    Degrees0,
    Degrees90,
    Degrees180,
    Degrees270,
}

/// The session as mathematical values.
pub struct ReaderView {
    pub history: HistoryView,
    pub path: Option<Seq<char>>,
    pub page: usize,
    pub page_count: usize,
    pub rotations: Seq<i32>,
}

/// `page` cut to the pages of a document with `count` pages.
pub open spec fn clamp_page(page: usize, count: usize) -> usize {
    if page >= count {
        if count > 0 {
            (count - 1) as usize
        } else {
            0
        }
    } else {
        page
    }
}

/// The rotation, in degrees, of each of `count` unturned pages.
pub open spec fn unturned(count: usize) -> Seq<i32> {
    Seq::new(count as nat, |i: int| 0i32)
}

/// The session after its reading position is recorded in the history.
pub open spec fn record_position(s: ReaderView) -> ReaderView {
    match s.path {
        Some(p) => ReaderView { history: record_visit(s.history, p, s.page), ..s },
        None => s,
    }
}

/// The session after the document at `path`, of `count` pages, is loaded.
/// Loading another document than the one open records where the open one
/// was left and resumes the new one where it was left; reloading the open
/// document keeps the page. Either way the page is cut to the document and
/// every page is unturned.
pub open spec fn open_document(s: ReaderView, path: Seq<char>, count: usize) -> ReaderView {
    let s1 = if s.path == Some(path) {
        s
    } else {
        let r = record_position(s);
        ReaderView { page: restore_page(r.history, path), ..r }
    };
    ReaderView {
        history: s1.history,
        path: Some(path),
        page: clamp_page(s1.page, count),
        page_count: count,
        rotations: unturned(count),
    }
}

/// The session after the open document is closed; where it was left is recorded.
pub open spec fn close_document(s: ReaderView) -> ReaderView {
    let r = record_position(s);
    ReaderView { path: None, page: 0, page_count: 0, ..r }
}

/// The page shown after `action`.
pub open spec fn navigate(s: ReaderView, action: PageAction) -> usize {
    let loaded = s.path is Some;
    let last = if s.page_count > 0 { (s.page_count - 1) as usize } else { 0 };
    match action {
        PageAction::PrevPage => if s.page > 0 { (s.page - 1) as usize } else { s.page },
        PageAction::NextPage => if loaded && s.page + 1 < s.page_count { (s.page + 1) as usize } else { s.page },
        PageAction::FirstPage => 0,
        PageAction::GotoPage(t) => if loaded { if t < last { t } else { last } } else { s.page },
        PageAction::LastPage => if loaded { last } else { s.page },
        PageAction::Prev10Pages => if s.page >= 10 { (s.page - 10) as usize } else { 0 },
        PageAction::Next10Pages => if loaded && s.page_count > 0 {
            if s.page + 10 < last { (s.page + 10) as usize } else { last }
        } else {
            s.page
        },
    }
}

/// `v` reduced to `(-360, 360)`, keeping its sign, as a remainder of a
/// truncating division by 360.
pub open spec fn rem360(v: int) -> int {
    if v >= 0 {
        v % 360
    } else {
        -((-v) % 360)
    }
}

/// The degrees of a rotation step.
pub open spec fn step_degrees(step: RotationStep) -> int {
    match step {
        RotationStep::Clockwise => 90,
        RotationStep::CounterClockwise => -90,
    }
}

/// A page rotation reachable by quarter turns.
pub open spec fn valid_angle(a: i32) -> bool {
    -360 < a < 360 && a % 90 == 0
}

/// The rotations after the page shown is turned by `step`; the table is
/// first reset to unturned pages if it does not have one entry per page.
pub open spec fn rotate(s: ReaderView, step: RotationStep) -> Seq<i32> {
    if s.path is None {
        s.rotations
    } else {
        let base = if s.rotations.len() == s.page_count { s.rotations } else { unturned(s.page_count) };
        base.update(s.page as int, rem360(base[s.page as int] + step_degrees(step)) as i32)
    }
}

/// The number of clockwise quarter turns of an angle, from 0 to 3.
pub open spec fn quarter_turns(a: int) -> int {
    (a % 360) / 90
}

/// The rendering rotation of an angle.
pub open spec fn page_rotation(a: int) -> PageRotation {
    let q = quarter_turns(a);
    if q == 1 {
        PageRotation::Degrees90
    } else if q == 2 {
        PageRotation::Degrees180
    } else if q == 3 {
        PageRotation::Degrees270
    } else {
        PageRotation::Degrees0
    }
}

/// A page turned by an odd number of quarter turns lies on its side.
pub open spec fn is_sideways(a: int) -> bool {
    quarter_turns(a) % 2 == 1
}

/// The reading session of the viewer.
pub struct Reader {
    history: AppHistory,
    path: Option<String>,
    current_page: usize,
    page_count: usize,
    rotations: Vec<i32>,
}

impl Reader {
    /// The session's history is well formed, the page shown lies within the
    /// document (the first page when it has none), a closed session has no
    /// pages, and every rotation is a multiple of a quarter turn.
    pub closed spec fn wf(self) -> bool {
        &&& self.history.wf()
        &&& self.current_page == 0 || self.current_page < self.page_count
        &&& self.page_count <= 65535
        &&& self.path is None ==> self.page_count == 0
        &&& forall|i: int| 0 <= i < self.rotations@.len() ==> valid_angle(#[trigger] self.rotations@[i])
    }

    /// The session as mathematical values.
    pub closed spec fn view(self) -> ReaderView {
        ReaderView {
            history: self.history.view(),
            path: match self.path {
                Some(p) => Some(p@),
                None => None,
            },
            page: self.current_page,
            page_count: self.page_count,
            rotations: self.rotations@,
        }
    }

    /// A session with no document open and the given history.
    pub fn new(history: AppHistory) -> (r: Reader)
        requires
            history.wf(),
        ensures
            r.wf(),
            r.view().history == history.view(),
            r.view().path is None,
            r.view().page == 0,
            r.view().page_count == 0,
            r.view().rotations.len() == 0,
    {
        Reader { history, path: None, current_page: 0, page_count: 0, rotations: Vec::new() }
    }

    /// The history.
    pub fn history(&self) -> (h: &AppHistory)
        requires
            self.wf(),
        ensures
            h.wf(),
            h.view() == self.view().history,
    {
        &self.history
    }

    /// The path of the open document.
    pub fn path(&self) -> (p: Option<&String>)
        ensures
            match p {
                Some(p) => self.view().path == Some(p@),
                None => self.view().path is None,
            },
    {
        self.path.as_ref()
    }

    /// The 0-based page shown.
    pub fn current_page(&self) -> (p: usize)
        ensures
            p == self.view().page,
    {
        self.current_page
    }

    /// The number of pages of the open document.
    pub fn page_count(&self) -> (n: usize)
        ensures
            n == self.view().page_count,
    {
        self.page_count
    }

    /// The rotation in degrees of page `page`, 0 when none is recorded.
    pub fn rotation_of(&self, page: usize) -> (a: i32)
        requires
            self.wf(),
        ensures
            a == self.view_rotation(page),
            valid_angle(a),
    {
        if page < self.rotations.len() {
            self.rotations[page]
        } else {
            0
        }
    }

    /// Records where the open document was left; true when a document was
    /// open, so that the history changed and should be saved.
    pub fn record_current_position(&mut self) -> (recorded: bool)
        requires
            old(self).wf(),
        ensures
            final(self).wf(),
            final(self).view() == record_position(old(self).view()),
            recorded == old(self).view().path is Some,
    {
        match &self.path {
            Some(p) => {
                let p2 = p.clone();
                let page = self.current_page;
                self.history.record_visit(p2.as_str(), page);
                true
            },
            None => false,
        }
    }

    /// Takes in the document at `path`, just loaded with `page_count` pages:
    /// see `open_document`. True when it is another document than the one
    /// that was open, so that per-document state should be reset.
    pub fn open_document(&mut self, path: &str, page_count: u16) -> (is_new: bool)
        requires
            old(self).wf(),
        ensures
            final(self).wf(),
            final(self).view() == open_document(old(self).view(), path@, page_count as usize),
            is_new == (old(self).view().path != Some(path@)),
    {
        let same = match &self.path {
            Some(p) => p.as_str().to_owned() == path.to_owned(),
            None => false,
        };
        if !same {
            self.record_current_position();
            self.current_page = self.history.restore_page(path);
        }
        self.path = Some(path.to_owned());
        let count = page_count as usize;
        self.page_count = count;
        if self.current_page >= count {
            self.current_page = if count > 0 { count - 1 } else { 0 };
        }
        let mut rotations: Vec<i32> = Vec::new();
        let mut i: usize = 0;
        while i < count
            invariant
                i <= count,
                rotations@.len() == i,
                forall|j: int| 0 <= j < i ==> #[trigger] rotations@[j] == 0i32,
            decreases count - i,
        {
            rotations.push(0);
            i += 1;
        }
        self.rotations = rotations;
        assert(self.rotations@ =~= unturned(count));
        !same
    }

    /// Closes the open document, recording where it was left.
    pub fn close_document(&mut self)
        requires
            old(self).wf(),
        ensures
            final(self).wf(),
            final(self).view() == close_document(old(self).view()),
    {
        self.record_current_position();
        self.path = None;
        self.current_page = 0;
        self.page_count = 0;
    }

    /// Moves to another page; true when the page shown changed.
    pub fn navigate(&mut self, action: PageAction) -> (changed: bool)
        requires
            old(self).wf(),
        ensures
            final(self).wf(),
            final(self).view() == (ReaderView { page: navigate(old(self).view(), action), ..old(self).view() }),
            changed == (final(self).view().page != old(self).view().page),
    {
        let loaded = self.path.is_some();
        let cur = self.current_page;
        let count = self.page_count;
        let last = if count > 0 { count - 1 } else { 0 };
        let next = match action {
            PageAction::PrevPage => if cur > 0 { cur - 1 } else { cur },
            PageAction::NextPage => if loaded && cur + 1 < count { cur + 1 } else { cur },
            PageAction::FirstPage => 0,
            PageAction::GotoPage(t) => if loaded { if t < last { t } else { last } } else { cur },
            PageAction::LastPage => if loaded { last } else { cur },
            PageAction::Prev10Pages => if cur >= 10 { cur - 10 } else { 0 },
            PageAction::Next10Pages => if loaded && count > 0 {
                if cur + 10 < last { cur + 10 } else { last }
            } else {
                cur
            },
        };
        self.current_page = next;
        next != cur
    }

    /// Shows the 1-based page `display` picked in the page number field.
    pub fn set_display_page(&mut self, display: usize)
        requires
            old(self).wf(),
            1 <= display <= old(self).view().page_count,
        ensures
            final(self).wf(),
            final(self).view() == (ReaderView { page: (display - 1) as usize, ..old(self).view() }),
    {
        self.current_page = display - 1;
    }

    /// Follows a link to the 0-based page `target`, cut to the document.
    pub fn follow_link(&mut self, target: usize)
        requires
            old(self).wf(),
        ensures
            final(self).wf(),
            final(self).view() == (ReaderView {
                page: if old(self).view().page_count > 0 && target >= old(self).view().page_count {
                    (old(self).view().page_count - 1) as usize
                } else if old(self).view().page_count == 0 {
                    0
                } else {
                    target
                },
                ..old(self).view()
            }),
    {
        let last = if self.page_count > 0 { self.page_count - 1 } else { 0 };
        self.current_page = if target < last { target } else { last };
    }

    /// Turns the page shown by a quarter turn; nothing happens when no
    /// document is open.
    pub fn rotate_current_page(&mut self, step: RotationStep)
        requires
            old(self).wf(),
            old(self).view().path is Some ==> old(self).view().page_count > 0,
        ensures
            final(self).wf(),
            final(self).view() == (ReaderView { rotations: rotate(old(self).view(), step), ..old(self).view() }),
    {
        if self.path.is_none() {
            return;
        }
        if self.rotations.len() != self.page_count {
            let mut rotations: Vec<i32> = Vec::new();
            let mut i: usize = 0;
            while i < self.page_count
                invariant
                    i <= self.page_count,
                    rotations@.len() == i,
                    forall|j: int| 0 <= j < i ==> #[trigger] rotations@[j] == 0i32,
                decreases self.page_count - i,
            {
                rotations.push(0);
                i += 1;
            }
            assert(rotations@ =~= unturned(self.page_count));
            self.rotations = rotations;
        }
        let idx = self.current_page;
        let cur = self.rotations[idx];
        let delta: i32 = match step {
            RotationStep::Clockwise => 90,
            RotationStep::CounterClockwise => -90,
        };
        let sum = cur + delta;
        let turned = if sum >= 0 { sum % 360 } else { -((-sum) % 360) };
        assert(valid_angle(turned)) by {
            assert(cur % 90 == 0 && -360 < cur < 360);
        }
        self.rotations.set(idx, turned);
    }

    /// The rotation with which page `page` is rendered.
    pub fn render_rotation(&self, page: usize) -> (r: PageRotation)
        requires
            self.wf(),
        ensures
            r == page_rotation(self.view_rotation(page) as int),
    {
        let a = self.rotation_of(page);
        assert(a == -270 || a == -180 || a == -90 || a == 0 || a == 90 || a == 180 || a == 270);
        if a == 90 || a == -270 {
            PageRotation::Degrees90
        } else if a == 180 || a == -180 {
            PageRotation::Degrees180
        } else if a == 270 || a == -90 {
            PageRotation::Degrees270
        } else {
            PageRotation::Degrees0
        }
    }

    /// Whether page `page` lies on its side, so that its width and height
    /// trade places on screen.
    pub fn is_page_sideways(&self, page: usize) -> (b: bool)
        requires
            self.wf(),
        ensures
            b == is_sideways(self.view_rotation(page) as int),
    {
        let a = self.rotation_of(page);
        assert(a == -270 || a == -180 || a == -90 || a == 0 || a == 90 || a == 180 || a == 270);
        a == 90 || a == -90 || a == 270 || a == -270
    }

    /// The rotation in degrees of page `page`, 0 when none is recorded.
    pub open spec fn view_rotation(self, page: usize) -> i32 {
        if page < self.view().rotations.len() {
            self.view().rotations[page as int]
        } else {
            0
        }
    }
}

/// The page shown always lies within the open document (the first page
/// when it has none), and every page is turned by a multiple of a quarter
/// turn: every operation of a session keeps this.
pub proof fn lemma_page_in_document(r: Reader)
    requires
        r.wf(),
    ensures
        r.view().page == 0 || r.view().page < r.view().page_count,
        r.view().path is None ==> r.view().page_count == 0,
        forall|i: int| 0 <= i < r.view().rotations.len() ==> valid_angle(#[trigger] r.view().rotations[i]),
{
}

/// Reopening a document after another was read in between resumes it on
/// the page where it was left, cut to its current length.
pub proof fn lemma_reopen_restores(s: ReaderView, a: Seq<char>, b: Seq<char>, count_b: usize, count_a: usize)
    requires
        s.path == Some(a),
        a != b,
    ensures
        open_document(open_document(s, b, count_b), a, count_a).page == clamp_page(s.page, count_a),
{
    let h1 = record_visit(s.history, a, s.page);
    lemma_record_then_restore(s.history, a, s.page);
    lemma_record_no_repeat(s.history, a, s.page);
    let s1 = open_document(s, b, count_b);
    assert(s1.history == h1);
    let p1 = s1.page;
    let h2 = record_visit(h1, b, p1);
    // `a` stays in the history: it is the newest entry other than `b`.
    let order = without(h1.order, b).push(b);
    let k = excess(order);
    lemma_without(h1.order, b);
    let w = without(h1.order, b);
    lemma_last_kept(h1.order, b);
    assert(w.len() >= 1 && w.last() == a);
    assert(order.len() <= MAX_RECORDS + 1);
    assert(!order.take(k).contains(a)) by {
        if order.take(k).contains(a) {
            let i = choose|i: int| 0 <= i < order.take(k).len() && order.take(k)[i] == a;
            assert(i < k && k <= 1);
            if w.len() > 1 {
                assert(order[i] == w[i]);
                lemma_without_last_once(h1.order, b);
            } else {
                assert(order.len() == 2 && k == 0);
            }
        }
    }
    assert(!order.take(k).to_set().contains(a));
    assert(h2.last_pages.contains_key(a));
    assert(h2.last_pages[a] == h1.last_pages[a]);
}

/// The last element of `s`, if it is not `x`, is the last of `without(s, x)`.
proof fn lemma_last_kept(s: Seq<Seq<char>>, x: Seq<char>)
    requires
        s.len() > 0,
        s.last() != x,
    ensures
        without(s, x).len() >= 1,
        without(s, x).last() == s.last(),
{
}

/// The last element of `without(s, x)` occurs only at its end when `s`
/// ends with it and holds it only once.
proof fn lemma_without_last_once(s: Seq<Seq<char>>, x: Seq<char>)
    requires
        s.len() > 0,
        s.last() != x,
        forall|i: int| 0 <= i < s.len() - 1 ==> #[trigger] s[i] != s.last(),
    ensures
        forall|i: int| 0 <= i < without(s, x).len() - 1 ==> #[trigger] without(s, x)[i] != s.last(),
{
    lemma_without(s.drop_last(), x);
    assert forall|i: int| 0 <= i < without(s, x).len() - 1 implies #[trigger] without(s, x)[i] != s.last() by {
        let w = without(s.drop_last(), x);
        assert(without(s, x)[i] == w[i]);
        if w[i] == s.last() {
            assert(w.contains(w[i]));
            assert(s.drop_last().contains(s.last()));
            let j = choose|j: int| 0 <= j < s.drop_last().len() && s.drop_last()[j] == s.last();
            assert(s[j] == s.last());
        }
    }
}

/// Reloading the open document keeps the page shown, cut to its new
/// length, and leaves the history as it was.
pub proof fn lemma_reload_keeps_page(s: ReaderView, count: usize)
    requires
        s.path is Some,
    ensures
        open_document(s, s.path->0, count).page == clamp_page(s.page, count),
        open_document(s, s.path->0, count).history == s.history,
{
}

/// Page moves within an open document of `page_count` pages, shown at a
/// page that exists: every move lands on a page of the document; the next
/// page is the one after exactly when that one exists, else the page stays;
/// the previous page is the one before unless the first is shown; the first
/// and last pages are 0 and `page_count - 1`; going to an existing page
/// shows it, and going past the end shows the last; ten pages on or back
/// land ten pages away when that page exists, else at the last or first.
pub proof fn lemma_navigate_moves(s: ReaderView, t: usize)
    requires
        s.path is Some,
        0 < s.page_count,
        s.page < s.page_count,
    ensures
        forall|a: PageAction| #[trigger] navigate(s, a) < s.page_count,
        s.page + 1 < s.page_count ==> navigate(s, PageAction::NextPage) == s.page + 1,
        s.page + 1 >= s.page_count ==> navigate(s, PageAction::NextPage) == s.page,
        s.page > 0 ==> navigate(s, PageAction::PrevPage) == s.page - 1,
        s.page == 0 ==> navigate(s, PageAction::PrevPage) == 0,
        navigate(s, PageAction::FirstPage) == 0,
        navigate(s, PageAction::LastPage) == s.page_count - 1,
        t < s.page_count ==> navigate(s, PageAction::GotoPage(t)) == t,
        t >= s.page_count ==> navigate(s, PageAction::GotoPage(t)) == s.page_count - 1,
        s.page + 10 < s.page_count ==> navigate(s, PageAction::Next10Pages) == s.page + 10,
        s.page + 10 >= s.page_count ==> navigate(s, PageAction::Next10Pages) == s.page_count - 1,
        s.page >= 10 ==> navigate(s, PageAction::Prev10Pages) == s.page - 10,
        s.page < 10 ==> navigate(s, PageAction::Prev10Pages) == 0,
{
    assert forall|a: PageAction| #[trigger] navigate(s, a) < s.page_count by {
        match a {
            PageAction::GotoPage(u) => {},
            _ => {},
        }
    }
}

/// The next page and then the previous one, or the previous and then the
/// next, come back to the page shown, when those pages exist.
pub proof fn lemma_next_prev_return(s: ReaderView)
    requires
        s.path is Some,
        s.page < s.page_count,
    ensures
        s.page + 1 < s.page_count ==> navigate(
            (ReaderView { page: navigate(s, PageAction::NextPage), ..s }),
            PageAction::PrevPage,
        ) == s.page,
        s.page > 0 ==> navigate((ReaderView { page: navigate(s, PageAction::PrevPage), ..s }), PageAction::NextPage)
            == s.page,
{
}

/// With no document open, no move changes the page except going to the
/// first page.
pub proof fn lemma_navigate_closed(s: ReaderView, a: PageAction)
    requires
        s.path is None,
        s.page == 0,
    ensures
        navigate(s, a) == 0,
{
}

/// A page is rendered by its angle up to whole turns: angles a full turn
/// apart render alike, and the angles 0, 90, 180 and 270 degrees clockwise
/// render as no turn and one, two and three quarter turns.
pub proof fn lemma_render_by_angle(a: int)
    ensures
        page_rotation(a) == page_rotation(a + 360),
        page_rotation(a) == page_rotation(a - 360),
        is_sideways(a) == is_sideways(a + 360),
        page_rotation(0) == PageRotation::Degrees0,
        page_rotation(90) == PageRotation::Degrees90,
        page_rotation(180) == PageRotation::Degrees180,
        page_rotation(270) == PageRotation::Degrees270,
        is_sideways(90) && is_sideways(270) && !is_sideways(0) && !is_sideways(180),
{
    assert((a + 360) % 360 == a % 360);
    assert((a - 360) % 360 == a % 360);
}

/// Every angle that a page can have renders as the turn it names: a
/// counter-clockwise angle as the clockwise angle a full turn on.
pub proof fn lemma_render_valid_angles(a: i32)
    requires
        valid_angle(a),
    ensures
        page_rotation(a as int) == (if a == 0 {
            PageRotation::Degrees0
        } else if a == 90 || a == -270 {
            PageRotation::Degrees90
        } else if a == 180 || a == -180 {
            PageRotation::Degrees180
        } else {
            PageRotation::Degrees270
        }),
        is_sideways(a as int) <==> (a == 90 || a == -90 || a == 270 || a == -270),
{
    lemma_render_by_angle(a as int);
}

/// Turning a page a quarter turn clockwise renders it one quarter turn
/// further clockwise, and counter-clockwise one quarter turn back.
pub proof fn lemma_turn_advances_render(a: i32)
    requires
        valid_angle(a),
    ensures
        quarter_turns(rem360(a + 90)) == (quarter_turns(a as int) + 1) % 4,
        quarter_turns(rem360(a - 90)) == (quarter_turns(a as int) + 3) % 4,
{
}

/// A quarter turn clockwise followed by one counter-clockwise restores the
/// page's rotation, and four quarter turns the same way restore it too.
pub proof fn lemma_rotation_round_trip(a: i32)
    requires
        valid_angle(a),
    ensures
        rem360(rem360(a + 90) - 90) == a || rem360(rem360(a + 90) - 90) == a - 360 || rem360(rem360(a + 90) - 90) == a + 360,
        quarter_turns(rem360(rem360(a + 90) - 90)) == quarter_turns(a as int),
        quarter_turns(rem360(rem360(rem360(rem360(a + 90) + 90) + 90) + 90)) == quarter_turns(a as int),
{
}

} // verus!
