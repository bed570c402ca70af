//! The reading history: the last page read in each document, and the order
//! in which documents were last visited, bounded to the most recent ones.
use vstd::prelude::*;

verus! {

/// The largest number of documents whose reading position is remembered.
pub const MAX_RECORDS: usize = 1000;

/// The history as mathematical values: the last page of each document path,
/// and the paths from the least to the most recently visited.
pub struct HistoryView {
    pub last_pages: Map<Seq<char>, usize>,
    pub order: Seq<Seq<char>>,
}

/// `s` with every element equal to `x` left out, the rest in order.
pub open spec fn without(s: Seq<Seq<char>>, x: Seq<char>) -> Seq<Seq<char>>
    decreases s.len(),
{
    if s.len() == 0 {
        s
    } else if s.last() == x {
        without(s.drop_last(), x)
    } else {
        without(s.drop_last(), x).push(s.last())
    }
}

/// How many of the oldest entries of `order` must go so that at most
/// `MAX_RECORDS` remain.
pub open spec fn excess(order: Seq<Seq<char>>) -> int {
    if order.len() > MAX_RECORDS {
        order.len() - MAX_RECORDS
    } else {
        0
    }
}

/// The history after visiting `path` at page `page`: the page is recorded,
/// `path` moves to the most recent end of the order, and while more than
/// `MAX_RECORDS` paths are ordered the oldest is dropped together with its page.
pub open spec fn record_visit(h: HistoryView, path: Seq<char>, page: usize) -> HistoryView {
    let order = without(h.order, path).push(path);
    let k = excess(order);
    HistoryView {
        last_pages: h.last_pages.insert(path, page).remove_keys(order.take(k).to_set()),
        order: order.skip(k),
    }
}

/// The page at which `path` reopens: its recorded page, or the first page.
pub open spec fn restore_page(h: HistoryView, path: Seq<char>) -> usize {
    if h.last_pages.contains_key(path) {
        h.last_pages[path]
    } else {
        0
    }
}

/// `x` does not occur in `without(s, x)`, every element of it occurs in `s`,
/// and it is no longer than `s`.
pub proof fn lemma_without(s: Seq<Seq<char>>, x: Seq<char>)
    ensures
        !without(s, x).contains(x),
        forall|y: Seq<char>| #[trigger] without(s, x).contains(y) ==> s.contains(y),
        without(s, x).len() <= s.len(),
    decreases s.len(),
{
    if s.len() > 0 {
        lemma_without(s.drop_last(), x);
        let w = without(s.drop_last(), x);
        assert forall|y: Seq<char>| #[trigger] without(s, x).contains(y) implies s.contains(y) by {
            if s.last() != x && y == s.last() {
                assert(s[s.len() - 1] == y);
            } else {
                assert(w.contains(y));
                let i = choose|i: int| 0 <= i < s.drop_last().len() && s.drop_last()[i] == y;
                assert(s[i] == y);
            }
        }
        if s.last() != x {
            assert forall|i: int| 0 <= i < without(s, x).len() implies without(s, x)[i] != x by {
                if i < w.len() {
                    assert(without(s, x)[i] == w[i]);
                    assert(w.contains(w[i]));
                }
            }
        }
    }
}

/// Recording a visit to `path` at `page` and then reopening `path` gives
/// back `page`: the visited path is never the one dropped to keep the
/// history bounded.
pub proof fn lemma_record_then_restore(h: HistoryView, path: Seq<char>, page: usize)
    ensures
        restore_page(record_visit(h, path, page), path) == page,
        record_visit(h, path, page).last_pages.contains_key(path),
        record_visit(h, path, page).last_pages[path] == page,
        record_visit(h, path, page).order.last() == path,
        record_visit(h, path, page).order.len() <= MAX_RECORDS,
{
    let order = without(h.order, path).push(path);
    let k = excess(order);
    lemma_without(h.order, path);
    let w = without(h.order, path);
    assert(!order.take(k).contains(path)) by {
        if order.take(k).contains(path) {
            let i = choose|i: int| 0 <= i < order.take(k).len() && order.take(k)[i] == path;
            assert(order[i] == w[i]);
            assert(w.contains(w[i]));
        }
    }
    assert(!order.take(k).to_set().contains(path));
    let m = h.last_pages.insert(path, page);
    assert(m.remove_keys(order.take(k).to_set()).contains_key(path));
}

/// A visited path appears once in the order after the visit.
pub proof fn lemma_record_no_repeat(h: HistoryView, path: Seq<char>, page: usize)
    ensures
        forall|i: int|
            0 <= i < record_visit(h, path, page).order.len() - 1
                ==> #[trigger] record_visit(h, path, page).order[i] != path,
{
    let order = without(h.order, path).push(path);
    let k = excess(order);
    lemma_without(h.order, path);
    let w = without(h.order, path);
    assert forall|i: int|
        0 <= i < record_visit(h, path, page).order.len() - 1 implies #[trigger] record_visit(
        h,
        path,
        page,
    ).order[i] != path by {
        assert(record_visit(h, path, page).order[i] == order[i + k]);
        assert(order[i + k] == w[i + k]);
        assert(w.contains(w[i + k]));
    }
}

/// No path is ordered twice.
pub open spec fn no_repeats(s: Seq<Seq<char>>) -> bool {
    forall|i: int, j: int| 0 <= i < j < s.len() ==> s[i] != s[j]
}

/// The history orders each path once, and orders exactly the paths that
/// have a recorded page.
pub open spec fn keyed(h: HistoryView) -> bool {
    &&& no_repeats(h.order)
    &&& forall|k: Seq<char>| h.order.contains(k) <==> #[trigger] h.last_pages.contains_key(k)
}

/// A consistent history is keyed and orders at most `MAX_RECORDS` paths.
pub open spec fn consistent(h: HistoryView) -> bool {
    &&& keyed(h)
    &&& h.order.len() <= MAX_RECORDS
}

proof fn lemma_without_contents(s: Seq<Seq<char>>, x: Seq<char>)
    ensures
        forall|y: Seq<char>| #[trigger] without(s, x).contains(y) <==> (s.contains(y) && y != x),
        no_repeats(s) ==> no_repeats(without(s, x)),
        !s.contains(x) ==> without(s, x) == s,
    decreases s.len(),
{
    lemma_without(s, x);
    if s.len() > 0 {
        let t = s.drop_last();
        lemma_without_contents(t, x);
        let w = without(t, x);
        assert forall|y: Seq<char>| s.contains(y) && y != x implies #[trigger] without(s, x).contains(y) by {
            let i = choose|i: int| 0 <= i < s.len() && s[i] == y;
            if i < s.len() - 1 {
                assert(t[i] == y);
                assert(t.contains(y));
                assert(w.contains(y));
                let j = choose|j: int| 0 <= j < w.len() && w[j] == y;
                if s.last() != x {
                    assert(without(s, x) == w.push(s.last()));
                    assert(without(s, x)[j] == y);
                } else {
                    assert(without(s, x) == w);
                }
            } else {
                assert(s.last() == y);
                assert(without(s, x) == w.push(s.last()));
                assert(without(s, x)[w.len() as int] == y);
            }
        }
        if no_repeats(s) {
            assert(no_repeats(t));
            if s.last() != x {
                assert forall|i: int, j: int| 0 <= i < j < without(s, x).len() implies without(s, x)[i] != without(
                    s,
                    x,
                )[j] by {
                    if j == w.len() {
                        assert(without(s, x)[i] == w[i]);
                        assert(w.contains(w[i]));
                        assert(t.contains(w[i]));
                        let m = choose|m: int| 0 <= m < t.len() && t[m] == w[i];
                        assert(s[m] == t[m]);
                    } else {
                        assert(without(s, x)[i] == w[i] && without(s, x)[j] == w[j]);
                    }
                }
            }
        }
        if !s.contains(x) {
            assert(!t.contains(x)) by {
                if t.contains(x) {
                    let i = choose|i: int| 0 <= i < t.len() && t[i] == x;
                    assert(s[i] == x);
                }
            }
            assert(s.last() != x) by {
                assert(s[s.len() - 1] == s.last());
            }
            assert(w.push(s.last()) =~= s);
        }
    } else {
        assert(without(s, x) =~= s);
    }
}

/// Recording a visit in a history that orders each path once, and exactly
/// the paths with a page, leaves it so and with at most `MAX_RECORDS`
/// ordered paths.
pub proof fn lemma_record_keeps_consistent(h: HistoryView, path: Seq<char>, page: usize)
    requires
        keyed(h),
    ensures
        consistent(record_visit(h, path, page)),
{
    let w = without(h.order, path);
    let order = w.push(path);
    let k = excess(order);
    let h2 = record_visit(h, path, page);
    lemma_without_contents(h.order, path);
    lemma_without(h.order, path);
    assert(no_repeats(order)) by {
        assert forall|i: int, j: int| 0 <= i < j < order.len() implies order[i] != order[j] by {
            if j == w.len() {
                assert(order[i] == w[i]);
                assert(w.contains(w[i]));
            } else {
                assert(order[i] == w[i] && order[j] == w[j]);
            }
        }
    }
    assert(no_repeats(h2.order)) by {
        assert forall|i: int, j: int| 0 <= i < j < h2.order.len() implies h2.order[i] != h2.order[j] by {
            assert(h2.order[i] == order[i + k] && h2.order[j] == order[j + k]);
        }
    }
    assert forall|y: Seq<char>| h2.order.contains(y) <==> #[trigger] h2.last_pages.contains_key(y) by {
        let front = order.take(k);
        if h2.order.contains(y) {
            let i = choose|i: int| 0 <= i < h2.order.len() && h2.order[i] == y;
            assert(order[i + k] == y);
            assert(order.contains(y));
            if front.contains(y) {
                let j = choose|j: int| 0 <= j < front.len() && front[j] == y;
                assert(order[j] == y);
            }
            assert(!front.to_set().contains(y));
            if y != path {
                assert(w.contains(y)) by {
                    assert(order[i + k] == y);
                    assert(i + k < w.len());
                    assert(w[i + k] == y);
                }
                assert(h.order.contains(y));
            }
        }
        if h2.last_pages.contains_key(y) {
            assert(!front.to_set().contains(y));
            assert(!front.contains(y));
            assert(y == path || h.order.contains(y));
            assert(order.contains(y)) by {
                if y == path {
                    assert(order[w.len() as int] == y);
                } else {
                    assert(w.contains(y));
                    let j = choose|j: int| 0 <= j < w.len() && w[j] == y;
                    assert(order[j] == y);
                }
            }
            let j = choose|j: int| 0 <= j < order.len() && order[j] == y;
            if j < k {
                assert(front[j] == y);
            }
            assert(h2.order[j - k] == y);
        }
    }
}

/// Recording the same visit twice leaves the history as recording it once.
pub proof fn lemma_record_twice(h: HistoryView, path: Seq<char>, page: usize)
    ensures
        record_visit(record_visit(h, path, page), path, page) == record_visit(h, path, page),
{
    let h1 = record_visit(h, path, page);
    lemma_record_then_restore(h, path, page);
    lemma_record_no_repeat(h, path, page);
    let o1 = h1.order;
    let t = o1.drop_last();
    assert(!t.contains(path)) by {
        if t.contains(path) {
            let i = choose|i: int| 0 <= i < t.len() && t[i] == path;
            assert(o1[i] == path);
        }
    }
    lemma_without_contents(t, path);
    assert(o1.len() > 0);
    assert(without(o1, path) == without(t, path)) by {
        assert(o1.last() == path);
    }
    assert(without(o1, path).push(path) =~= o1);
    let order2 = without(o1, path).push(path);
    assert(excess(order2) == 0);
    assert(order2.take(0).to_set() =~= Set::<Seq<char>>::empty());
    assert(order2.skip(0) =~= o1);
    assert(h1.last_pages.insert(path, page).remove_keys(Set::<Seq<char>>::empty()) =~= h1.last_pages);
}

/// The reading history: for each document path the page last read, and the
/// order in which documents were last visited.
pub struct AppHistory {
    paths: Vec<String>,
    pages: Vec<usize>,
    order: Vec<String>,
}

/// The characters of each string.
pub open spec fn string_views(v: Seq<String>) -> Seq<Seq<char>> {
    v.map_values(|s: String| s@)
}

impl AppHistory {
    /// Each path has one page, and no path occurs twice.
    pub closed spec fn wf(self) -> bool {
        &&& self.paths@.len() == self.pages@.len()
        &&& forall|i: int, j: int|
            0 <= i < j < self.paths@.len() ==> #[trigger] self.paths@[i]@ != #[trigger] self.paths@[j]@
    }

    /// The index of the entry for `k`, if any.
    closed spec fn index_of(self, k: Seq<char>) -> int {
        choose|i: int| 0 <= i < self.paths@.len() && self.paths@[i]@ == k
    }

    /// The history as mathematical values.
    pub closed spec fn view(self) -> HistoryView {
        HistoryView {
            last_pages: Map::new(
                |k: Seq<char>| exists|i: int| 0 <= i < self.paths@.len() && self.paths@[i]@ == k,
                |k: Seq<char>| self.pages@[self.index_of(k)],
            ),
            order: string_views(self.order@),
        }
    }

    /// An empty history.
    pub fn new() -> (h: AppHistory)
        ensures
            h.wf(),
            h.view().last_pages == Map::<Seq<char>, usize>::empty(),
            h.view().order == Seq::<Seq<char>>::empty(),
            consistent(h.view()),
    {
        let h = AppHistory { paths: Vec::new(), pages: Vec::new(), order: Vec::new() };
        assert(h.view().last_pages =~= Map::<Seq<char>, usize>::empty());
        assert(h.view().order =~= Seq::<Seq<char>>::empty());
        h
    }

    /// The position of `path` among the recorded paths.
    fn find(&self, path: &str) -> (r: Option<usize>)
        requires
            self.wf(),
        ensures
            match r {
                Some(i) => i < self.paths@.len() && self.paths@[i as int]@ == path@,
                None => forall|i: int| 0 <= i < self.paths@.len() ==> self.paths@[i]@ != path@,
            },
    {
        let target = path.to_owned();
        let mut i: usize = 0;
        while i < self.paths.len()
            invariant
                i <= self.paths@.len(),
                target@ == path@,
                forall|j: int| 0 <= j < i ==> self.paths@[j]@ != path@,
            decreases self.paths.len() - i,
        {
            if self.paths[i] == target {
                return Some(i);
            }
            i += 1;
        }
        None
    }

    proof fn lemma_index_of(self, i: int)
        requires
            self.wf(),
            0 <= i < self.paths@.len(),
        ensures
            self.index_of(self.paths@[i]@) == i,
            self.view().last_pages.contains_key(self.paths@[i]@),
            self.view().last_pages[self.paths@[i]@] == self.pages@[i],
    {
        let k = self.paths@[i]@;
        let j = self.index_of(k);
        assert(0 <= j < self.paths@.len() && self.paths@[j]@ == k);
        if j < i {
            assert(self.paths@[j]@ != self.paths@[i]@);
        } else if j > i {
            assert(self.paths@[i]@ != self.paths@[j]@);
        }
    }

    /// The page last read in `path`, if it was recorded.
    pub fn last_page(&self, path: &str) -> (r: Option<usize>)
        requires
            self.wf(),
        ensures
            r == if self.view().last_pages.contains_key(path@) {
                Some(self.view().last_pages[path@])
            } else {
                None::<usize>
            },
    {
        match self.find(path) {
            Some(i) => {
                proof {
                    self.lemma_index_of(i as int);
                }
                Some(self.pages[i])
            },
            None => None,
        }
    }

    /// The page at which `path` reopens: the one recorded for it, or the first.
    pub fn restore_page(&self, path: &str) -> (page: usize)
        requires
            self.wf(),
        ensures
            page == restore_page(self.view(), path@),
    {
        match self.last_page(path) {
            Some(p) => p,
            None => 0,
        }
    }

    /// Records `page` as the last page read in `path`.
    pub fn set_last_page(&mut self, path: &str, page: usize)
        requires
            old(self).wf(),
        ensures
            final(self).wf(),
            final(self).view().last_pages == old(self).view().last_pages.insert(path@, page),
            final(self).view().order == old(self).view().order,
    {
        match self.find(path) {
            Some(i) => {
                let ghost old_self = *self;
                self.pages.set(i, page);
                proof {
                    assert forall|k: Seq<char>| #[trigger] self.view().last_pages.contains_key(k) implies self.view().last_pages[k]
                        == old_self.view().last_pages.insert(path@, page)[k] by {
                        let j = self.index_of(k);
                        old_self.lemma_index_of(j);
                        self.lemma_index_of(j);
                    }
                    assert(self.view().last_pages =~= old_self.view().last_pages.insert(path@, page));
                }
            },
            None => {
                let ghost old_self = *self;
                self.paths.push(path.to_owned());
                self.pages.push(page);
                proof {
                    let n = old_self.paths@.len();
                    assert(self.paths@[n as int]@ == path@);
                    assert forall|i: int, j: int|
                        0 <= i < j < self.paths@.len() implies #[trigger] self.paths@[i]@ != #[trigger] self.paths@[j]@ by {
                        if j == n {
                            assert(old_self.paths@[i]@ != path@);
                        } else {
                            assert(old_self.paths@[i]@ != old_self.paths@[j]@);
                        }
                    }
                    assert forall|k: Seq<char>| #[trigger] self.view().last_pages.contains_key(k) implies self.view().last_pages[k]
                        == old_self.view().last_pages.insert(path@, page)[k] by {
                        let j = self.index_of(k);
                        self.lemma_index_of(j);
                        if j < n {
                            old_self.lemma_index_of(j);
                        }
                    }
                    assert forall|k: Seq<char>| #[trigger] old_self.view().last_pages.insert(path@, page).contains_key(k) implies self.view().last_pages.contains_key(k) by {
                        if k != path@ {
                            let j = old_self.index_of(k);
                            assert(self.paths@[j]@ == k);
                        } else {
                            assert(self.paths@[n as int]@ == k);
                        }
                    }
                    assert(self.view().last_pages =~= old_self.view().last_pages.insert(path@, page));
                    assert(self.view().order =~= old_self.view().order);
                }
            },
        }
    }

    /// Forgets the page recorded for `path`.
    pub fn forget_page(&mut self, path: &str)
        requires
            old(self).wf(),
        ensures
            final(self).wf(),
            final(self).view().last_pages == old(self).view().last_pages.remove(path@),
            final(self).view().order == old(self).view().order,
    {
        match self.find(path) {
            Some(i) => {
                let ghost old_self = *self;
                self.paths.remove(i);
                self.pages.remove(i);
                proof {
                    assert forall|a: int, b: int|
                        0 <= a < b < self.paths@.len() implies #[trigger] self.paths@[a]@ != #[trigger] self.paths@[b]@ by {
                        let oa = if a < i { a } else { a + 1 };
                        let ob = if b < i { b } else { b + 1 };
                        assert(self.paths@[a] == old_self.paths@[oa]);
                        assert(self.paths@[b] == old_self.paths@[ob]);
                    }
                    assert forall|k: Seq<char>| #[trigger] self.view().last_pages.contains_key(k) implies self.view().last_pages[k]
                        == old_self.view().last_pages.remove(path@)[k] && k != path@ by {
                        let j = self.index_of(k);
                        self.lemma_index_of(j);
                        let oj = if j < i { j } else { j + 1 };
                        assert(self.paths@[j] == old_self.paths@[oj]);
                        assert(self.pages@[j] == old_self.pages@[oj]);
                        old_self.lemma_index_of(oj);
                        if k == path@ {
                            assert(old_self.paths@[i as int]@ == old_self.paths@[oj]@);
                        }
                    }
                    assert forall|k: Seq<char>| #[trigger] old_self.view().last_pages.remove(path@).contains_key(k) implies self.view().last_pages.contains_key(k) by {
                        let oj = old_self.index_of(k);
                        assert(oj != i);
                        let j = if oj < i { oj } else { oj - 1 };
                        assert(self.paths@[j] == old_self.paths@[oj]);
                    }
                    assert(self.view().last_pages =~= old_self.view().last_pages.remove(path@));
                    assert(self.view().order =~= old_self.view().order);
                }
            },
            None => {
                proof {
                    assert forall|k: Seq<char>| #[trigger] self.view().last_pages.contains_key(k) implies k != path@ by {
                        let j = self.index_of(k);
                    }
                    assert(self.view().last_pages =~= self.view().last_pages.remove(path@));
                }
            },
        }
    }

    /// Records a visit to `path` at `page`: the page is remembered, `path`
    /// moves to the most recent end of the order, and the oldest paths are
    /// forgotten while more than `MAX_RECORDS` are ordered.
    pub fn record_visit(&mut self, path: &str, page: usize)
        requires
            old(self).wf(),
        ensures
            final(self).wf(),
            final(self).view() == record_visit(old(self).view(), path@, page),
    {
        let ghost h0 = self.view();
        self.set_last_page(path, page);
        let target = path.to_owned();
        let mut kept: Vec<String> = Vec::new();
        let mut i: usize = 0;
        assert(self.order@.take(0) =~= Seq::<String>::empty());
        assert(string_views(kept@) =~= without(string_views(self.order@.take(0)), path@));
        while i < self.order.len()
            invariant
                self.wf(),
                i <= self.order@.len(),
                string_views(self.order@) == h0.order,
                target@ == path@,
                string_views(kept@) == without(string_views(self.order@.take(i as int)), path@),
            decreases self.order.len() - i,
        {
            let ghost pre = kept@;
            assert(self.order@.take(i + 1).drop_last() =~= self.order@.take(i as int));
            assert(string_views(self.order@.take(i + 1)).drop_last() =~= string_views(self.order@.take(i as int)));
            assert(string_views(self.order@.take(i + 1)).last() == self.order@[i as int]@);
            if self.order[i] != target {
                kept.push(self.order[i].clone());
                assert(string_views(kept@) =~= string_views(pre).push(self.order@[i as int]@));
            }
            i += 1;
        }
        assert(self.order@.take(i as int) =~= self.order@);
        kept.push(path.to_owned());
        let ghost full = without(h0.order, path@).push(path@);
        assert(string_views(kept@) =~= full);
        let ghost m0 = self.view().last_pages;
        self.order = kept;
        let ghost mut removed: int = 0;
        assert(self.view().last_pages =~= m0.remove_keys(full.take(0).to_set()));
        while self.order.len() > MAX_RECORDS
            invariant
                self.wf(),
                0 <= removed <= excess(full),
                string_views(self.order@) == full.skip(removed),
                self.view().last_pages == m0.remove_keys(full.take(removed).to_set()),
                self.order@.len() > MAX_RECORDS ==> removed < excess(full),
            decreases self.order.len(),
        {
            assert(string_views(self.order@)[0] == self.order@[0]@);
            assert(full.skip(removed)[0] == full[removed]);
            let ghost pre_order = self.order@;
            assert(string_views(pre_order).len() == pre_order.len());
            assert(pre_order.len() == full.len() - removed);
            let oldest = self.order.remove(0);
            assert(oldest@ == full[removed]);
            assert(self.order@ =~= pre_order.drop_first());
            assert forall|j: int| 0 <= j < self.order@.len() implies #[trigger] string_views(self.order@)[j] == full.skip(removed + 1)[j] by {
                assert(string_views(pre_order)[j + 1] == pre_order[j + 1]@);
                assert(full.skip(removed)[j + 1] == full[removed + j + 1]);
                assert(full.skip(removed + 1)[j] == full[removed + 1 + j]);
            }
            assert(string_views(self.order@) =~= full.skip(removed + 1));
            self.forget_page(oldest.as_str());
            proof {
                assert(full.take(removed + 1).to_set() =~= full.take(removed).to_set().insert(full[removed])) by {
                    let a = full.take(removed + 1);
                    let b = full.take(removed);
                    assert forall|x: Seq<char>| a.to_set().contains(x) <==> b.to_set().insert(full[removed]).contains(x) by {
                        if a.contains(x) {
                            let j = choose|j: int| 0 <= j < a.len() && a[j] == x;
                            if j < removed {
                                assert(b[j] == x);
                            }
                        }
                        if b.contains(x) {
                            let j = choose|j: int| 0 <= j < b.len() && b[j] == x;
                            assert(a[j] == x);
                        }
                        if x == full[removed] {
                            assert(a[removed] == x);
                        }
                    }
                }
                assert(m0.remove_keys(full.take(removed).to_set().insert(full[removed])) =~= m0.remove_keys(full.take(removed).to_set()).remove(full[removed]));
                assert(self.view().last_pages =~= m0.remove_keys(full.take(removed + 1).to_set()));
                removed = removed + 1;
            }
        }
        assert(removed == excess(full));
        assert(self.view() == record_visit(h0, path@, page));
    }

    /// The recorded `(path, page)` pairs.
    pub fn entries(&self) -> (r: Vec<(String, usize)>)
        requires
            self.wf(),
        ensures
            forall|i: int, j: int| 0 <= i < j < r@.len() ==> #[trigger] r@[i].0@ != #[trigger] r@[j].0@,
            forall|i: int| 0 <= i < r@.len() ==> self.view().last_pages.contains_key(#[trigger] r@[i].0@)
                && self.view().last_pages[r@[i].0@] == r@[i].1,
            forall|k: Seq<char>| #[trigger] self.view().last_pages.contains_key(k) ==> exists|i: int|
                0 <= i < r@.len() && r@[i].0@ == k,
    {
        let mut r: Vec<(String, usize)> = Vec::new();
        let mut i: usize = 0;
        while i < self.paths.len()
            invariant
                self.wf(),
                i <= self.paths@.len(),
                r@.len() == i,
                forall|j: int| 0 <= j < i ==> (#[trigger] r@[j]).0@ == self.paths@[j]@ && r@[j].1 == self.pages@[j],
            decreases self.paths.len() - i,
        {
            r.push((self.paths[i].clone(), self.pages[i]));
            i += 1;
        }
        proof {
            assert forall|j: int| 0 <= j < r@.len() implies self.view().last_pages.contains_key(#[trigger] r@[j].0@)
                && self.view().last_pages[r@[j].0@] == r@[j].1 by {
                self.lemma_index_of(j);
            }
            assert forall|k: Seq<char>| #[trigger] self.view().last_pages.contains_key(k) implies exists|j: int|
                0 <= j < r@.len() && r@[j].0@ == k by {
                let j = self.index_of(k);
                assert(r@[j].0@ == k);
            }
        }
        r
    }

    /// The visited paths, least recent first.
    pub fn order(&self) -> (r: Vec<String>)
        ensures
            string_views(r@) == self.view().order,
    {
        self.order.clone()
    }

    /// Replaces the visit order with `order`, as read from a saved history.
    pub fn set_order(&mut self, order: Vec<String>)
        requires
            old(self).wf(),
        ensures
            final(self).wf(),
            final(self).view().last_pages == old(self).view().last_pages,
            final(self).view().order == string_views(order@),
    {
        self.order = order;
        assert(self.view().last_pages =~= old(self).view().last_pages);
    }
}

} // verus!
