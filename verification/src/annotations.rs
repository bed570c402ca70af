//! Per-page annotation layers: the strokes drawn on each page, in the order
//! they were drawn, with undo and clearing.
use std::collections::BTreeMap;
use vstd::prelude::*;
use vstd::laws_cmp::obeys_cmp;
use vstd::std_specs::btree::increasing_seq;
use vstd::std_specs::btree::spec_keys_iter;
use vstd::std_specs::cmp::OrdSpec;
use vstd::std_specs::iter::IteratorSpec;

verus! {

/// The layers after stroke `a` is drawn on `page`: it goes on top of the
/// page's strokes.
pub open spec fn with_stroke<A>(m: Map<usize, Seq<A>>, page: usize, a: A) -> Map<usize, Seq<A>> {
    m.insert(page, if m.contains_key(page) { m[page].push(a) } else { seq![a] })
}

/// The layers after the newest stroke of `page` is taken back: a page left
/// without strokes is dropped; a page without strokes stays as it was.
pub open spec fn without_top<A>(m: Map<usize, Seq<A>>, page: usize) -> Map<usize, Seq<A>> {
    if !m.contains_key(page) {
        m
    } else if m[page].len() == 1 {
        m.remove(page)
    } else {
        m.insert(page, m[page].drop_last())
    }
}

/// Every page in the layers has a stroke.
pub open spec fn layers_wf<A>(m: Map<usize, Seq<A>>) -> bool {
    forall|p: usize| #[trigger] m.contains_key(p) ==> m[p].len() > 0
}

/// Undo takes back exactly the stroke just drawn: drawing `a` on `page` and
/// then undoing on `page` gives back the layers as they were.
pub proof fn lemma_undo_after_draw<A>(m: Map<usize, Seq<A>>, page: usize, a: A)
    requires
        layers_wf(m),
    ensures
        without_top(with_stroke(m, page, a), page) == m,
        with_stroke(m, page, a)[page].last() == a,
{
    let m1 = with_stroke(m, page, a);
    if m.contains_key(page) {
        assert(m[page].push(a).drop_last() =~= m[page]);
        assert(without_top(m1, page) =~= m);
    } else {
        assert(without_top(m1, page) =~= m);
    }
}

/// The strokes of each page, for pages that have any, keyed by page.
pub struct AnnotationStore<A> {
    layers: BTreeMap<usize, Vec<A>>,
}

impl<A> AnnotationStore<A> {
    /// Each page in the store has at least one stroke.
    pub closed spec fn wf(self) -> bool {
        forall|p: usize| #[trigger] self.layers@.contains_key(p) ==> self.layers@[p]@.len() > 0
    }

    /// The strokes of each page that has any, oldest first.
    pub closed spec fn view(self) -> Map<usize, Seq<A>> {
        self.layers@.map_values(|v: Vec<A>| v@)
    }

    /// The layers of a well-formed store have a stroke on every page.
    pub proof fn lemma_layers_wf(self)
        requires
            self.wf(),
        ensures
            layers_wf(self.view()),
    {
    }

    /// A store with no strokes.
    pub fn new() -> (s: AnnotationStore<A>)
        ensures
            s.wf(),
            s.view() == Map::<usize, Seq<A>>::empty(),
    {
        let s = AnnotationStore { layers: BTreeMap::new() };
        assert(s.view() =~= Map::<usize, Seq<A>>::empty());
        s
    }

    /// The strokes of `page`, if it has any.
    pub fn get(&self, page: usize) -> (r: Option<&Vec<A>>)
        requires
            self.wf(),
        ensures
            match r {
                Some(v) => self.view().contains_key(page) && v@ == self.view()[page],
                None => !self.view().contains_key(page),
            },
    {
        broadcast use vstd::std_specs::btree::group_btree_axioms, vstd::laws_cmp::group_laws_cmp;
        self.layers.get(&page)
    }

    /// Adds a stroke on top of those of `page`.
    pub fn push(&mut self, page: usize, a: A)
        requires
            old(self).wf(),
        ensures
            final(self).wf(),
            final(self).view() == with_stroke(old(self).view(), page, a),
    {
        broadcast use vstd::std_specs::btree::group_btree_axioms, vstd::laws_cmp::group_laws_cmp;
        let ghost before = self.view();
        let mut strokes = match self.layers.remove(&page) {
            Some(v) => v,
            None => Vec::new(),
        };
        let ghost prior = strokes@;
        strokes.push(a);
        self.layers.insert(page, strokes);
        proof {
            assert(before.contains_key(page) ==> prior == before[page]);
            assert(!before.contains_key(page) ==> prior =~= Seq::<A>::empty());
            assert(!before.contains_key(page) ==> prior.push(a) =~= seq![a]);
            assert(self.view() =~= with_stroke(before, page, a));
        }
    }

    /// Takes back the newest stroke of `page`; a page left without strokes
    /// is dropped. Returns the stroke taken back.
    pub fn undo(&mut self, page: usize) -> (r: Option<A>)
        requires
            old(self).wf(),
        ensures
            final(self).wf(),
            final(self).view() == without_top(old(self).view(), page),
            match r {
                Some(a) => old(self).view().contains_key(page) && a == old(self).view()[page].last(),
                None => !old(self).view().contains_key(page),
            },
    {
        broadcast use vstd::std_specs::btree::group_btree_axioms, vstd::laws_cmp::group_laws_cmp;
        let ghost before = self.view();
        match self.layers.remove(&page) {
            Some(mut strokes) => {
                let ghost prior = strokes@;
                assert(prior == before[page]);
                let top = strokes.pop();
                match top {
                    Some(a) => {
                        if strokes.len() > 0 {
                            self.layers.insert(page, strokes);
                            proof {
                                assert(self.view() =~= before.insert(page, prior.drop_last()));
                            }
                        } else {
                            proof {
                                assert(self.view() =~= before.remove(page));
                            }
                        }
                        Some(a)
                    },
                    None => {
                        assert(false);
                        None
                    },
                }
            },
            None => {
                assert(self.view() =~= before);
                None
            },
        }
    }

    /// Removes every stroke of `page`.
    pub fn clear_page(&mut self, page: usize)
        requires
            old(self).wf(),
        ensures
            final(self).wf(),
            final(self).view() == old(self).view().remove(page),
    {
        broadcast use vstd::std_specs::btree::group_btree_axioms, vstd::laws_cmp::group_laws_cmp;
        let ghost before = self.view();
        let _ = self.layers.remove(&page);
        assert(self.view() =~= before.remove(page));
    }

    /// Removes every stroke of every page.
    pub fn clear(&mut self)
        ensures
            final(self).wf(),
            final(self).view() == Map::<usize, Seq<A>>::empty(),
    {
        self.layers.clear();
        assert(self.view() =~= Map::<usize, Seq<A>>::empty());
    }

    /// The pages that have strokes, in increasing order.
    pub fn pages(&self) -> (r: Vec<usize>)
        requires
            self.wf(),
        ensures
            forall|i: int, j: int| 0 <= i < j < r@.len() ==> r@[i] < r@[j],
            forall|p: usize| r@.contains(p) <==> self.view().contains_key(p),
    {
        broadcast use vstd::std_specs::btree::group_btree_axioms, vstd::laws_cmp::group_laws_cmp;
        let mut r: Vec<usize> = Vec::new();
        for p in it: self.layers.keys()
            invariant
                r@ == it.seq().take(it.index()).unref(),
        {
            r.push(*p);
        }
        proof {
            let ks = spec_keys_iter(&self.layers).remaining();
            assert(obeys_cmp::<usize>());
            assert(obeys_cmp::<&usize>());
            assert(r@ =~= ks.unref());
            assert(increasing_seq(ks));
            assert forall|i: int, j: int| 0 <= i < j < r@.len() implies r@[i] < r@[j] by {
                assert(OrdSpec::cmp_spec(&ks[i], &ks[j]) is Less);
            }
            assert forall|p: usize| r@.contains(p) <==> self.view().contains_key(p) by {
                assert(ks.unref().to_set().contains(p) <==> ks.unref().contains(p));
                assert(ks.unref().to_set() == self.layers@.dom());
            }
        }
        r
    }
}

} // verus!
