use vstd::prelude::*;
use vstd::multiset::Multiset;
use crate::record::WorkObject;
use crate::vecs::reversed;
use crate::heap::{heap_ordered, lemma_lower_bound_moves, lemma_root_is_min, lemma_take_root, sift_down, sift_up};

verus! {

broadcast use {vstd::seq_lib::group_to_multiset_ensures, vstd::multiset::group_multiset_axioms};

/// The scores of a sequence of works, in the same order.
pub open spec fn score_seq(s: Seq<WorkObject>) -> Seq<u32> {
    s.map_values(|w: WorkObject| w.cited_by_count)
}

/// The scores of a sequence of works, as a multiset.
pub open spec fn score_bag(s: Seq<WorkObject>) -> Multiset<u32> {
    score_seq(s).to_multiset()
}

/// A set holding `s` takes no further work without evicting one.
pub open spec fn at_capacity(s: Seq<WorkObject>, cap: Option<usize>) -> bool {
    match cap {
        Some(k) => s.len() >= k,
        None => false,
    }
}

/// `s[i]` has the lowest score of `s`.
pub open spec fn is_min_index(s: Seq<WorkObject>, i: int) -> bool {
    &&& 0 <= i < s.len()
    &&& forall|j: int| 0 <= j < s.len() ==> s[i].cited_by_count <= #[trigger] s[j].cited_by_count
}

/// An offer of `w` to a set holding `s` keeps `w`.
pub open spec fn admits(s: Seq<WorkObject>, cap: Option<usize>, w: WorkObject) -> bool {
    ||| !at_capacity(s, cap)
    ||| exists|i: int| is_min_index(s, i) && s[i].cited_by_count < w.cited_by_count
}

/// One offer of `w` takes a set holding `s` to one holding `t`, in some
/// order: below capacity `w` is added; at capacity it replaces some work of
/// lowest score when it scores strictly higher, and is dropped otherwise.
pub open spec fn offer_step(s: Seq<WorkObject>, cap: Option<usize>, w: WorkObject, t: Seq<WorkObject>) -> bool {
    if !at_capacity(s, cap) {
        t.to_multiset() == s.push(w).to_multiset()
    } else if admits(s, cap, w) {
        exists|i: int| is_min_index(s, i) && t.to_multiset() == s.update(i, w).to_multiset()
    } else {
        t == s
    }
}

/// `states` lists the contents of a set that starts at `start` and takes
/// the works of `offers` one after another.
pub open spec fn is_run(
    start: Seq<WorkObject>,
    cap: Option<usize>,
    offers: Seq<WorkObject>,
    states: Seq<Seq<WorkObject>>,
) -> bool {
    &&& states.len() == offers.len() + 1
    &&& states[0] == start
    &&& forall|m: int|
        0 <= m < offers.len() ==> offer_step(#[trigger] states[m], cap, offers[m], states[m + 1])
}

/// The works in descending order of score.
pub open spec fn sorted_desc(s: Seq<WorkObject>) -> bool {
    forall|i: int, j: int| 0 <= i < j < s.len() ==> s[i].cited_by_count >= s[j].cited_by_count
}

/// Keeps the works of highest score among those offered to it, at most
/// `capacity` of them, or all of them when there is no capacity.
pub struct TopKAggregator {
    items: Vec<WorkObject>,
    capacity: Option<usize>,
}

impl View for TopKAggregator {
    type V = Seq<WorkObject>;

    closed spec fn view(&self) -> Seq<WorkObject> {
        self.items@
    }
}

impl TopKAggregator {
    #[verifier::type_invariant]
    spec fn inv(&self) -> bool {
        heap_ordered(self.items@)
    }

    pub closed spec fn cap(&self) -> Option<usize> {
        self.capacity
    }

    pub fn new(capacity: Option<usize>) -> (r: TopKAggregator)
        ensures
            r@ == Seq::<WorkObject>::empty(),
            r.cap() == capacity,
    {
        TopKAggregator { items: Vec::new(), capacity }
    }

    pub fn len(&self) -> (r: usize)
        ensures
            r == self@.len(),
    {
        self.items.len()
    }

    /// The lowest score held, if any work is held.
    pub fn min_score(&self) -> (r: Option<u32>)
        ensures
            r is None <==> self@.len() == 0,
            r matches Some(v) ==> exists|i: int| is_min_index(self@, i) && self@[i].cited_by_count == v,
    {
        proof {
            use_type_invariant(self);
        }
        if self.items.len() == 0 {
            None
        } else {
            proof {
                lemma_root_is_min(self@);
            }
            Some(self.items[0].cited_by_count)
        }
    }

    /// Offers one work to the set.
    pub fn offer(&mut self, w: WorkObject)
        ensures
            final(self).cap() == old(self).cap(),
            offer_step(old(self)@, old(self).cap(), w, final(self)@),
    {
        proof {
            use_type_invariant(&*self);
        }
        let full = match self.capacity {
            Some(k) => self.items.len() >= k,
            None => false,
        };
        let ghost s = self@;
        if !full {
            let mut items: Vec<WorkObject> = Vec::new();
            std::mem::swap(&mut items, &mut self.items);
            items.push(w);
            let k = items.len() - 1;
            sift_up(&mut items, k);
            self.items = items;
            return;
        }
        if self.items.len() == 0 {
            return;
        }
        proof {
            lemma_root_is_min(s);
        }
        if self.items[0].cited_by_count < w.cited_by_count {
            let mut items: Vec<WorkObject> = Vec::new();
            std::mem::swap(&mut items, &mut self.items);
            items.set(0, w);
            assert(items@ == s.update(0, w));
            sift_down(&mut items, 0);
            self.items = items;
        } else {
            assert(!admits(s, self.capacity, w)) by {
                if exists|i: int| is_min_index(s, i) && s[i].cited_by_count < w.cited_by_count {
                    let i = choose|i: int| is_min_index(s, i) && s[i].cited_by_count < w.cited_by_count;
                    assert(s[0].cited_by_count <= s[i].cited_by_count);
                }
            }
        }
    }

    /// Offers each work of `ws`, in order.
    pub fn offer_all(&mut self, ws: Vec<WorkObject>)
        ensures
            final(self).cap() == old(self).cap(),
            exists|states: Seq<Seq<WorkObject>>|
                is_run(old(self)@, old(self).cap(), ws@, states) && states.last() == final(self)@,
    {
        let ghost start = self@;
        let ghost mut states: Seq<Seq<WorkObject>> = seq![start];
        let mut i: usize = 0;
        let ghost all = ws@;
        let n = ws.len();
        let mut rest = reversed(ws);
        while i < n
            invariant
                n == all.len(),
                i <= all.len(),
                rest@.len() == all.len() - i,
                rest@.len() == n - i,
            forall|j: int| 0 <= j < rest@.len() ==> #[trigger] rest@[j] == all[n - 1 - j],
                self.cap() == old(self).cap(),
                is_run(start, self.cap(), all.take(i as int), states),
                states.last() == self@,
            decreases n - i,
        {
            let w = rest.pop().unwrap();
            assert(w == all[i as int]);
            let ghost before = self@;
            self.offer(w);
            proof {
                let prev = states;
                states = states.push(self@);
                assert(all.take(i + 1) == all.take(i as int).push(w));
                assert forall|m: int| 0 <= m < i + 1 implies offer_step(
                    #[trigger] states[m],
                    self.cap(),
                    all.take(i + 1)[m],
                    states[m + 1],
                ) by {
                    if m < i {
                        assert(states[m] == prev[m]);
                        assert(states[m + 1] == prev[m + 1]);
                        assert(offer_step(prev[m], self.cap(), all.take(i as int)[m], prev[m + 1]));
                    }
                }
            }
            i += 1;
        }
        assert(all.take(all.len() as int) == all);
    }

    /// Closes the set and hands out what it holds, highest score first.
    pub fn into_sorted(self) -> (r: Vec<WorkObject>)
        ensures
            r@.to_multiset() == self@.to_multiset(),
            sorted_desc(r@),
    {
        proof {
            use_type_invariant(&self);
        }
        let ghost whole = self@;
        let mut heap = self.items;
        let mut asc: Vec<WorkObject> = Vec::new();
        while heap.len() > 0
            invariant
                heap_ordered(heap@),
                forall|i: int, j: int|
                    0 <= i < j < asc@.len() ==> asc@[i].cited_by_count <= asc@[j].cited_by_count,
                asc@.len() > 0 ==> forall|j: int|
                    0 <= j < heap@.len() ==> asc@.last().cited_by_count <= #[trigger] heap@[j].cited_by_count,
                asc@.to_multiset().add(heap@.to_multiset()) == whole.to_multiset(),
            decreases heap.len(),
        {
            let ghost h0 = heap@;
            let mut w = heap.pop().unwrap();
            proof {
                lemma_root_is_min(h0);
                assert(h0 == heap@.push(w));
            }
            if heap.len() > 0 {
                let ghost h1 = heap@;
                std::mem::swap(&mut heap[0], &mut w);
                proof {
                    lemma_take_root(h0);
                    assert(heap@ == h0.drop_last().update(0, h0.last()));
                    assert(w == h0[0]);
                }
                let ghost h2 = heap@;
                sift_down(&mut heap, 0);
                proof {
                    lemma_lower_bound_moves(heap@, h2, w.cited_by_count);
                }
            } else {
                assert(h0.to_multiset() == heap@.to_multiset().insert(w));
            }
            proof {
                if asc@.len() > 0 {
                    assert(asc@.last().cited_by_count <= h0[0].cited_by_count);
                }
            }
            let ghost a0 = asc@;
            asc.push(w);
            proof {
                assert(asc@.to_multiset() == a0.to_multiset().insert(w));
                assert(asc@.to_multiset().add(heap@.to_multiset()) =~= whole.to_multiset());
            }
        }
        let mut out: Vec<WorkObject> = Vec::new();
        while asc.len() > 0
            invariant
                forall|i: int, j: int|
                    0 <= i < j < asc@.len() ==> asc@[i].cited_by_count <= asc@[j].cited_by_count,
                sorted_desc(out@),
                forall|i: int, j: int|
                    0 <= i < asc@.len() && 0 <= j < out@.len() ==> asc@[i].cited_by_count
                        <= out@[j].cited_by_count,
                out@.to_multiset().add(asc@.to_multiset()) == whole.to_multiset(),
            decreases asc.len(),
        {
            let ghost a0 = asc@;
            let ghost o0 = out@;
            let w = asc.pop().unwrap();
            out.push(w);
            proof {
                assert(a0 == asc@.push(w));
                assert(a0.to_multiset() == asc@.to_multiset().insert(w));
                assert(out@.to_multiset() == o0.to_multiset().insert(w));
                assert(out@.to_multiset().add(asc@.to_multiset()) =~= whole.to_multiset());
                assert forall|i: int, j: int| 0 <= i < asc@.len() && 0 <= j < out@.len() implies asc@[i].cited_by_count
                    <= out@[j].cited_by_count by {
                    assert(asc@[i] == a0[i]);
                    if j < o0.len() {
                        assert(out@[j] == o0[j]);
                    }
                }
                assert forall|i: int, j: int| 0 <= i < j < out@.len() implies out@[i].cited_by_count
                    >= out@[j].cited_by_count by {
                    if j < o0.len() {
                        assert(out@[i] == o0[i]);
                        assert(out@[j] == o0[j]);
                    } else {
                        assert(out@[i] == o0[i]);
                    }
                }
            }
        }
        assert(out@.to_multiset() =~= whole.to_multiset());
        out
    }
}

} // verus!
