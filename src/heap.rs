//! A binary min-heap on the citation count, laid out in a vector.
use vstd::prelude::*;
use crate::record::WorkObject;
use crate::topk::is_min_index;

verus! {

broadcast use {vstd::seq_lib::group_to_multiset_ensures, vstd::multiset::group_multiset_axioms};

/// Each work scores at least as much as its parent in the binary tree laid
/// out over the sequence, so the first work has the lowest score.
pub open spec fn heap_ordered(s: Seq<WorkObject>) -> bool {
    forall|i: int| 0 < i < s.len() ==> s[(i - 1) / 2].cited_by_count <= #[trigger] s[i].cited_by_count
}

/// Heap order, but for the edge from `k` to its parent; the parent of `k`
/// is no higher than the children of `k`.
pub(crate) open spec fn heap_ordered_above(s: Seq<WorkObject>, k: int) -> bool {
    &&& forall|i: int|
        0 < i < s.len() && i != k ==> s[(i - 1) / 2].cited_by_count <= #[trigger] s[i].cited_by_count
    &&& k > 0 ==> forall|c: int|
        0 < c < s.len() && (c - 1) / 2 == k ==> s[(k - 1) / 2].cited_by_count <= #[trigger] s[c].cited_by_count
}

/// Heap order, but for the edges from `k` to its children; the parent of
/// `k` is no higher than the children of `k`.
pub(crate) open spec fn heap_ordered_below(s: Seq<WorkObject>, k: int) -> bool {
    &&& forall|i: int|
        0 < i < s.len() && (i - 1) / 2 != k ==> s[(i - 1) / 2].cited_by_count <= #[trigger] s[i].cited_by_count
    &&& k > 0 ==> forall|c: int|
        0 < c < s.len() && (c - 1) / 2 == k ==> s[(k - 1) / 2].cited_by_count <= #[trigger] s[c].cited_by_count
}

proof fn lemma_root_lowest(s: Seq<WorkObject>, j: int)
    requires
        heap_ordered(s),
        0 <= j < s.len(),
    ensures
        s[0].cited_by_count <= s[j].cited_by_count,
    decreases j,
{
    if j > 0 {
        lemma_root_lowest(s, (j - 1) / 2);
    }
}

pub(crate) proof fn lemma_root_is_min(s: Seq<WorkObject>)
    requires
        heap_ordered(s),
        s.len() > 0,
    ensures
        is_min_index(s, 0),
{
    assert forall|j: int| 0 <= j < s.len() implies s[0].cited_by_count <= #[trigger] s[j].cited_by_count by {
        lemma_root_lowest(s, j);
    }
}

proof fn lemma_swap_keeps_bag(s: Seq<WorkObject>, i: int, j: int)
    requires
        0 <= i < s.len(),
        0 <= j < s.len(),
        i != j,
    ensures
        s.update(i, s[j]).update(j, s[i]).to_multiset() == s.to_multiset(),
{
    let u = s.update(i, s[j]);
    assert(u.to_multiset() == s.to_multiset().insert(s[j]).remove(s[i]));
    assert(u.update(j, s[i]).to_multiset() == u.to_multiset().insert(s[i]).remove(u[j]));
    assert(u.update(j, s[i]).to_multiset() =~= s.to_multiset());
}

/// Taking the root out of a heap by moving its last work to the root
/// leaves order below the root and the same works but the root.
pub(crate) proof fn lemma_take_root(h0: Seq<WorkObject>)
    requires
        heap_ordered(h0),
        h0.len() > 1,
    ensures
        heap_ordered_below(h0.drop_last().update(0, h0.last()), 0),
        h0.drop_last().update(0, h0.last()).to_multiset().insert(h0[0]) == h0.to_multiset(),
        forall|j: int|
            0 <= j < h0.len() - 1 ==> h0[0].cited_by_count
                <= #[trigger] h0.drop_last().update(0, h0.last())[j].cited_by_count,
{
    let d = h0.drop_last();
    let h = d.update(0, h0.last());
    lemma_root_is_min(h0);
    assert(h0 == d.push(h0.last()));
    assert(h0.to_multiset() == d.to_multiset().insert(h0.last()));
    assert(h.to_multiset() == d.to_multiset().insert(h0.last()).remove(d[0]));
    assert(h.to_multiset().insert(h0[0]) =~= h0.to_multiset());
    assert forall|i: int| 0 < i < h.len() && (i - 1) / 2 != 0 implies h[(i - 1) / 2].cited_by_count
        <= #[trigger] h[i].cited_by_count by {
        assert(h[i] == h0[i]);
    }
    assert forall|j: int| 0 <= j < h0.len() - 1 implies h0[0].cited_by_count <= #[trigger] h[j].cited_by_count by {
        if j == 0 {
            assert(h[0] == h0[h0.len() - 1]);
        } else {
            assert(h[j] == h0[j]);
        }
    }
}

/// A lower bound on the scores of a sequence holds of any reordering of it.
pub(crate) proof fn lemma_lower_bound_moves(a: Seq<WorkObject>, b: Seq<WorkObject>, x: u32)
    requires
        a.to_multiset() == b.to_multiset(),
        forall|j: int| 0 <= j < b.len() ==> x <= #[trigger] b[j].cited_by_count,
    ensures
        forall|j: int| 0 <= j < a.len() ==> x <= #[trigger] a[j].cited_by_count,
{
    assert forall|j: int| 0 <= j < a.len() implies x <= #[trigger] a[j].cited_by_count by {
        assert(a.to_multiset().count(a[j]) > 0);
        assert(b.contains(a[j]));
    }
}

/// A work with empty fields, to stand in a slot for a moment.
fn filler() -> (r: WorkObject) {
    WorkObject {
        id: String::new(),
        is_oa: false,
        oa_status: String::new(),
        cited_by_count: 0,
        domain: String::new(),
        language: String::new(),
        publication_year: 0,
        publication_date: None,
        raw: String::new(),
    }
}

/// Exchanges the works at `i` and `j`.
fn swap_items(v: &mut Vec<WorkObject>, i: usize, j: usize)
    requires
        i < old(v)@.len(),
        j < old(v)@.len(),
        i != j,
    ensures
        final(v)@ == old(v)@.update(i as int, old(v)@[j as int]).update(j as int, old(v)@[i as int]),
        final(v)@.to_multiset() == old(v)@.to_multiset(),
{
    proof {
        lemma_swap_keeps_bag(v@, i as int, j as int);
    }
    let mut a = filler();
    std::mem::swap(&mut v[i], &mut a);
    std::mem::swap(&mut v[j], &mut a);
    std::mem::swap(&mut v[i], &mut a);
}

/// Moves the work at `k` towards the root until heap order holds.
pub(crate) fn sift_up(v: &mut Vec<WorkObject>, k: usize)
    requires
        k < old(v)@.len(),
        heap_ordered_above(old(v)@, k as int),
    ensures
        heap_ordered(final(v)@),
        final(v)@.to_multiset() == old(v)@.to_multiset(),
        final(v)@.len() == old(v)@.len(),
{
    let mut k = k;
    let mut done = false;
    while k > 0 && !done
        invariant
            k < v@.len(),
            v@.len() == old(v)@.len(),
            heap_ordered_above(v@, k as int),
            v@.to_multiset() == old(v)@.to_multiset(),
            done ==> heap_ordered(v@),
        decreases k, if done { 0int } else { 1int },
    {
        let p = (k - 1) / 2;
        if v[p].cited_by_count <= v[k].cited_by_count {
            done = true;
        } else {
            let ghost s = v@;
            swap_items(v, k, p);
            proof {
                let k: int = k as int;
                let p: int = p as int;
                let t = v@;
                assert forall|i: int| 0 < i < t.len() && i != p implies t[(i - 1) / 2].cited_by_count
                    <= #[trigger] t[i].cited_by_count by {
                    if i == k {
                    } else if (i - 1) / 2 == k {
                        assert(s[(k - 1) / 2].cited_by_count <= s[i].cited_by_count);
                    } else if (i - 1) / 2 == p {
                        assert(s[p].cited_by_count <= s[i].cited_by_count);
                    } else {
                        assert(t[i] == s[i]);
                    }
                }
                if p > 0 {
                    assert forall|c: int| 0 < c < t.len() && (c - 1) / 2 == p implies t[(p - 1) / 2].cited_by_count
                        <= #[trigger] t[c].cited_by_count by {
                        assert(s[(p - 1) / 2].cited_by_count <= s[p].cited_by_count);
                        if c != k {
                            assert(s[p].cited_by_count <= s[c].cited_by_count);
                        }
                    }
                }
            }
            k = p;
        }
    }
    if !done {
        assert(heap_ordered(v@));
    }
}

proof fn lemma_down_step(s: Seq<WorkObject>, k: int, m: int)
    requires
        heap_ordered_below(s, k),
        0 <= k < m < s.len(),
        (m - 1) / 2 == k,
        s[m].cited_by_count < s[k].cited_by_count,
        forall|c: int| 0 < c < s.len() && (c - 1) / 2 == k ==> s[m].cited_by_count <= #[trigger] s[c].cited_by_count,
    ensures
        heap_ordered_below(s.update(k, s[m]).update(m, s[k]), m),
{
    let t = s.update(k, s[m]).update(m, s[k]);
    assert forall|i: int| 0 < i < t.len() && (i - 1) / 2 != m implies t[(i - 1) / 2].cited_by_count
        <= #[trigger] t[i].cited_by_count by {
        if i == m {
        } else if (i - 1) / 2 == k {
            assert(s[m].cited_by_count <= s[i].cited_by_count);
        } else if i == k {
            assert(s[(k - 1) / 2].cited_by_count <= s[m].cited_by_count);
        } else {
            assert(t[i] == s[i]);
        }
    }
    assert forall|c: int| 0 < c < t.len() && (c - 1) / 2 == m implies t[(m - 1) / 2].cited_by_count
        <= #[trigger] t[c].cited_by_count by {
        assert(s[m].cited_by_count <= s[c].cited_by_count);
    }
}

proof fn lemma_down_done(s: Seq<WorkObject>, k: int)
    requires
        heap_ordered_below(s, k),
        0 <= k < s.len(),
        forall|c: int| 0 < c < s.len() && (c - 1) / 2 == k ==> s[k].cited_by_count <= #[trigger] s[c].cited_by_count,
    ensures
        heap_ordered(s),
{
    assert forall|i: int| 0 < i < s.len() implies s[(i - 1) / 2].cited_by_count <= #[trigger] s[i].cited_by_count by {
        if (i - 1) / 2 == k {
        }
    }
}

/// Moves the work at `k` away from the root until heap order holds.
pub(crate) fn sift_down(v: &mut Vec<WorkObject>, k: usize)
    requires
        k < old(v)@.len(),
        heap_ordered_below(old(v)@, k as int),
    ensures
        heap_ordered(final(v)@),
        final(v)@.to_multiset() == old(v)@.to_multiset(),
        final(v)@.len() == old(v)@.len(),
{
    let n = v.len();
    let mut k = k;
    let mut done = false;
    while !done
        invariant
            n == v@.len(),
            k < n,
            v@.len() == old(v)@.len(),
            heap_ordered_below(v@, k as int),
            v@.to_multiset() == old(v)@.to_multiset(),
            done ==> heap_ordered(v@),
        decreases n - k, if done { 0int } else { 1int },
    {
        if k >= n / 2 {
            proof {
                lemma_down_done(v@, k as int);
            }
            done = true;
        } else {
            let l = 2 * k + 1;
            let m = if l + 1 < n && v[l + 1].cited_by_count < v[l].cited_by_count {
                l + 1
            } else {
                l
            };
            proof {
                assert forall|c: int| 0 < c < n && (c - 1) / 2 == k implies v@[m as int].cited_by_count
                    <= #[trigger] v@[c].cited_by_count by {
                    assert(c == l || c == l + 1);
                }
            }
            if v[k].cited_by_count <= v[m].cited_by_count {
                proof {
                    lemma_down_done(v@, k as int);
                }
                done = true;
            } else {
                proof {
                    lemma_down_step(v@, k as int, m as int);
                }
                swap_items(v, k, m);
                k = m;
            }
        }
    }
}

} // verus!
