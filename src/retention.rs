//! What a run of offers leaves in a `TopKAggregator`, stated over the
//! relation `offer_step` that each offer satisfies.
use vstd::prelude::*;
use vstd::multiset::Multiset;
use crate::record::WorkObject;
use crate::topk::{admits, at_capacity, is_min_index, is_run, offer_step, score_bag, score_seq};

verus! {

broadcast use {vstd::seq_lib::group_to_multiset_ensures, vstd::multiset::group_multiset_axioms};

/// How many of the scores in `s` are at least `t`.
pub open spec fn count_at_least(s: Seq<u32>, t: int) -> nat
    decreases s.len(),
{
    if s.len() == 0 {
        0
    } else {
        count_at_least(s.drop_last(), t) + if s.last() >= t { 1nat } else { 0nat }
    }
}

/// `n` cut down to the capacity, if there is one.
pub open spec fn capped(cap: Option<usize>, n: nat) -> nat {
    match cap {
        Some(k) => if n <= k { n } else { k as nat },
        None => n,
    }
}

proof fn lemma_count_push(s: Seq<u32>, x: u32, t: int)
    ensures
        count_at_least(s.push(x), t) == count_at_least(s, t) + if x >= t { 1nat } else { 0nat },
{
    assert(s.push(x).drop_last() =~= s);
}

proof fn lemma_count_update(s: Seq<u32>, i: int, x: u32, t: int)
    requires
        0 <= i < s.len(),
    ensures
        count_at_least(s.update(i, x), t) + (if s[i] >= t { 1int } else { 0int })
            == count_at_least(s, t) + (if x >= t { 1int } else { 0int }),
    decreases s.len(),
{
    if i == s.len() - 1 {
        assert(s.update(i, x).drop_last() =~= s.drop_last());
    } else {
        lemma_count_update(s.drop_last(), i, x, t);
        assert(s.update(i, x).drop_last() =~= s.drop_last().update(i, x));
    }
}

proof fn lemma_count_remove(s: Seq<u32>, i: int, t: int)
    requires
        0 <= i < s.len(),
    ensures
        count_at_least(s, t) == count_at_least(s.remove(i), t) + (if s[i] >= t { 1int } else { 0int }),
    decreases s.len(),
{
    if i == s.len() - 1 {
        assert(s.remove(i) =~= s.drop_last());
    } else {
        lemma_count_remove(s.drop_last(), i, t);
        assert(s.remove(i).drop_last() =~= s.drop_last().remove(i));
    }
}

proof fn lemma_count_bounds(s: Seq<u32>, t: int)
    ensures
        count_at_least(s, t) <= s.len(),
        (forall|j: int| 0 <= j < s.len() ==> s[j] >= t) ==> count_at_least(s, t) == s.len(),
        (exists|j: int| 0 <= j < s.len() && s[j] < t) ==> count_at_least(s, t) < s.len(),
    decreases s.len(),
{
    if s.len() > 0 {
        lemma_count_bounds(s.drop_last(), t);
        if exists|j: int| 0 <= j < s.len() && s[j] < t {
            let j = choose|j: int| 0 <= j < s.len() && s[j] < t;
            if j < s.len() - 1 {
                assert(s.drop_last()[j] < t);
            }
        }
        if forall|j: int| 0 <= j < s.len() ==> s[j] >= t {
            assert forall|j: int| 0 <= j < s.drop_last().len() implies s.drop_last()[j] >= t by {
                assert(s.drop_last()[j] == s[j]);
            }
        }
    }
}

/// The multiplicity of `v` is the count at `v` less the count above it.
proof fn lemma_count_multiplicity(s: Seq<u32>, v: u32)
    ensures
        s.to_multiset().count(v) == count_at_least(s, v as int) - count_at_least(s, v + 1),
    decreases s.len(),
{
    if s.len() > 0 {
        lemma_count_multiplicity(s.drop_last(), v);
        assert(s == s.drop_last().push(s.last()));
        assert(s.to_multiset() == s.drop_last().to_multiset().insert(s.last()));
    }
}

proof fn lemma_counts_determine_bag(a: Seq<u32>, b: Seq<u32>)
    requires
        forall|t: int| count_at_least(a, t) == count_at_least(b, t),
    ensures
        a.to_multiset() == b.to_multiset(),
{
    assert forall|v: u32| a.to_multiset().count(v) == b.to_multiset().count(v) by {
        lemma_count_multiplicity(a, v);
        lemma_count_multiplicity(b, v);
        assert(count_at_least(a, v as int) == count_at_least(b, v as int));
        assert(count_at_least(a, v + 1) == count_at_least(b, v + 1));
    }
    assert(a.to_multiset() =~= b.to_multiset());
}

proof fn lemma_bag_determines_counts(a: Seq<u32>, b: Seq<u32>, t: int)
    requires
        a.to_multiset() == b.to_multiset(),
    ensures
        count_at_least(a, t) == count_at_least(b, t),
    decreases a.len(),
{
    vstd::seq_lib::to_multiset_len(a);
    vstd::seq_lib::to_multiset_len(b);
    if a.len() > 0 {
        let x = a.last();
        let a0 = a.drop_last();
        assert(a == a0.push(x));
        assert(a.to_multiset() == a0.to_multiset().insert(x));
        assert(b.to_multiset().count(x) > 0);
        assert(b.contains(x));
        let j = choose|j: int| 0 <= j < b.len() && b[j] == x;
        let b0 = b.remove(j);
        assert(b0.to_multiset() == b.to_multiset().remove(x));
        assert(b0.to_multiset() =~= a0.to_multiset());
        lemma_bag_determines_counts(a0, b0, t);
        lemma_count_remove(b, j, t);
    }
}

/// Works that are the same up to order have the same counts.
proof fn lemma_work_bag_counts(a: Seq<WorkObject>, b: Seq<WorkObject>, t: int)
    requires
        a.to_multiset() == b.to_multiset(),
    ensures
        count_at_least(score_seq(a), t) == count_at_least(score_seq(b), t),
    decreases a.len(),
{
    vstd::seq_lib::to_multiset_len(a);
    vstd::seq_lib::to_multiset_len(b);
    if a.len() > 0 {
        let x = a.last();
        let a0 = a.drop_last();
        assert(a == a0.push(x));
        assert(a.to_multiset() == a0.to_multiset().insert(x));
        assert(b.to_multiset().count(x) > 0);
        assert(b.contains(x));
        let j = choose|j: int| 0 <= j < b.len() && b[j] == x;
        let b0 = b.remove(j);
        assert(b0.to_multiset() == b.to_multiset().remove(x));
        assert(b0.to_multiset() =~= a0.to_multiset());
        lemma_work_bag_counts(a0, b0, t);
        lemma_count_remove(score_seq(b), j, t);
        assert(score_seq(b).remove(j) =~= score_seq(b0));
        lemma_scores_push(a0, x);
        lemma_count_push(score_seq(a0), x.cited_by_count, t);
    } else {
        assert(score_seq(a) =~= score_seq(b));
    }
}

/// Each work of a reordering stands somewhere in the original.
proof fn lemma_member(t: Seq<WorkObject>, x: Seq<WorkObject>, h: int) -> (g: int)
    requires
        t.to_multiset() == x.to_multiset(),
        0 <= h < t.len(),
    ensures
        0 <= g < x.len(),
        x[g] == t[h],
        t.len() == x.len(),
{
    vstd::seq_lib::to_multiset_len(t);
    vstd::seq_lib::to_multiset_len(x);
    assert(t.to_multiset().count(t[h]) > 0);
    assert(x.contains(t[h]));
    choose|g: int| 0 <= g < x.len() && x[g] == t[h]
}

proof fn lemma_min_exists(s: Seq<WorkObject>) -> (i: int)
    requires
        s.len() > 0,
    ensures
        is_min_index(s, i),
    decreases s.len(),
{
    if s.len() == 1 {
        0
    } else {
        let k = lemma_min_exists(s.drop_last());
        if s.last().cited_by_count < s[k].cited_by_count {
            assert forall|j: int| 0 <= j < s.len() implies s.last().cited_by_count
                <= #[trigger] s[j].cited_by_count by {
                if j < s.len() - 1 {
                    assert(s[j] == s.drop_last()[j]);
                }
            }
            s.len() - 1
        } else {
            assert forall|j: int| 0 <= j < s.len() implies s[k].cited_by_count
                <= #[trigger] s[j].cited_by_count by {
                if j < s.len() - 1 {
                    assert(s[j] == s.drop_last()[j]);
                }
            }
            k
        }
    }
}

proof fn lemma_scores_update(s: Seq<WorkObject>, i: int, w: WorkObject)
    requires
        0 <= i < s.len(),
    ensures
        score_seq(s.update(i, w)) == score_seq(s).update(i, w.cited_by_count),
{
    assert(score_seq(s.update(i, w)) =~= score_seq(s).update(i, w.cited_by_count));
}

proof fn lemma_scores_push(s: Seq<WorkObject>, w: WorkObject)
    ensures
        score_seq(s.push(w)) == score_seq(s).push(w.cited_by_count),
{
    assert(score_seq(s.push(w)) =~= score_seq(s).push(w.cited_by_count));
}

/// One offer keeps, at every threshold, the number of held scores at or
/// above it equal to the capped number of offered scores at or above it.
proof fn lemma_step_counts(s: Seq<WorkObject>, cap: Option<usize>, w: WorkObject, t2: Seq<WorkObject>, o: Seq<u32>)
    requires
        offer_step(s, cap, w, t2),
        forall|t: int| count_at_least(score_seq(s), t) == capped(cap, count_at_least(o, t)),
    ensures
        forall|t: int| count_at_least(score_seq(t2), t) == capped(cap, count_at_least(o.push(w.cited_by_count), t)),
{
    let ss = score_seq(s);
    let x = w.cited_by_count;
    lemma_count_bounds(ss, 0);
    assert(count_at_least(ss, 0) == capped(cap, count_at_least(o, 0)));
    assert forall|t: int| count_at_least(score_seq(t2), t) == capped(cap, count_at_least(o.push(x), t)) by {
        lemma_count_push(o, x, t);
        lemma_count_bounds(ss, t);
        assert(count_at_least(ss, t) == capped(cap, count_at_least(o, t)));
        if !at_capacity(s, cap) {
            lemma_work_bag_counts(t2, s.push(w), t);
            lemma_scores_push(s, w);
            lemma_count_push(ss, x, t);
        } else if admits(s, cap, w) {
            let i = choose|i: int| is_min_index(s, i) && t2.to_multiset() == s.update(i, w).to_multiset();
            lemma_work_bag_counts(t2, s.update(i, w), t);
            lemma_scores_update(s, i, w);
            lemma_count_update(ss, i, x, t);
            if t <= s[i].cited_by_count {
                assert forall|j: int| 0 <= j < ss.len() implies ss[j] >= t by {
                    assert(s[i].cited_by_count <= s[j].cited_by_count);
                }
            } else {
                assert(ss[i] < t);
            }
        } else if s.len() > 0 {
            let i = lemma_min_exists(s);
            assert(!(s[i].cited_by_count < x));
            if t <= x {
                assert forall|j: int| 0 <= j < ss.len() implies ss[j] >= t by {
                    assert(s[i].cited_by_count <= s[j].cited_by_count);
                }
            }
        }
    }
}

proof fn lemma_run_counts(cap: Option<usize>, offers: Seq<WorkObject>, states: Seq<Seq<WorkObject>>, m: int)
    requires
        is_run(Seq::empty(), cap, offers, states),
        0 <= m <= offers.len(),
    ensures
        forall|t: int|
            count_at_least(score_seq(states[m]), t) == capped(cap, count_at_least(score_seq(offers.take(m)), t)),
    decreases m,
{
    if m > 0 {
        lemma_run_counts(cap, offers, states, m - 1);
        assert(offer_step(states[m - 1], cap, offers[m - 1], states[m]));
        lemma_step_counts(states[m - 1], cap, offers[m - 1], states[m], score_seq(offers.take(m - 1)));
        assert(offers.take(m) =~= offers.take(m - 1).push(offers[m - 1]));
        lemma_scores_push(offers.take(m - 1), offers[m - 1]);
    } else {
        assert(score_seq(states[0]) =~= Seq::<u32>::empty());
        assert(score_seq(offers.take(0)) =~= Seq::<u32>::empty());
    }
}

/// After any run of offers from an empty set, the works held are the
/// highest-scoring of those offered: for every threshold, the number held
/// at or above it is the number offered at or above it, cut down to the
/// capacity. Ties at the lowest held score may be broken either way.
pub proof fn lemma_final_counts(cap: Option<usize>, offers: Seq<WorkObject>, states: Seq<Seq<WorkObject>>)
    requires
        is_run(Seq::empty(), cap, offers, states),
    ensures
        forall|t: int|
            count_at_least(score_seq(states.last()), t) == capped(cap, count_at_least(score_seq(offers), t)),
{
    lemma_run_counts(cap, offers, states, offers.len() as int);
    assert(offers.take(offers.len() as int) =~= offers);
}

/// After any run of offers from an empty set, the set holds as many works
/// as were offered, cut down to the capacity.
pub proof fn lemma_retained_size(cap: Option<usize>, offers: Seq<WorkObject>, states: Seq<Seq<WorkObject>>)
    requires
        is_run(Seq::empty(), cap, offers, states),
    ensures
        states.last().len() == capped(cap, offers.len()),
{
    lemma_final_counts(cap, offers, states);
    lemma_count_bounds(score_seq(states.last()), 0);
    lemma_count_bounds(score_seq(offers), 0);
}

proof fn lemma_run_dominance(cap: Option<usize>, offers: Seq<WorkObject>, states: Seq<Seq<WorkObject>>, m: int)
    requires
        is_run(Seq::empty(), cap, offers, states),
        0 <= m <= offers.len(),
    ensures
        forall|j: int| 0 <= j < m && !admits(states[j], cap, offers[j]) ==> at_capacity(#[trigger] states[j], cap) && at_capacity(states[m], cap),
        forall|j: int, h: int|
            0 <= j < m && !admits(#[trigger] states[j], cap, offers[j]) && 0 <= h < states[m].len()
                ==> #[trigger] states[m][h].cited_by_count >= offers[j].cited_by_count,
    decreases m,
{
    if m > 0 {
        lemma_run_dominance(cap, offers, states, m - 1);
        let s = states[m - 1];
        let w = offers[m - 1];
        assert(offer_step(s, cap, w, states[m]));
        assert forall|j: int, h: int|
            0 <= j < m && !admits(#[trigger] states[j], cap, offers[j]) && 0 <= h < states[m].len()
                implies #[trigger] states[m][h].cited_by_count >= offers[j].cited_by_count by {
            if j == m - 1 {
                if s.len() > 0 {
                    let i = lemma_min_exists(s);
                    assert(s[i].cited_by_count <= s[h].cited_by_count);
                }
            } else if admits(s, cap, w) {
                let i = choose|i: int| is_min_index(s, i) && states[m].to_multiset() == s.update(i, w).to_multiset();
                let g = lemma_member(states[m], s.update(i, w), h);
                assert(s[i].cited_by_count >= offers[j].cited_by_count);
                if g != i {
                    assert(s.update(i, w)[g] == s[g]);
                    assert(s[i].cited_by_count <= s[g].cited_by_count);
                }
            }
        }
        if s.len() > 0 && at_capacity(s, cap) && admits(s, cap, w) {
            let i = choose|i: int| is_min_index(s, i) && states[m].to_multiset() == s.update(i, w).to_multiset();
            vstd::seq_lib::to_multiset_len(states[m]);
            vstd::seq_lib::to_multiset_len(s.update(i, w));
        }
    }
}

/// Once the set is at capacity, an offer it drops scores no higher than
/// any work held at the end of the run.
pub proof fn lemma_dropped_scores_dominated(
    cap: Option<usize>,
    offers: Seq<WorkObject>,
    states: Seq<Seq<WorkObject>>,
    j: int,
    h: int,
)
    requires
        is_run(Seq::empty(), cap, offers, states),
        0 <= j < offers.len(),
        !admits(states[j], cap, offers[j]),
        0 <= h < states.last().len(),
    ensures
        states.last()[h].cited_by_count >= offers[j].cited_by_count,
{
    lemma_run_dominance(cap, offers, states, offers.len() as int);
    assert(states.last() == states[offers.len() as int]);
}

proof fn lemma_min_never_drops(
    cap: Option<usize>,
    offers: Seq<WorkObject>,
    states: Seq<Seq<WorkObject>>,
    j: int,
    m: int,
)
    requires
        is_run(Seq::empty(), cap, offers, states),
        0 <= j <= m <= offers.len(),
        at_capacity(states[j], cap),
    ensures
        at_capacity(states[m], cap),
        forall|i: int, h: int|
            is_min_index(states[j], i) && 0 <= h < states[m].len() ==> #[trigger] states[m][h].cited_by_count
                >= #[trigger] states[j][i].cited_by_count,
    decreases m - j,
{
    if m == j {
        assert forall|i: int, h: int|
            is_min_index(states[j], i) && 0 <= h < states[m].len() implies #[trigger] states[m][h].cited_by_count
                >= #[trigger] states[j][i].cited_by_count by {
            assert(states[j][i].cited_by_count <= states[j][h].cited_by_count);
        }
    } else {
        lemma_min_never_drops(cap, offers, states, j, m - 1);
        let s = states[m - 1];
        let w = offers[m - 1];
        assert(offer_step(s, cap, w, states[m]));
        if admits(s, cap, w) {
            let i0 = choose|i: int| is_min_index(s, i) && states[m].to_multiset() == s.update(i, w).to_multiset();
            vstd::seq_lib::to_multiset_len(states[m]);
            vstd::seq_lib::to_multiset_len(s.update(i0, w));
            assert forall|i: int, h: int|
                is_min_index(states[j], i) && 0 <= h < states[m].len() implies #[trigger] states[m][h].cited_by_count
                    >= #[trigger] states[j][i].cited_by_count by {
                let g = lemma_member(states[m], s.update(i0, w), h);
                assert(s[i0].cited_by_count >= states[j][i].cited_by_count);
                if g != i0 {
                    assert(s.update(i0, w)[g] == s[g]);
                    assert(s[g].cited_by_count >= states[j][i].cited_by_count);
                }
            }
        } else {
            assert forall|i: int, h: int|
                is_min_index(states[j], i) && 0 <= h < states[m].len() implies #[trigger] states[m][h].cited_by_count
                    >= #[trigger] states[j][i].cited_by_count by {
                assert(s[h].cited_by_count >= states[j][i].cited_by_count);
            }
        }
    }
}

/// Once the set is at capacity, a work evicted by an offer (one of lowest
/// score in the set at that point) scores no higher than any work held at
/// the end of the run.
pub proof fn lemma_evicted_scores_dominated(
    cap: Option<usize>,
    offers: Seq<WorkObject>,
    states: Seq<Seq<WorkObject>>,
    j: int,
    i: int,
    h: int,
)
    requires
        is_run(Seq::empty(), cap, offers, states),
        0 <= j < offers.len(),
        at_capacity(states[j], cap),
        admits(states[j], cap, offers[j]),
        is_min_index(states[j], i),
        0 <= h < states.last().len(),
    ensures
        states.last()[h].cited_by_count >= states[j][i].cited_by_count,
{
    lemma_min_never_drops(cap, offers, states, j, offers.len() as int);
    assert(states.last() == states[offers.len() as int]);
}

/// Two runs over the same offers end with the same multiset of scores,
/// whichever works of lowest score each evicted.
pub proof fn lemma_rerun_same_scores(
    cap: Option<usize>,
    offers: Seq<WorkObject>,
    first: Seq<Seq<WorkObject>>,
    second: Seq<Seq<WorkObject>>,
)
    requires
        is_run(Seq::empty(), cap, offers, first),
        is_run(Seq::empty(), cap, offers, second),
    ensures
        score_bag(first.last()) == score_bag(second.last()),
{
    lemma_final_counts(cap, offers, first);
    lemma_final_counts(cap, offers, second);
    lemma_counts_determine_bag(score_seq(first.last()), score_seq(second.last()));
}

/// Runs over offers whose scores differ only in order end with the same
/// multiset of scores.
pub proof fn lemma_order_independent(
    cap: Option<usize>,
    offers1: Seq<WorkObject>,
    states1: Seq<Seq<WorkObject>>,
    offers2: Seq<WorkObject>,
    states2: Seq<Seq<WorkObject>>,
)
    requires
        is_run(Seq::empty(), cap, offers1, states1),
        is_run(Seq::empty(), cap, offers2, states2),
        score_bag(offers1) == score_bag(offers2),
    ensures
        score_bag(states1.last()) == score_bag(states2.last()),
{
    lemma_final_counts(cap, offers1, states1);
    lemma_final_counts(cap, offers2, states2);
    assert forall|t: int| count_at_least(score_seq(states1.last()), t) == count_at_least(score_seq(states2.last()), t) by {
        lemma_bag_determines_counts(score_seq(offers1), score_seq(offers2), t);
    }
    lemma_counts_determine_bag(score_seq(states1.last()), score_seq(states2.last()));
}

} // verus!
