//! Generational pruning ("natural selection").
//!
//! Once per generation, with no writers in flight, the store's strengths are
//! ranked in descending order; the strength at the keep-ratio rank becomes
//! the survival threshold. Every entry strictly below it is removed, and a
//! survivor is optionally decayed. The threshold's rank is pinned by counting:
//! at most `cut` entries lie strictly above it, and more than `cut` entries
//! lie at or above it.

use vstd::prelude::*;

use crate::colony::AntColony;
use crate::fixed::spec_decay_value;
use crate::params::CAPACITY_UNITS;

verus! {

use vstd::arithmetic::div_mod::lemma_multiply_divide_le;
use vstd::multiset::Multiset;
use vstd::multiset::group_multiset_axioms;
use vstd::multiset::lemma_insert_len;
use vstd::multiset::lemma_multiset_empty_len;
use vstd::seq_lib::group_to_multiset_ensures;
use vstd::seq_lib::lemma_multiset_commutative;
use vstd::set_lib::lemma_len_subset;

/// Non-increasing order.
pub open spec fn sorted_desc(s: Seq<u64>) -> bool {
    forall|i: int, j: int| 0 <= i <= j < s.len() ==> s[i] >= s[j]
}

/// At least `t`.
pub open spec fn ge_pred(t: u64) -> spec_fn(u64) -> bool {
    |x: u64| x >= t
}

/// Strictly above `t`.
pub open spec fn gt_pred(t: u64) -> spec_fn(u64) -> bool {
    |x: u64| x > t
}

/// How many entries of `s` are at least `t`, multiplicity included.
pub open spec fn count_ge(s: Seq<u64>, t: u64) -> nat {
    s.to_multiset().filter(ge_pred(t)).len()
}

/// How many entries of `s` are strictly above `t`, multiplicity included.
pub open spec fn count_gt(s: Seq<u64>, t: u64) -> nat {
    s.to_multiset().filter(gt_pred(t)).len()
}

/// Keys of `m` whose strength is at least `t`.
pub open spec fn keys_ge(m: Map<Seq<char>, u64>, t: u64) -> Set<Seq<char>> {
    m.dom().filter(|k: Seq<char>| m[k] >= t)
}

/// Keys of `m` whose strength is strictly above `t`.
pub open spec fn keys_gt(m: Map<Seq<char>, u64>, t: u64) -> Set<Seq<char>> {
    m.dom().filter(|k: Seq<char>| m[k] > t)
}

/// The strengths of a list of entries, in order.
pub open spec fn score_seq(pairs: Seq<(String, u64)>) -> Seq<u64> {
    pairs.map_values(|p: (String, u64)| p.1)
}

/// Rank selected by the keep-ratio: `max(1, floor(n * ratio / 10000))`,
/// clamped to the last index of the descending order.
pub open spec fn spec_cut_index(n: nat, ratio_units: nat) -> nat
    recommends
        n >= 1,
{
    let raw = (n * ratio_units) / 10000;
    let lower: nat = if raw < 1 {
        1
    } else {
        raw
    };
    if lower > n - 1 {
        (n - 1) as nat
    } else {
        lower
    }
}

/// What one selection round leaves behind: on an empty store nothing, with a
/// zero threshold; otherwise the threshold is a stored strength whose rank in
/// the descending order is the keep-ratio cut — pinned by the two counting
/// clauses — the survivors are exactly the entries at or above it, each kept
/// as it was or decayed, and the store can only shrink.
pub open spec fn selection_post(
    m0: Map<Seq<char>, u64>,
    m1: Map<Seq<char>, u64>,
    threshold: u64,
    keep_ratio_units: u64,
    decay: bool,
) -> bool {
    if m0.dom().len() == 0 {
        m1 == m0 && threshold == 0
    } else {
        let cut = spec_cut_index(m0.dom().len(), keep_ratio_units as nat);
        &&& exists|k: Seq<char>| #[trigger] m0.dom().contains(k) && m0[k] == threshold
        &&& keys_gt(m0, threshold).len() <= cut
        &&& keys_ge(m0, threshold).len() > cut
        &&& m1.dom() == keys_ge(m0, threshold)
        &&& forall|k: Seq<char>|
            #[trigger] m1.dom().contains(k) ==> m1[k] == (if decay {
                spec_decay_value(m0[k] as nat) as u64
            } else {
                m0[k]
            })
        &&& m1.dom().len() <= m0.dom().len()
    }
}

/// Law: selection invariants. After a selection round the store can only
/// shrink; every survivor was at or above the threshold before the round,
/// and without decay still reads at least the threshold afterwards.
pub proof fn lemma_selection_invariants(
    m0: Map<Seq<char>, u64>,
    m1: Map<Seq<char>, u64>,
    threshold: u64,
    keep_ratio_units: u64,
    decay: bool,
)
    requires
        selection_post(m0, m1, threshold, keep_ratio_units, decay),
    ensures
        m1.dom().len() <= m0.dom().len(),
        forall|k: Seq<char>|
            #[trigger] m1.dom().contains(k) ==> m0.dom().contains(k) && m0[k] >= threshold,
        !decay ==> forall|k: Seq<char>| #[trigger] m1.dom().contains(k) ==> m1[k] >= threshold,
{
    if m0.dom().len() != 0 {
        assert forall|k: Seq<char>| #[trigger] m1.dom().contains(k) implies m0.dom().contains(k)
            && m0[k] >= threshold by {
            assert(keys_ge(m0, threshold).contains(k));
        }
    }
}

proof fn lemma_filter_insert(ms: Multiset<u64>, pred: spec_fn(u64) -> bool, v: u64)
    ensures
        ms.insert(v).filter(pred).len() == ms.filter(pred).len() + (if pred(v) {
            1nat
        } else {
            0nat
        }),
{
    broadcast use group_multiset_axioms;

    if pred(v) {
        assert(ms.insert(v).filter(pred) =~= ms.filter(pred).insert(v));
        lemma_insert_len(ms.filter(pred), v);
    } else {
        assert(ms.insert(v).filter(pred) =~= ms.filter(pred));
    }
}

proof fn lemma_filter_add(m1: Multiset<u64>, m2: Multiset<u64>, pred: spec_fn(u64) -> bool)
    ensures
        m1.add(m2).filter(pred).len() == m1.filter(pred).len() + m2.filter(pred).len(),
{
    broadcast use group_multiset_axioms;

    assert(m1.add(m2).filter(pred) =~= m1.filter(pred).add(m2.filter(pred)));
}

proof fn lemma_count_empty(t: u64)
    ensures
        count_ge(Seq::<u64>::empty(), t) == 0,
        count_gt(Seq::<u64>::empty(), t) == 0,
{
    broadcast use group_multiset_axioms;
    broadcast use group_to_multiset_ensures;

    let ms = Seq::<u64>::empty().to_multiset();
    lemma_multiset_empty_len(ms);
    assert(ms =~= Multiset::<u64>::empty());
    assert(ms.filter(ge_pred(t)) =~= Multiset::<u64>::empty());
    assert(ms.filter(gt_pred(t)) =~= Multiset::<u64>::empty());
}

/// Counting step when one score is appended.
proof fn lemma_count_push(s: Seq<u64>, v: u64, t: u64)
    ensures
        count_ge(s.push(v), t) == count_ge(s, t) + (if v >= t {
            1nat
        } else {
            0nat
        }),
        count_gt(s.push(v), t) == count_gt(s, t) + (if v > t {
            1nat
        } else {
            0nat
        }),
{
    broadcast use group_to_multiset_ensures;

    assert(s.push(v).to_multiset() =~= s.to_multiset().insert(v));
    lemma_filter_insert(s.to_multiset(), ge_pred(t), v);
    lemma_filter_insert(s.to_multiset(), gt_pred(t), v);
}

proof fn lemma_count_le_len(s: Seq<u64>, t: u64)
    ensures
        count_ge(s, t) <= s.len(),
        count_gt(s, t) <= s.len(),
    decreases s.len(),
{
    if s.len() == 0 {
        assert(s =~= Seq::<u64>::empty());
        lemma_count_empty(t);
    } else {
        lemma_count_le_len(s.drop_last(), t);
        lemma_count_push(s.drop_last(), s.last(), t);
        assert(s.drop_last().push(s.last()) =~= s);
    }
}

proof fn lemma_count_ge_total(s: Seq<u64>, t: u64)
    requires
        forall|i: int| 0 <= i < s.len() ==> s[i] >= t,
    ensures
        count_ge(s, t) == s.len(),
    decreases s.len(),
{
    if s.len() == 0 {
        assert(s =~= Seq::<u64>::empty());
        lemma_count_empty(t);
    } else {
        lemma_count_ge_total(s.drop_last(), t);
        lemma_count_push(s.drop_last(), s.last(), t);
        assert(s.drop_last().push(s.last()) =~= s);
    }
}

proof fn lemma_count_gt_none(s: Seq<u64>, t: u64)
    requires
        forall|i: int| 0 <= i < s.len() ==> s[i] <= t,
    ensures
        count_gt(s, t) == 0,
    decreases s.len(),
{
    if s.len() == 0 {
        assert(s =~= Seq::<u64>::empty());
        lemma_count_empty(t);
    } else {
        lemma_count_gt_none(s.drop_last(), t);
        lemma_count_push(s.drop_last(), s.last(), t);
        assert(s.drop_last().push(s.last()) =~= s);
    }
}

/// In a descending list, the entry at rank `c` has at most `c` entries
/// strictly above it and more than `c` entries at or above it.
proof fn lemma_sorted_rank_counts(r: Seq<u64>, c: int)
    requires
        sorted_desc(r),
        0 <= c < r.len(),
    ensures
        count_gt(r, r[c]) <= c,
        count_ge(r, r[c]) >= c + 1,
{
    let t = r[c];
    let front = r.take(c + 1);
    let back = r.skip(c + 1);
    assert(front + back =~= r);
    lemma_multiset_commutative(front, back);
    lemma_filter_add(front.to_multiset(), back.to_multiset(), ge_pred(t));
    lemma_filter_add(front.to_multiset(), back.to_multiset(), gt_pred(t));
    // Every entry of the front is at least t, so all c + 1 of them count.
    assert(forall|i: int| 0 <= i < front.len() ==> front[i] >= t);
    lemma_count_ge_total(front, t);
    // No entry of the back is strictly above t.
    assert(forall|i: int| 0 <= i < back.len() ==> back[i] <= t);
    lemma_count_gt_none(back, t);
    // The front's last entry is t itself, so strictly-above counts stay below c + 1.
    lemma_count_push(front.drop_last(), front.last(), t);
    assert(front.drop_last().push(front.last()) =~= front);
    lemma_count_le_len(front.drop_last(), t);
}

/// A list of entries that enumerates a map without repetition carries the
/// same value counts as the map itself.
proof fn lemma_pairs_value_counts(pairs: Seq<(String, u64)>, m: Map<Seq<char>, u64>, t: u64)
    requires
        m.dom().finite(),
        forall|i: int|
            0 <= i < pairs.len() ==> m.contains_pair((#[trigger] pairs[i].0)@, pairs[i].1),
        forall|i: int, j: int| 0 <= i < j < pairs.len() ==> (pairs[i].0)@ != (pairs[j].0)@,
        forall|k: Seq<char>|
            m.dom().contains(k) ==> exists|i: int|
                0 <= i < pairs.len() && (#[trigger] pairs[i].0)@ == k,
    ensures
        count_ge(score_seq(pairs), t) == keys_ge(m, t).len(),
        count_gt(score_seq(pairs), t) == keys_gt(m, t).len(),
    decreases pairs.len(),
{
    if pairs.len() == 0 {
        assert forall|k: Seq<char>| !m.dom().contains(k) by {
            if m.dom().contains(k) {
                let i = choose|i: int| 0 <= i < pairs.len() && (#[trigger] pairs[i].0)@ == k;
                assert(false);
            }
        }
        assert(m.dom() =~= Set::<Seq<char>>::empty());
        assert(keys_ge(m, t) =~= Set::<Seq<char>>::empty());
        assert(keys_gt(m, t) =~= Set::<Seq<char>>::empty());
        assert(score_seq(pairs) =~= Seq::<u64>::empty());
        lemma_count_empty(t);
    } else {
        let last_i = pairs.len() - 1;
        let k0 = (pairs[last_i].0)@;
        let v0 = pairs[last_i].1;
        let rest = pairs.drop_last();
        let m1 = m.remove(k0);
        assert(m.contains_pair(k0, v0));
        assert(m1.dom() =~= m.dom().remove(k0));
        m.dom().lemma_len_filter(|k: Seq<char>| m[k] >= t);
        m.dom().lemma_len_filter(|k: Seq<char>| m[k] > t);
        assert forall|i: int|
            0 <= i < rest.len() implies m1.contains_pair((#[trigger] rest[i].0)@, rest[i].1) by {
            assert(m.contains_pair((pairs[i].0)@, pairs[i].1));
            assert((pairs[i].0)@ != k0);
        }
        assert forall|k: Seq<char>| m1.dom().contains(k) implies exists|i: int|
            0 <= i < rest.len() && (#[trigger] rest[i].0)@ == k by {
            let i = choose|i: int| 0 <= i < pairs.len() && (#[trigger] pairs[i].0)@ == k;
            assert(k != k0);
            assert(i < rest.len());
            assert((rest[i].0)@ == k);
        }
        lemma_pairs_value_counts(rest, m1, t);
        assert(score_seq(pairs) =~= score_seq(rest).push(v0));
        lemma_count_push(score_seq(rest), v0, t);
        m1.dom().lemma_len_filter(|k: Seq<char>| m1[k] >= t);
        m1.dom().lemma_len_filter(|k: Seq<char>| m1[k] > t);
        if v0 >= t {
            assert(keys_ge(m, t) =~= keys_ge(m1, t).insert(k0));
            assert(!keys_ge(m1, t).contains(k0));
        } else {
            assert(keys_ge(m, t) =~= keys_ge(m1, t));
        }
        if v0 > t {
            assert(keys_gt(m, t) =~= keys_gt(m1, t).insert(k0));
            assert(!keys_gt(m1, t).contains(k0));
        } else {
            assert(keys_gt(m, t) =~= keys_gt(m1, t));
        }
    }
}

/// Sort a list of scores into descending order (insertion sort).
fn sort_desc(input: &Vec<u64>) -> (r: Vec<u64>)
    ensures
        sorted_desc(r@),
        r@.to_multiset() == input@.to_multiset(),
        r@.len() == input@.len(),
{
    let mut out: Vec<u64> = Vec::new();
    proof {
        broadcast use group_to_multiset_ensures;

        assert(input@.take(0) =~= Seq::<u64>::empty());
        assert(out@ =~= Seq::<u64>::empty());
        lemma_multiset_empty_len(Seq::<u64>::empty().to_multiset());
    }
    let mut i: usize = 0;
    while i < input.len()
        invariant
            i <= input@.len(),
            sorted_desc(out@),
            out@.len() == i,
            out@.to_multiset() == input@.take(i as int).to_multiset(),
        decreases input@.len() - i,
    {
        let x = input[i];
        // Find the first position whose entry is below x.
        let mut p: usize = 0;
        while p < out.len() && out[p] >= x
            invariant
                p <= out@.len(),
                forall|q: int| 0 <= q < p ==> out@[q] >= x,
            decreases out@.len() - p,
        {
            p = p + 1;
        }
        let ghost prev = out@;
        out.insert(p, x);
        proof {
            broadcast use group_to_multiset_ensures;

            prev.insert_ensures(p as int, x);
            // The inserted list is still descending.
            assert forall|a: int, b: int| 0 <= a <= b < out@.len() implies out@[a] >= out@[b] by {
                if b < p {
                } else if a > p {
                    assert(out@[a] == prev[a - 1] && out@[b] == prev[b - 1]);
                } else if a < p && b == p {
                    assert(out@[a] == prev[a]);
                } else if a == p && b > p {
                    assert(out@[b] == prev[b - 1]);
                    assert(p < prev.len() ==> prev[p as int] < x);
                    assert(prev[b - 1] <= x);
                }
            }
            // Multiset bookkeeping: inserting anywhere adds exactly x.
            let front = prev.take(p as int);
            let back = prev.skip(p as int);
            assert(out@ =~= front.push(x) + back);
            assert(front + back =~= prev);
            lemma_multiset_commutative(front.push(x), back);
            lemma_multiset_commutative(front, back);
            assert(front.push(x).to_multiset() =~= front.to_multiset().insert(x));
            assert(out@.to_multiset() =~= prev.to_multiset().insert(x));
            assert(input@.take(i + 1).drop_last() =~= input@.take(i as int));
            assert(input@.take(i + 1) =~= input@.take(i as int).push(input@[i as int]));
        }
        i = i + 1;
    }
    proof {
        assert(input@.take(input@.len() as int) =~= input@);
    }
    out
}

/// The survival threshold for a list of scores: the score at the keep-ratio
/// rank of the descending order. The returned value occurs among the scores;
/// at most `cut` scores lie strictly above it and more than `cut` lie at or
/// above it — which pins it as the rank-`cut` score.
pub fn selection_threshold(scores: &Vec<u64>, keep_ratio_units: u64) -> (t: u64)
    requires
        scores@.len() >= 1,
        1 <= keep_ratio_units <= 10000,
    ensures
        scores@.contains(t),
        count_gt(scores@, t) <= spec_cut_index(scores@.len(), keep_ratio_units as nat),
        count_ge(scores@, t) > spec_cut_index(scores@.len(), keep_ratio_units as nat),
{
    let n = scores.len();
    proof {
        assert((n as nat) * (keep_ratio_units as nat) <= (n as nat) * 10000) by (nonlinear_arith)
            requires
                keep_ratio_units <= 10000,
                n >= 0,
        ;
        lemma_multiply_divide_le(((n as nat) * (keep_ratio_units as nat)) as int, 10000, n as int);
    }
    let raw: usize = (((n as u128) * (keep_ratio_units as u128)) / 10000u128) as usize;
    let lower: usize = if raw < 1 {
        1
    } else {
        raw
    };
    let cut: usize = if lower > n - 1 {
        n - 1
    } else {
        lower
    };
    let sorted = sort_desc(scores);
    let t = sorted[cut];
    proof {
        lemma_sorted_rank_counts(sorted@, cut as int);
        broadcast use group_to_multiset_ensures;

        assert(sorted@.to_multiset().count(t) > 0) by {
            assert(sorted@[cut as int] == t);
        }
        assert(scores@.to_multiset().count(t) > 0);
        assert(cut as nat == spec_cut_index(scores@.len(), keep_ratio_units as nat));
    }
    t
}

impl AntColony {
    /// One round of natural selection over the whole store, with no
    /// concurrent writers. On an empty store nothing happens and 0 is
    /// returned. Otherwise the returned threshold is the strength at the
    /// keep-ratio rank of the descending order — pinned by the two counting
    /// clauses — the survivors are exactly the entries at or above it, and
    /// each survivor keeps its strength, or is decayed when the decay knob is
    /// on. The store can only shrink.
    pub fn natural_selection(&mut self) -> (threshold: u64)
        requires
            old(self).wf(),
        ensures
            final(self).wf(),
            final(self).params == old(self).params,
            selection_post(
                old(self).pheromones@,
                final(self).pheromones@,
                threshold,
                old(self).params.keep_ratio_units,
                old(self).params.decay_on_survive,
            ),
    {
        let ghost m0 = self.pheromones@;
        if self.pheromones.is_empty() {
            proof {
                assert(m0.dom() =~= Set::<Seq<char>>::empty());
            }
            return 0;
        }
        let snap = self.pheromones.snapshot();
        let mut scores: Vec<u64> = Vec::new();
        let mut i: usize = 0;
        while i < snap.len()
            invariant
                i <= snap@.len(),
                scores@ == score_seq(snap@).take(i as int),
            decreases snap@.len() - i,
        {
            proof {
                assert(score_seq(snap@).take(i + 1) =~= score_seq(snap@).take(i as int).push(
                    snap@[i as int].1,
                ));
            }
            scores.push(snap[i].1);
            i = i + 1;
        }
        proof {
            assert(score_seq(snap@).take(snap@.len() as int) =~= score_seq(snap@));
            if m0.dom().len() == 0 {
                m0.dom().lemma_len0_is_empty();
                assert(m0 =~= Map::empty());
                assert(self.pheromones@ == crate::store::empty_contents());
                assert(false);
            }
        }
        let t = selection_threshold(&scores, self.params.keep_ratio_units);
        let decay = self.params.decay_on_survive;
        self.pheromones.retain_at_least(t, decay);
        proof {
            lemma_pairs_value_counts(snap@, m0, t);
            // The threshold occurs among the scores, hence in the store.
            let si = choose|si: int| 0 <= si < scores@.len() && scores@[si] == t;
            assert(m0.contains_pair((snap@[si].0)@, t));
            assert(m0.dom().contains((snap@[si].0)@) && m0[(snap@[si].0)@] == t);
            // The survivors are exactly the keys at or above the threshold.
            assert(self.pheromones@.dom() =~= keys_ge(m0, t));
            // The store can only shrink, and stays well-formed.
            m0.dom().lemma_len_filter(|k: Seq<char>| m0[k] >= t);
            assert forall|k: Seq<char>|
                #[trigger] self.pheromones@.dom().contains(k) implies self.pheromones@[k]
                < CAPACITY_UNITS by {
                assert(m0.dom().contains(k));
                assert(m0[k] < CAPACITY_UNITS);
            }
        }
        t
    }
}

} // verus!
