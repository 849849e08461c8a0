//! The pheromone store: a shared, concurrency-safe mapping from token text to
//! fixed-point strength.
//!
//! The physical table is a `dashmap::DashMap`, which serializes updates per
//! key without a global lock; Verus sees it only through the contracts below,
//! stated over the mathematical contents `Map<Seq<char>, u64>`. Any token not
//! present reads as the initial strength, so the store is logically total.

use vstd::prelude::*;

use crate::fixed::{decay_value, deposit_new_value, spec_decay_value, spec_deposit_value};
use crate::params::{INITIAL_STRENGTH_UNITS, REWARD_MAX_UNITS};

verus! {

/// The shared score table of a training run.
#[verifier::external_body]
pub struct PheromoneStore {
    map: dashmap::DashMap<String, u64>,
}

/// What the store holds: token text to stored strength, in fixed-point units.
pub uninterp spec fn store_contents(s: PheromoneStore) -> Map<Seq<char>, u64>;

impl View for PheromoneStore {
    type V = Map<Seq<char>, u64>;

    open spec fn view(&self) -> Map<Seq<char>, u64> {
        store_contents(*self)
    }
}

/// Contents of a store that holds nothing.
pub open spec fn empty_contents() -> Map<Seq<char>, u64> {
    Map::empty()
}

/// Strength a token is read as: the stored value, or the initial strength
/// when the token is absent.
pub open spec fn read_strength(m: Map<Seq<char>, u64>, k: Seq<char>) -> u64 {
    if m.dom().contains(k) {
        m[k]
    } else {
        INITIAL_STRENGTH_UNITS
    }
}

/// Whether a pheromone survives a selection round at the given threshold,
/// decaying it in place when it survives and decay is on.
pub fn retain_decide(v: &mut u64, threshold: u64, decay: bool) -> (keep: bool)
    ensures
        keep == (*old(v) >= threshold),
        keep ==> *final(v) == (if decay {
            spec_decay_value(*old(v) as nat) as u64
        } else {
            *old(v)
        }),
{
    if *v < threshold {
        false
    } else {
        if decay {
            *v = decay_value(*v);
        }
        true
    }
}

impl PheromoneStore {
    /// Relies on `dashmap::DashMap::new`: a freshly created map holds nothing.
    #[verifier::external_body]
    pub fn new() -> (s: Self)
        ensures
            store_contents(s) == empty_contents(),
    {
        PheromoneStore { map: dashmap::DashMap::new() }
    }

    /// Relies on `dashmap::DashMap::get`: the value stored under the key, if
    /// any.
    #[verifier::external_body]
    pub fn get(&self, token: &str) -> (r: Option<u64>)
        ensures
            r == (if store_contents(*self).dom().contains(token@) {
                Some(store_contents(*self)[token@])
            } else {
                None::<u64>
            }),
    {
        self.map.get(token).map(|v| *v)
    }

    /// Relies on `dashmap::DashMap::entry` with `and_modify`/`or_insert_with`:
    /// an atomic read-modify-write of the one key, so concurrent deposits on
    /// the same token serialize and none is lost. The new value is computed by
    /// the verified `deposit_new_value`, from the stored strength or from the
    /// given default when the token is absent.
    #[verifier::external_body]
    pub fn upsert_deposit(&mut self, token: &str, default_units: u64, reward_units: u64)
        requires
            reward_units <= REWARD_MAX_UNITS,
        ensures
            store_contents(*final(self)) == store_contents(*old(self)).insert(
                token@,
                spec_deposit_value(
                    (if store_contents(*old(self)).dom().contains(token@) {
                        store_contents(*old(self))[token@]
                    } else {
                        default_units
                    }) as nat,
                    reward_units as nat,
                ) as u64,
            ),
    {
        self.map
            .entry(token.to_string())
            .and_modify(|v| *v = deposit_new_value(*v, reward_units))
            .or_insert_with(|| deposit_new_value(default_units, reward_units));
    }

    /// Relies on `dashmap::DashMap::len`: the number of stored pairs.
    #[verifier::external_body]
    pub fn len(&self) -> (n: usize)
        ensures
            n as nat == store_contents(*self).dom().len(),
    {
        self.map.len()
    }

    /// Relies on `dashmap::DashMap::is_empty`: whether any pair is stored.
    #[verifier::external_body]
    pub fn is_empty(&self) -> (b: bool)
        ensures
            b == (store_contents(*self) == empty_contents()),
    {
        self.map.is_empty()
    }

    /// Relies on `dashmap::DashMap::iter`: visits every stored pair exactly
    /// once, in no promised order (the iteration order of a hash map is not
    /// stable across processes, so nothing is said about it). Used by the
    /// selection phase, which runs with no writers in flight; a concurrent
    /// writer would make the visited pairs a mere snapshot-in-motion.
    #[verifier::external_body]
    pub fn snapshot(&self) -> (r: Vec<(String, u64)>)
        ensures
            r@.len() == store_contents(*self).dom().len(),
            forall|i: int|
                0 <= i < r@.len() ==> store_contents(*self).contains_pair(
                    #[trigger] (r@[i].0)@,
                    r@[i].1,
                ),
            forall|i: int, j: int| 0 <= i < j < r@.len() ==> (r@[i].0)@ != (r@[j].0)@,
            forall|k: Seq<char>|
                store_contents(*self).dom().contains(k) ==> exists|i: int|
                    0 <= i < r@.len() && (#[trigger] r@[i].0)@ == k,
    {
        self.map.iter().map(|entry| (entry.key().clone(), *entry.value())).collect()
    }

    /// Relies on `dashmap::DashMap::retain`: keeps exactly the pairs the
    /// predicate accepts, with the value updates the predicate makes. The
    /// decision and the update are the verified `retain_decide`.
    #[verifier::external_body]
    pub fn retain_at_least(&mut self, threshold: u64, decay: bool)
        ensures
            store_contents(*final(self)).dom() == store_contents(*old(self)).dom().filter(
                |k: Seq<char>| store_contents(*old(self))[k] >= threshold,
            ),
            forall|k: Seq<char>|
                store_contents(*final(self)).dom().contains(k) ==> store_contents(*final(self))[k]
                    == (if decay {
                    spec_decay_value(store_contents(*old(self))[k] as nat) as u64
                } else {
                    store_contents(*old(self))[k]
                }),
    {
        self.map.retain(|_, v| retain_decide(v, threshold, decay));
    }
}

} // verus!
