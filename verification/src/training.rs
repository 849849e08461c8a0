//! The training orchestrator: a fixed number of generations, each a strict
//! three-phase cycle over the whole corpus.
//!
//! Phase one traverses every segment read-only on the store, collecting one
//! path per segment; phase two deposits every path; phase three runs one
//! selection round. The phases run here one after the other; a driver that
//! spreads phase one over workers keeps the same contracts, because
//! traversal never writes the store and deposits serialize per key.

use vstd::prelude::*;

use crate::colony::{AntColony, spec_deposit_path};
use crate::params::ColonyParams;
use crate::rng::RandomSource;
use crate::selection::selection_post;
use crate::text::{concat_tokens, token_views};

verus! {

/// The token texts of a collection of paths.
pub open spec fn paths_views(ps: Seq<Vec<String>>) -> Seq<Seq<Seq<char>>> {
    ps.map_values(|p: Vec<String>| token_views(p@))
}

/// Reinforcement of one whole generation: every path, in order.
pub open spec fn spec_deposit_generation(
    m: Map<Seq<char>, u64>,
    paths: Seq<Seq<Seq<char>>>,
    q: nat,
) -> Map<Seq<char>, u64>
    decreases paths.len(),
{
    if paths.len() == 0 {
        m
    } else {
        spec_deposit_generation(spec_deposit_path(m, paths[0], q), paths.drop_first(), q)
    }
}

/// One collection of paths covers the corpus: one path per segment, each
/// concatenating back to its segment exactly.
pub open spec fn paths_reconstruct(paths: Seq<Seq<Seq<char>>>, segments: Seq<String>) -> bool {
    &&& paths.len() == segments.len()
    &&& forall|i: int|
        0 <= i < segments.len() ==> concat_tokens(#[trigger] paths[i]) == (segments[i])@
}

/// The store a run holds after its first `g` recorded generations: the
/// starting contents, or the store the generation before `g` left.
pub open spec fn gen_store(
    m0: Map<Seq<char>, u64>,
    gens: Seq<(Seq<Seq<Seq<char>>>, u64, Map<Seq<char>, u64>)>,
    g: int,
) -> Map<Seq<char>, u64> {
    if g <= 0 {
        m0
    } else {
        gens[g - 1].2
    }
}

/// A whole run as a chain of generations. `gens` records, per generation,
/// the token texts of the collected paths, the selection threshold, and the
/// store the generation left behind; the chain holds when every recorded
/// store is one selection round over the deposits of that generation's
/// paths into the store the previous generation left.
pub open spec fn spec_train_chain(
    m0: Map<Seq<char>, u64>,
    gens: Seq<(Seq<Seq<Seq<char>>>, u64, Map<Seq<char>, u64>)>,
    params: ColonyParams,
) -> bool {
    forall|g: int|
        0 <= g < gens.len() ==> selection_post(
            spec_deposit_generation(gen_store(m0, gens, g), (#[trigger] gens[g]).0, params.q as nat),
            gens[g].2,
            gens[g].1,
            params.keep_ratio_units,
            params.decay_on_survive,
        )
}

impl AntColony {
    /// One generation over the corpus: parallel-safe traversal of every
    /// segment, deposits of every collected path, then one selection round.
    /// Returns the collected paths and the selection threshold. Each path
    /// reconstructs its segment exactly — whatever the random draws were —
    /// and the store ends as one selection round over the deposited state.
    pub fn run_generation(&mut self, segments: &Vec<String>, rng: &mut RandomSource) -> (r: (
        Vec<Vec<String>>,
        u64,
    ))
        requires
            old(self).wf(),
        ensures
            final(self).wf(),
            final(self).params == old(self).params,
            r.0@.len() == segments@.len(),
            forall|i: int|
                0 <= i < segments@.len() ==> concat_tokens(token_views((#[trigger] r.0@[i])@))
                    == (segments@[i])@,
            selection_post(
                spec_deposit_generation(
                    old(self).pheromones@,
                    paths_views(r.0@),
                    old(self).params.q as nat,
                ),
                final(self).pheromones@,
                r.1,
                old(self).params.keep_ratio_units,
                old(self).params.decay_on_survive,
            ),
    {
        let ghost m0 = self.pheromones@;
        let ghost q = self.params.q as nat;
        // Phase one: traversal, read-only on the store.
        let mut paths: Vec<Vec<String>> = Vec::new();
        let mut i: usize = 0;
        while i < segments.len()
            invariant
                self.wf(),
                self == old(self),
                i <= segments@.len(),
                paths@.len() == i,
                forall|t: int|
                    0 <= t < i ==> concat_tokens(token_views((#[trigger] paths@[t])@))
                        == (segments@[t])@,
                forall|t: int, u: int|
                    0 <= t < i && 0 <= u < (#[trigger] paths@[t])@.len() ==> 1 <= (
                    #[trigger] paths@[t]@[u])@.len() <= self.params.max_token_chars,
            decreases segments@.len() - i,
        {
            let (path, _steps) = self.traverse(segments[i].as_str(), rng);
            paths.push(path);
            i = i + 1;
        }
        // Phase two: deposits, one path at a time.
        let ghost pviews = paths_views(paths@);
        let mut j: usize = 0;
        proof {
            assert(pviews.skip(0) =~= pviews);
        }
        while j < paths.len()
            invariant
                self.wf(),
                self.params == old(self).params,
                q == self.params.q as nat,
                j <= paths@.len(),
                pviews == paths_views(paths@),
                forall|t: int, u: int|
                    0 <= t < paths@.len() && 0 <= u < (#[trigger] paths@[t])@.len() ==> 1 <= (
                    #[trigger] paths@[t]@[u])@.len() <= self.params.max_token_chars,
                spec_deposit_generation(m0, pviews, q) == spec_deposit_generation(
                    self.pheromones@,
                    pviews.skip(j as int),
                    q,
                ),
            decreases paths@.len() - j,
        {
            let ghost m_before = self.pheromones@;
            let steps = paths[j].len();
            self.deposit(&paths[j], steps);
            proof {
                assert(pviews.skip(j as int)[0] == token_views(paths@[j as int]@));
                assert(self.pheromones@ == spec_deposit_path(m_before, pviews.skip(j as int)[0], q));
                assert(pviews.skip(j as int).drop_first() =~= pviews.skip(j + 1));
            }
            j = j + 1;
        }
        proof {
            assert(pviews.skip(paths@.len() as int) =~= Seq::<Seq<Seq<char>>>::empty());
        }
        // Phase three: one selection round, writer-exclusive.
        let threshold = self.natural_selection();
        (paths, threshold)
    }

    /// Drive a fixed number of generations over the corpus. The outcome is
    /// pinned up to the random draws: there is a record of exactly
    /// `generations` generations — the collected paths, each reconstructing
    /// its segment, the round's threshold, and the store it left — chaining
    /// the old store contents to the final ones through
    /// `spec_deposit_generation` and `selection_post`.
    pub fn train(&mut self, segments: &Vec<String>, generations: u64, rng: &mut RandomSource)
        requires
            old(self).wf(),
        ensures
            final(self).wf(),
            final(self).params == old(self).params,
            exists|gens: Seq<(Seq<Seq<Seq<char>>>, u64, Map<Seq<char>, u64>)>|
                {
                    &&& gens.len() == generations
                    &&& forall|t: int|
                        0 <= t < gens.len() ==> paths_reconstruct(
                            (#[trigger] gens[t]).0,
                            segments@,
                        )
                    &&& spec_train_chain(old(self).pheromones@, gens, old(self).params)
                    &&& final(self).pheromones@ == gen_store(
                        old(self).pheromones@,
                        gens,
                        generations as int,
                    )
                },
    {
        let ghost m0 = self.pheromones@;
        let ghost mut gens: Seq<(Seq<Seq<Seq<char>>>, u64, Map<Seq<char>, u64>)> = Seq::empty();
        let mut g: u64 = 0;
        while g < generations
            invariant
                self.wf(),
                self.params == old(self).params,
                g <= generations,
                m0 == old(self).pheromones@,
                gens.len() == g,
                forall|t: int|
                    0 <= t < gens.len() ==> paths_reconstruct((#[trigger] gens[t]).0, segments@),
                spec_train_chain(m0, gens, old(self).params),
                self.pheromones@ == gen_store(m0, gens, g as int),
            decreases generations - g,
        {
            let ghost m_prev = self.pheromones@;
            let (paths, threshold) = self.run_generation(segments, rng);
            proof {
                let gen = (paths_views(paths@), threshold, self.pheromones@);
                assert forall|i: int|
                    0 <= i < segments@.len() implies concat_tokens(#[trigger] gen.0[i])
                    == (segments@[i])@ by {
                    assert(gen.0[i] == token_views(paths@[i]@));
                }
                let prev_gens = gens;
                gens = gens.push(gen);
                assert(selection_post(
                    spec_deposit_generation(m_prev, gen.0, old(self).params.q as nat),
                    self.pheromones@,
                    gen.1,
                    old(self).params.keep_ratio_units,
                    old(self).params.decay_on_survive,
                ));
                assert forall|t: int|
                    0 <= t < gens.len() implies selection_post(
                    spec_deposit_generation(
                        gen_store(m0, gens, t),
                        (#[trigger] gens[t]).0,
                        old(self).params.q as nat,
                    ),
                    gens[t].2,
                    gens[t].1,
                    old(self).params.keep_ratio_units,
                    old(self).params.decay_on_survive,
                ) by {
                    if t < g {
                        assert(gens[t] == prev_gens[t]);
                        assert(gen_store(m0, gens, t) == gen_store(m0, prev_gens, t));
                    } else {
                        assert(gens[t] == gen);
                        assert(gen_store(m0, gens, t) == m_prev);
                    }
                }
            }
            g = g + 1;
        }
    }
}

} // verus!
