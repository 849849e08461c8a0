//! The ant colony: stochastic traversal of text segments and pheromone
//! reinforcement.
//!
//! A traversal walks one segment left to right. At every position it weighs
//! up to `max_token_chars` growing prefixes by strength and length, draws one
//! by roulette-wheel selection, and advances past it; whatever the draws were,
//! the chosen path concatenates back to the segment exactly. A deposit then
//! reinforces every multi-character token of a path with logistic,
//! capacity-bounded growth.

use vstd::prelude::*;

use crate::fixed::{
    candidate_weight, lemma_deposit_value_below_capacity, lemma_deposit_value_monotone,
    lemma_reward_bound, spec_deposit_value, spec_token_reward, token_reward_units,
};
use crate::params::{
    CAPACITY_UNITS, ColonyParams, INITIAL_STRENGTH_UNITS, WEIGHT_MAX_UNITS, default_params,
};
use crate::rng::RandomSource;
use crate::store::{PheromoneStore, empty_contents, read_strength};
use crate::text::{
    chars_to_string, concat_tokens, lemma_concat_tokens_push, lemma_token_views_push,
    str_to_chars, token_views,
};

verus! {

/// A colony: the shared pheromone store plus the knobs of the run.
pub struct AntColony {
    pub params: ColonyParams,
    pub pheromones: PheromoneStore,
}

/// Sum of a sequence of candidate weights.
pub open spec fn weight_sum(ws: Seq<u64>) -> nat
    decreases ws.len(),
{
    if ws.len() == 0 {
        0
    } else {
        (weight_sum(ws.drop_last()) + ws.last()) as nat
    }
}

/// A prefix never sums to more than the whole.
proof fn lemma_weight_sum_take_le(ws: Seq<u64>, j: int)
    requires
        0 <= j <= ws.len(),
    ensures
        weight_sum(ws.take(j)) <= weight_sum(ws),
    decreases ws.len(),
{
    if j < ws.len() {
        assert(ws.drop_last().take(j) =~= ws.take(j));
        lemma_weight_sum_take_le(ws.drop_last(), j);
    } else {
        assert(ws.take(j) =~= ws);
    }
}

/// Extending a prefix by one element adds exactly that weight.
proof fn lemma_weight_sum_take_step(ws: Seq<u64>, j: int)
    requires
        0 <= j < ws.len(),
    ensures
        weight_sum(ws.take(j + 1)) == weight_sum(ws.take(j)) + ws[j],
{
    assert(ws.take(j + 1).drop_last() =~= ws.take(j));
    assert(ws.take(j + 1).last() == ws[j]);
}

/// Roulette-wheel selection: the first index whose cumulative weight tops the
/// draw. The returned index is pinned by the two prefix-sum bounds.
pub fn roulette_pick(weights: &Vec<u64>, draw: u64) -> (idx: usize)
    requires
        weights@.len() >= 1,
        weight_sum(weights@) <= u64::MAX,
        (draw as nat) < weight_sum(weights@),
    ensures
        idx < weights@.len(),
        weight_sum(weights@.take(idx as int)) <= draw,
        (draw as nat) < weight_sum(weights@.take(idx + 1)),
{
    let mut acc: u64 = 0;
    let mut i: usize = 0;
    while i < weights.len()
        invariant
            i <= weights@.len(),
            weight_sum(weights@) <= u64::MAX,
            (draw as nat) < weight_sum(weights@),
            acc as nat == weight_sum(weights@.take(i as int)),
            acc <= draw,
        decreases weights@.len() - i,
    {
        proof {
            lemma_weight_sum_take_step(weights@, i as int);
            lemma_weight_sum_take_le(weights@, i + 1);
        }
        let w = weights[i];
        if acc + w > draw {
            return i;
        }
        acc = acc + w;
        i = i + 1;
    }
    proof {
        assert(weights@.take(i as int) =~= weights@);
        assert(false);
    }
    0
}

/// One token's reinforcement: single-character tokens are never reinforced;
/// a longer token grows by the logistic rule from its read strength.
pub open spec fn spec_deposit_token(m: Map<Seq<char>, u64>, t: Seq<char>, q: nat) -> Map<
    Seq<char>,
    u64,
> {
    if t.len() <= 1 {
        m
    } else {
        m.insert(
            t,
            spec_deposit_value(
                read_strength(m, t) as nat,
                spec_token_reward(t.len(), q),
            ) as u64,
        )
    }
}

/// Reinforcement of a whole path, token by token, in order.
pub open spec fn spec_deposit_path(m: Map<Seq<char>, u64>, toks: Seq<Seq<char>>, q: nat) -> Map<
    Seq<char>,
    u64,
>
    decreases toks.len(),
{
    if toks.len() == 0 {
        m
    } else {
        spec_deposit_path(spec_deposit_token(m, toks[0], q), toks.drop_first(), q)
    }
}

/// Law: a deposit never lowers the strength any token is read as. The length
/// and exponent bounds are those every path and colony obey; they keep the
/// updated value inside `u64`.
pub proof fn lemma_deposit_token_monotone(m: Map<Seq<char>, u64>, t: Seq<char>, q: nat, k: Seq<char>)
    requires
        t.len() <= 10,
        1 <= q <= 3,
    ensures
        read_strength(spec_deposit_token(m, t, q), k) >= read_strength(m, k),
{
    if t.len() > 1 && k == t {
        let cur = read_strength(m, t) as nat;
        let reward = spec_token_reward(t.len(), q);
        let v = spec_deposit_value(cur, reward);
        lemma_deposit_value_monotone(cur, reward);
        lemma_reward_bound(t.len(), q);
        if cur < CAPACITY_UNITS {
            lemma_deposit_value_below_capacity(cur, reward);
        }
        assert(v <= u64::MAX);
    }
}

/// Law: depositing a whole path never lowers the strength any token is read
/// as, however often the same token occurs in the path.
pub proof fn lemma_deposit_path_monotone(
    m: Map<Seq<char>, u64>,
    toks: Seq<Seq<char>>,
    q: nat,
    k: Seq<char>,
)
    requires
        forall|i: int| 0 <= i < toks.len() ==> (#[trigger] toks[i]).len() <= 10,
        1 <= q <= 3,
    ensures
        read_strength(spec_deposit_path(m, toks, q), k) >= read_strength(m, k),
    decreases toks.len(),
{
    if toks.len() > 0 {
        lemma_deposit_token_monotone(m, toks[0], q, k);
        assert(forall|i: int|
            0 <= i < toks.drop_first().len() ==> (#[trigger] toks.drop_first()[i]).len() <= 10);
        lemma_deposit_path_monotone(spec_deposit_token(m, toks[0], q), toks.drop_first(), q, k);
    }
}

/// Law: strengths approach the carrying capacity but never reach it. If every
/// token reads strictly below the capacity before a deposit, every token
/// still does afterwards.
pub proof fn lemma_deposit_path_below_capacity(
    m: Map<Seq<char>, u64>,
    toks: Seq<Seq<char>>,
    q: nat,
)
    requires
        forall|k: Seq<char>| read_strength(m, k) < CAPACITY_UNITS,
        forall|i: int| 0 <= i < toks.len() ==> (#[trigger] toks[i]).len() <= 10,
        1 <= q <= 3,
    ensures
        forall|k: Seq<char>|
            read_strength(spec_deposit_path(m, toks, q), k) < CAPACITY_UNITS,
    decreases toks.len(),
{
    if toks.len() > 0 {
        let t = toks[0];
        let m1 = spec_deposit_token(m, t, q);
        assert forall|k: Seq<char>| read_strength(m1, k) < CAPACITY_UNITS by {
            if t.len() > 1 && k == t {
                let cur = read_strength(m, t) as nat;
                let reward = spec_token_reward(t.len(), q);
                let v = spec_deposit_value(cur, reward);
                lemma_reward_bound(t.len(), q);
                lemma_deposit_value_below_capacity(cur, reward);
                assert(v < CAPACITY_UNITS);
                assert(v as u64 == v);
                assert(read_strength(m1, k) == v as u64);
            } else {
                assert(read_strength(m, k) < CAPACITY_UNITS);
                assert(read_strength(m1, k) == read_strength(m, k));
            }
        }
        assert(forall|i: int|
            0 <= i < toks.drop_first().len() ==> (#[trigger] toks.drop_first()[i]).len() <= 10);
        lemma_deposit_path_below_capacity(m1, toks.drop_first(), q);
        assert(spec_deposit_path(m, toks, q) == spec_deposit_path(m1, toks.drop_first(), q));
    }
}

impl AntColony {
    /// Every state a colony can reach: valid knobs, finitely many entries,
    /// all of them strictly below the carrying capacity.
    pub open spec fn wf(self) -> bool {
        &&& self.params.wf()
        &&& self.pheromones@.dom().finite()
        &&& forall|k: Seq<char>|
            #[trigger] self.pheromones@.dom().contains(k) ==> self.pheromones@[k] < CAPACITY_UNITS
    }

    /// A fresh colony with the default knobs and an empty store.
    pub fn new() -> (c: AntColony)
        ensures
            c.wf(),
            c.pheromones@ == empty_contents(),
            c.params == (ColonyParams {
                q: 3,
                beta: 4,
                max_token_chars: 10,
                keep_ratio_units: 5000,
                decay_on_survive: true,
            }),
    {
        let c = AntColony { params: default_params(), pheromones: PheromoneStore::new() };
        proof {
            assert(c.pheromones@.dom() =~= Set::<Seq<char>>::empty());
        }
        c
    }

    /// A fresh colony with the given knobs and an empty store.
    pub fn with_params(params: ColonyParams) -> (c: AntColony)
        requires
            params.wf(),
        ensures
            c.wf(),
            c.pheromones@ == empty_contents(),
            c.params == params,
    {
        let c = AntColony { params, pheromones: PheromoneStore::new() };
        proof {
            assert(c.pheromones@.dom() =~= Set::<Seq<char>>::empty());
        }
        c
    }

    /// Strength of a token: the stored value, or the initial strength when
    /// the token is absent — the store is logically total.
    pub fn get_pheromone(&self, token: &str) -> (r: u64)
        ensures
            r == read_strength(self.pheromones@, token@),
    {
        match self.pheromones.get(token) {
            Option::Some(v) => v,
            Option::None => INITIAL_STRENGTH_UNITS,
        }
    }

    /// Run a single ant over one segment: a stochastic, weight-biased walk
    /// that cuts the segment into tokens of 1 to `max_token_chars`
    /// characters. Whatever the random draws were, concatenating the returned
    /// path reproduces the segment exactly; the second component is the
    /// number of steps taken.
    pub fn traverse(&self, text: &str, rng: &mut RandomSource) -> (r: (Vec<String>, usize))
        requires
            self.params.wf(),
        ensures
            concat_tokens(token_views(r.0@)) == text@,
            r.1 == r.0@.len(),
            forall|i: int|
                0 <= i < r.0@.len() ==> 1 <= (#[trigger] r.0@[i])@.len()
                    <= self.params.max_token_chars,
    {
        let chars = str_to_chars(text);
        let n = chars.len();
        let mut tokens: Vec<String> = Vec::new();
        let mut cursor: usize = 0;
        proof {
            assert(token_views(tokens@) =~= Seq::<Seq<char>>::empty());
            assert(text@.take(0) =~= Seq::<char>::empty());
        }
        while cursor < n
            invariant
                self.params.wf(),
                n == chars@.len(),
                chars@ == text@,
                cursor <= n,
                concat_tokens(token_views(tokens@)) == text@.take(cursor as int),
                forall|i: int|
                    0 <= i < tokens@.len() ==> 1 <= (#[trigger] tokens@[i])@.len()
                        <= self.params.max_token_chars,
            decreases n - cursor,
        {
            let remaining = n - cursor;
            let depth = if remaining < self.params.max_token_chars {
                remaining
            } else {
                self.params.max_token_chars
            };
            let mut cand_tokens: Vec<String> = Vec::new();
            let mut cand_weights: Vec<u64> = Vec::new();
            let mut cand_chars: Vec<char> = Vec::new();
            let mut total: u64 = 0;
            let mut j: usize = 0;
            proof {
                assert(cand_chars@ =~= chars@.subrange(cursor as int, cursor as int));
            }
            while j < depth
                invariant
                    self.params.wf(),
                    n == chars@.len(),
                    1 <= depth <= self.params.max_token_chars,
                    cursor + depth <= n,
                    j <= depth,
                    cand_chars@ == chars@.subrange(cursor as int, cursor + j),
                    cand_tokens@.len() == j,
                    cand_weights@.len() == j,
                    forall|i: int|
                        0 <= i < j ==> (#[trigger] cand_tokens@[i])@ == chars@.subrange(
                            cursor as int,
                            cursor + i + 1,
                        ),
                    forall|i: int| 0 <= i < j ==> #[trigger] cand_weights@[i] >= 1,
                    total as nat == weight_sum(cand_weights@),
                    total as nat <= (j as nat) * (WEIGHT_MAX_UNITS as nat),
                    total as nat >= j as nat,
                decreases depth - j,
            {
                cand_chars.push(chars[cursor + j]);
                proof {
                    assert(cand_chars@ =~= chars@.subrange(cursor as int, cursor + j + 1));
                }
                let tok = chars_to_string(&cand_chars);
                let tau = self.get_pheromone(tok.as_str());
                let w = candidate_weight(tau, j + 1, self.params.beta);
                proof {
                    lemma_weight_sum_take_step(cand_weights@.push(w), j as int);
                    assert(cand_weights@.push(w).take(j as int) =~= cand_weights@);
                    assert(cand_weights@.push(w).take(j + 1) =~= cand_weights@.push(w));
                }
                cand_tokens.push(tok);
                cand_weights.push(w);
                total = total + w;
                j = j + 1;
            }
            // Every weight is at least 1, so the total is positive and the
            // roulette draw is always meaningful; the fallback to the
            // shortest candidate can never fire with these weights.
            let idx: usize = if total == 0 {
                0
            } else {
                let draw = rng.random_below(total);
                roulette_pick(&cand_weights, draw)
            };
            let chosen = cand_tokens[idx].clone();
            let ghost prev_tokens = tokens@;
            tokens.push(chosen);
            proof {
                lemma_token_views_push(prev_tokens, tokens@.last());
                lemma_concat_tokens_push(token_views(prev_tokens), tokens@.last()@);
                assert(text@.take(cursor as int) + chars@.subrange(
                    cursor as int,
                    cursor + idx + 1,
                ) =~= text@.take(cursor + idx + 1));
            }
            cursor = cursor + idx + 1;
        }
        proof {
            assert(text@.take(n as int) =~= text@);
        }
        let steps = tokens.len();
        (tokens, steps)
    }

    /// Deposit pheromones along one path: every token longer than one
    /// character is reinforced by the logistic rule, single characters are
    /// left untouched. The step count of the traversal is accepted for
    /// symmetry with `traverse` and plays no part in the update.
    pub fn deposit(&mut self, path: &Vec<String>, _steps: usize)
        requires
            old(self).wf(),
            forall|i: int|
                0 <= i < path@.len() ==> (#[trigger] path@[i])@.len()
                    <= old(self).params.max_token_chars,
        ensures
            final(self).wf(),
            final(self).params == old(self).params,
            final(self).pheromones@ == spec_deposit_path(
                old(self).pheromones@,
                token_views(path@),
                old(self).params.q as nat,
            ),
    {
        let ghost m0 = self.pheromones@;
        let ghost views = token_views(path@);
        let q = self.params.q;
        let mut i: usize = 0;
        proof {
            assert(views.skip(0) =~= views);
        }
        while i < path.len()
            invariant
                self.params.wf(),
                self.params == old(self).params,
                q == self.params.q,
                i <= path@.len(),
                views == token_views(path@),
                forall|t: int|
                    0 <= t < path@.len() ==> (#[trigger] path@[t])@.len()
                        <= self.params.max_token_chars,
                self.pheromones@.dom().finite(),
                forall|k: Seq<char>|
                    #[trigger] self.pheromones@.dom().contains(k) ==> self.pheromones@[k]
                        < CAPACITY_UNITS,
                spec_deposit_path(m0, views, q as nat) == spec_deposit_path(
                    self.pheromones@,
                    views.skip(i as int),
                    q as nat,
                ),
            decreases path@.len() - i,
        {
            let ghost m_before = self.pheromones@;
            let tok = &path[i];
            let tok_chars = str_to_chars(tok.as_str());
            let char_len = tok_chars.len();
            proof {
                assert(views.skip(i as int)[0] == path@[i as int]@);
            }
            if char_len > 1 {
                let reward = token_reward_units(char_len, q);
                self.pheromones.upsert_deposit(tok.as_str(), INITIAL_STRENGTH_UNITS, reward);
                proof {
                    let t = path@[i as int]@;
                    lemma_reward_bound(t.len(), q as nat);
                    lemma_deposit_value_below_capacity(
                        read_strength(m_before, t) as nat,
                        spec_token_reward(t.len(), q as nat),
                    );
                    assert(self.pheromones@ == spec_deposit_token(m_before, t, q as nat));
                }
            }
            proof {
                assert(self.pheromones@ == spec_deposit_token(
                    m_before,
                    views.skip(i as int)[0],
                    q as nat,
                ));
                assert(views.skip(i as int).drop_first() =~= views.skip(i + 1));
            }
            i = i + 1;
        }
        proof {
            assert(views.skip(path@.len() as int) =~= Seq::<Seq<char>>::empty());
        }
    }
}

} // verus!
