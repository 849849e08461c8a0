//! Shared constants and the tunable parameters of a training run.
//!
//! All strengths, rewards and weights are fixed-point numbers: a value `v`
//! stands for the real number `v / 10000`. Four decimal digits is exactly the
//! precision of the persisted vocabulary file, so nothing is lost between a
//! training run and the tokenizer that later loads its output.

use vstd::prelude::*;

verus! {

/// Number of fixed-point units in 1.0.
pub const UNIT_SCALE: u64 = 10000;

/// Strength that a token absent from the store is read as: 1.0.
pub const INITIAL_STRENGTH_UNITS: u64 = 10000;

/// Floor for a candidate's log-strength term: 0.0001. Keeps every candidate
/// weight strictly positive.
pub const EPSILON_UNITS: u64 = 1;

/// Carrying capacity of the logistic reinforcement rule: 100_000_000.0.
/// Strengths approach this ceiling but never reach it.
pub const CAPACITY_UNITS: u64 = 1_000_000_000_000;

/// ln(2) in fixed-point units.
pub const LN2_UNITS: u64 = 6931;

/// ln(10000) in fixed-point units; subtracted to turn ln of a raw unit count
/// into ln of the strength it stands for.
pub const LN_SCALE_UNITS: u64 = 92103;

/// Largest reward a single deposit can carry: (10 - 1)^3 * UNIT_SCALE.
pub const REWARD_MAX_UNITS: u64 = 7_290_000;

/// Largest value the clamped log-strength term can take, reached just below
/// `u64::MAX` units of strength.
pub const WEIGHT_LN_MAX_UNITS: u64 = 351_480;

/// Largest candidate weight: WEIGHT_LN_MAX_UNITS * 10^4 (the largest length
/// heuristic).
pub const WEIGHT_MAX_UNITS: u64 = 3_514_800_000;

/// Numerator of the decay factor applied to survivors of a selection round.
pub const DECAY_NUM: u64 = 8;

/// Denominator of the decay factor applied to survivors of a selection round.
pub const DECAY_DEN: u64 = 10;

/// Tunable knobs of a colony. The exponents stay within the small empirical
/// ranges the algorithm was designed for, which also keeps every intermediate
/// product comfortably inside `u64`.
#[derive(Clone, Copy, PartialEq, Eq, Structural, Debug)]
pub struct ColonyParams {
    /// Exponent of the deposit reward: reward = (length - 1)^q.
    pub q: u32,
    /// Exponent of the length heuristic: eta = length^beta.
    pub beta: u32,
    /// Longest candidate token, counted in Unicode scalar values.
    pub max_token_chars: usize,
    /// Fraction of entries kept by a selection round, in units of 1/10000.
    pub keep_ratio_units: u64,
    /// Whether survivors of a selection round are decayed by DECAY_NUM/DECAY_DEN.
    pub decay_on_survive: bool,
}

impl ColonyParams {
    /// The ranges every colony is run with.
    pub open spec fn wf(self) -> bool {
        &&& 1 <= self.q <= 3
        &&& 1 <= self.beta <= 4
        &&& 1 <= self.max_token_chars <= 10
        &&& 1 <= self.keep_ratio_units <= 10000
    }
}

/// The default parameter set: strong length bias, relaxed selection with decay.
pub fn default_params() -> (p: ColonyParams)
    ensures
        p.wf(),
        p == (ColonyParams {
            q: 3,
            beta: 4,
            max_token_chars: 10,
            keep_ratio_units: 5000,
            decay_on_survive: true,
        }),
{
    ColonyParams { q: 3, beta: 4, max_token_chars: 10, keep_ratio_units: 5000, decay_on_survive: true }
}

} // verus!
