//! Fixed-point arithmetic of the training rules: the logistic deposit update,
//! the survivor decay, and the candidate weight
//! `max(ln(strength), epsilon) * length^beta` of the stochastic traversal.
//!
//! The natural logarithm is approximated in fixed point as
//! `ln(2) * (k + f)` where `v = 2^k * (1 + f)`, i.e. linear interpolation
//! between consecutive powers of two; its largest error (about 0.06) is far
//! below the differences the weights are meant to express, and the clamped
//! term agrees exactly with the specification whenever the strength is at the
//! initial value, where `max(ln 1, epsilon) = epsilon`.

use vstd::prelude::*;

use crate::params::{
    CAPACITY_UNITS, DECAY_DEN, DECAY_NUM, EPSILON_UNITS, LN2_UNITS, LN_SCALE_UNITS,
    REWARD_MAX_UNITS, UNIT_SCALE, WEIGHT_LN_MAX_UNITS, WEIGHT_MAX_UNITS,
};

verus! {

use vstd::arithmetic::power2::pow2;
use vstd::arithmetic::power2::lemma2_to64;
use vstd::arithmetic::power2::lemma_pow2_strictly_increases;
use vstd::arithmetic::power2::lemma_pow2_unfold;
use vstd::arithmetic::power2::lemma_pow2_pos;
use vstd::arithmetic::div_mod::lemma_multiply_divide_le;
use vstd::arithmetic::div_mod::lemma_multiply_divide_lt;

/// `b^e` over the naturals.
pub open spec fn nat_pow(b: nat, e: nat) -> nat
    decreases e,
{
    if e == 0 {
        1
    } else {
        b * nat_pow(b, (e - 1) as nat)
    }
}

/// Floor of the base-2 logarithm; 0 below 2.
pub open spec fn log2_floor(v: nat) -> nat
    decreases v,
{
    if v < 2 {
        0
    } else {
        1 + log2_floor(v / 2)
    }
}

/// Fixed-point approximation of `ln(v)` for `v >= 1`:
/// `ln2 * k` plus a linear interpolation term below the next power of two.
pub open spec fn spec_raw_ln_units(v: nat) -> int {
    let k = log2_floor(v);
    k * (LN2_UNITS as int) + ((v - pow2(k)) * (LN2_UNITS as int)) / (pow2(k) as int)
}

/// The clamped log-strength term of a candidate weight:
/// `max(ln(v / UNIT_SCALE), epsilon)` in fixed-point units.
pub open spec fn spec_weight_ln_units(v: nat) -> nat {
    if v == 0 {
        EPSILON_UNITS as nat
    } else {
        let raw = spec_raw_ln_units(v);
        if raw >= LN_SCALE_UNITS + EPSILON_UNITS {
            (raw - LN_SCALE_UNITS) as nat
        } else {
            EPSILON_UNITS as nat
        }
    }
}

/// Weight of a candidate token during traversal: clamped log-strength times
/// the length heuristic `char_len^beta`.
pub open spec fn spec_candidate_weight(strength: nat, char_len: nat, beta: nat) -> nat {
    spec_weight_ln_units(strength) * nat_pow(char_len, beta)
}

/// Reward one deposit carries for a token of `char_len > 1` characters:
/// `(char_len - 1)^q`, in fixed-point units.
pub open spec fn spec_token_reward(char_len: nat, q: nat) -> nat
    recommends
        char_len >= 2,
{
    nat_pow((char_len - 1) as nat, q) * (UNIT_SCALE as nat)
}

/// Logistic reinforcement: the strength grows by `reward * (1 - cur/C)`,
/// rounded down; at or above the capacity nothing changes.
pub open spec fn spec_deposit_value(cur: nat, reward: nat) -> nat {
    if cur >= CAPACITY_UNITS {
        cur
    } else {
        cur + (((reward * (CAPACITY_UNITS - cur)) / (CAPACITY_UNITS as int)) as nat)
    }
}

/// Strength of a survivor after decay: `v * 8 / 10`, rounded down.
pub open spec fn spec_decay_value(v: nat) -> nat {
    (v * (DECAY_NUM as nat)) / (DECAY_DEN as nat)
}

proof fn lemma_nat_pow_mono_base(b1: nat, b2: nat, e: nat)
    requires
        b1 <= b2,
    ensures
        nat_pow(b1, e) <= nat_pow(b2, e),
    decreases e,
{
    if e > 0 {
        lemma_nat_pow_mono_base(b1, b2, (e - 1) as nat);
        assert(b1 * nat_pow(b1, (e - 1) as nat) <= b2 * nat_pow(b2, (e - 1) as nat))
            by (nonlinear_arith)
            requires
                b1 <= b2,
                nat_pow(b1, (e - 1) as nat) <= nat_pow(b2, (e - 1) as nat),
        ;
    }
}

/// `b^e >= 1` for a positive base.
pub proof fn lemma_nat_pow_pos(b: nat, e: nat)
    requires
        b >= 1,
    ensures
        nat_pow(b, e) >= 1,
    decreases e,
{
    if e > 0 {
        lemma_nat_pow_pos(b, (e - 1) as nat);
        assert(b * nat_pow(b, (e - 1) as nat) >= 1) by (nonlinear_arith)
            requires
                b >= 1,
                nat_pow(b, (e - 1) as nat) >= 1,
        ;
    }
}

/// Within the parameter ranges the length heuristic never exceeds 10^4.
proof fn lemma_nat_pow_bound(b: nat, e: nat)
    requires
        b <= 10,
        e <= 4,
    ensures
        nat_pow(b, e) <= 10000,
{
    lemma_nat_pow_mono_base(b, 10, e);
    assert(nat_pow(10nat, 0nat) == 1);
    assert(nat_pow(10nat, 1nat) == 10);
    assert(nat_pow(10nat, 2nat) == 100);
    assert(nat_pow(10nat, 3nat) == 1000);
    assert(nat_pow(10nat, 4nat) == 10000);
    if e == 0 {
    } else if e == 1 {
    } else if e == 2 {
    } else if e == 3 {
    } else {
        assert(e == 4);
    }
}

/// Within the parameter ranges a reward never exceeds REWARD_MAX_UNITS.
pub proof fn lemma_reward_bound(char_len: nat, q: nat)
    requires
        2 <= char_len <= 10,
        1 <= q <= 3,
    ensures
        spec_token_reward(char_len, q) <= REWARD_MAX_UNITS,
{
    lemma_nat_pow_mono_base((char_len - 1) as nat, 9, q);
    assert(nat_pow(9nat, 0nat) == 1);
    assert(nat_pow(9nat, 1nat) == 9);
    assert(nat_pow(9nat, 2nat) == 81);
    assert(nat_pow(9nat, 3nat) == 729);
    if q == 1 {
    } else if q == 2 {
    } else {
        assert(q == 3);
    }
}

/// `pow2(k) <= v < pow2(k + 1)` pins `k` as the floor log.
proof fn lemma_log2_unique(v: nat, k: nat)
    requires
        v >= 1,
        pow2(k) <= v,
        v < pow2((k + 1) as nat),
    ensures
        log2_floor(v) == k,
    decreases k,
{
    lemma_pow2_unfold((k + 1) as nat);
    if k == 0 {
        lemma2_to64();
        assert(v < 2);
    } else {
        lemma_pow2_unfold(k);
        lemma_pow2_pos((k - 1) as nat);
        assert(pow2(k) == 2 * pow2((k - 1) as nat));
        assert(v >= 2);
        assert(pow2((k - 1) as nat) <= v / 2);
        assert(v / 2 < pow2(k));
        lemma_log2_unique(v / 2, (k - 1) as nat);
    }
}

/// The deposit update never lowers a strength.
pub proof fn lemma_deposit_value_monotone(cur: nat, reward: nat)
    ensures
        spec_deposit_value(cur, reward) >= cur,
{
}

/// Below the capacity, a deposit with a reward below the capacity stays
/// strictly below the capacity.
pub proof fn lemma_deposit_value_below_capacity(cur: nat, reward: nat)
    requires
        cur < CAPACITY_UNITS,
        reward < CAPACITY_UNITS,
    ensures
        spec_deposit_value(cur, reward) < CAPACITY_UNITS,
{
    let cap = CAPACITY_UNITS as int;
    let room = cap - cur;
    assert(reward * room < cap * room) by (nonlinear_arith)
        requires
            reward < cap,
            room > 0,
    ;
    lemma_multiply_divide_lt(reward * room, cap, room);
}

/// A deposit grows a strength by at most the reward itself.
pub proof fn lemma_deposit_value_delta_le_reward(cur: nat, reward: nat)
    ensures
        spec_deposit_value(cur, reward) <= cur + reward,
{
    if cur < CAPACITY_UNITS {
        let cap = CAPACITY_UNITS as int;
        let room = cap - cur;
        assert(reward * room <= cap * reward) by (nonlinear_arith)
            requires
                0 <= reward,
                0 < room <= cap,
        ;
        lemma_multiply_divide_le(reward * room, cap, reward as int);
    }
}

/// Floor log of a `u64` together with the matching power of two.
fn floor_log2_with_pow(v: u64) -> (r: (u64, u64))
    requires
        v >= 1,
    ensures
        r.0 as nat == log2_floor(v as nat),
        r.1 as nat == pow2(r.0 as nat),
        r.1 <= v,
        r.0 <= 63,
        (v as nat) < pow2((r.0 + 1) as nat),
{
    let mut k: u64 = 0;
    let mut p: u64 = 1;
    proof {
        lemma2_to64();
    }
    while p <= v / 2
        invariant
            v >= 1,
            p as nat == pow2(k as nat),
            1 <= p <= v,
            k <= 63,
        decreases v - p,
    {
        proof {
            lemma_pow2_unfold((k + 1) as nat);
            // The doubled value still fits: it is at most v.
            assert(2 * p <= v);
            // k + 1 stays at most 63: otherwise pow2(k + 1) would top 2^64.
            if k + 1 > 63 {
                lemma2_to64();
                if k + 1 > 64 {
                    lemma_pow2_strictly_increases(64, (k + 1) as nat);
                }
                assert(pow2((k + 1) as nat) >= pow2(64));
                assert(false);
            }
        }
        p = p * 2;
        k = k + 1;
    }
    proof {
        lemma_pow2_unfold((k + 1) as nat);
        assert(v < 2 * p);
        lemma_log2_unique(v as nat, k as nat);
    }
    (k, p)
}

/// The clamped log-strength term of a candidate weight, exactly as
/// `spec_weight_ln_units` states it.
pub fn weight_ln_units(v: u64) -> (r: u64)
    ensures
        r as nat == spec_weight_ln_units(v as nat),
        EPSILON_UNITS <= r <= WEIGHT_LN_MAX_UNITS,
{
    if v == 0 {
        return EPSILON_UNITS;
    }
    let (k, p) = floor_log2_with_pow(v);
    proof {
        lemma_pow2_unfold((k + 1) as nat);
        assert((v - p) < p);
        assert(((v - p) as int) * (LN2_UNITS as int) < (p as int) * (LN2_UNITS as int))
            by (nonlinear_arith)
            requires
                0 <= ((v - p) as int) < (p as int),
                LN2_UNITS > 0,
        ;
        lemma_multiply_divide_lt(((v - p) as int) * (LN2_UNITS as int), p as int, LN2_UNITS as int);
    }
    let frac: u64 = (((v - p) as u128 * (LN2_UNITS as u128)) / (p as u128)) as u64;
    let raw: u64 = k * LN2_UNITS + frac;
    if raw >= LN_SCALE_UNITS + EPSILON_UNITS {
        raw - LN_SCALE_UNITS
    } else {
        EPSILON_UNITS
    }
}

/// The length heuristic `base^e` within the small parameter ranges.
fn pow_small(base: u64, e: u32) -> (r: u64)
    requires
        base <= 10,
        e <= 4,
    ensures
        r as nat == nat_pow(base as nat, e as nat),
        r <= 10000,
{
    let mut acc: u64 = 1;
    let mut i: u32 = 0;
    while i < e
        invariant
            i <= e,
            e <= 4,
            base <= 10,
            acc as nat == nat_pow(base as nat, i as nat),
            acc <= 10000,
        decreases e - i,
    {
        proof {
            lemma_nat_pow_bound(base as nat, (i + 1) as nat);
            assert(nat_pow(base as nat, (i + 1) as nat) == (base as nat) * nat_pow(
                base as nat,
                i as nat,
            ));
        }
        acc = base * acc;
        i = i + 1;
    }
    proof {
        lemma_nat_pow_bound(base as nat, e as nat);
    }
    acc
}

/// Weight of one candidate during traversal. Strictly positive, so the
/// roulette total can never be zero.
pub fn candidate_weight(strength: u64, char_len: usize, beta: u32) -> (r: u64)
    requires
        1 <= char_len <= 10,
        beta <= 4,
    ensures
        r as nat == spec_candidate_weight(strength as nat, char_len as nat, beta as nat),
        1 <= r <= WEIGHT_MAX_UNITS,
{
    let ln_term = weight_ln_units(strength);
    let eta = pow_small(char_len as u64, beta);
    proof {
        lemma_nat_pow_pos(char_len as nat, beta as nat);
        assert((ln_term as nat) * (eta as nat) <= (WEIGHT_LN_MAX_UNITS as nat) * 10000)
            by (nonlinear_arith)
            requires
                ln_term <= WEIGHT_LN_MAX_UNITS,
                eta <= 10000,
                0 <= ln_term,
                0 <= eta,
        ;
        assert((ln_term as nat) * (eta as nat) >= 1) by (nonlinear_arith)
            requires
                ln_term >= 1,
                eta >= 1,
        ;
    }
    ln_term * eta
}

/// Reward carried by one deposit of a token of `char_len` characters.
pub fn token_reward_units(char_len: usize, q: u32) -> (r: u64)
    requires
        2 <= char_len <= 10,
        1 <= q <= 3,
    ensures
        r as nat == spec_token_reward(char_len as nat, q as nat),
        r <= REWARD_MAX_UNITS,
{
    proof {
        lemma_reward_bound(char_len as nat, q as nat);
        lemma_nat_pow_bound((char_len - 1) as nat, q as nat);
    }
    let base = pow_small((char_len - 1) as u64, q);
    base * UNIT_SCALE
}

/// The logistic deposit update, exactly as `spec_deposit_value` states it.
pub fn deposit_new_value(cur: u64, reward: u64) -> (r: u64)
    requires
        reward <= REWARD_MAX_UNITS,
    ensures
        r as nat == spec_deposit_value(cur as nat, reward as nat),
        r >= cur,
        cur < CAPACITY_UNITS ==> r < CAPACITY_UNITS,
{
    if cur >= CAPACITY_UNITS {
        return cur;
    }
    proof {
        lemma_deposit_value_monotone(cur as nat, reward as nat);
        lemma_deposit_value_below_capacity(cur as nat, reward as nat);
        lemma_deposit_value_delta_le_reward(cur as nat, reward as nat);
    }
    let delta: u64 = ((reward as u128 * ((CAPACITY_UNITS - cur) as u128))
        / (CAPACITY_UNITS as u128)) as u64;
    cur + delta
}

/// The survivor decay, exactly as `spec_decay_value` states it.
pub fn decay_value(v: u64) -> (r: u64)
    ensures
        r as nat == spec_decay_value(v as nat),
        r <= v,
{
    proof {
        assert((v as int) * (DECAY_NUM as int) <= (DECAY_DEN as int) * (v as int))
            by (nonlinear_arith)
            requires
                0 <= v as int,
        ;
        lemma_multiply_divide_le((v as int) * (DECAY_NUM as int), DECAY_DEN as int, v as int);
    }
    (((v as u128) * (DECAY_NUM as u128)) / (DECAY_DEN as u128)) as u64
}

} // verus!
