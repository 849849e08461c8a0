//! A subword-vocabulary learner in the style of ant-colony optimization,
//! together with the deterministic greedy tokenizer that applies a learned,
//! scored vocabulary at inference time.
//!
//! Token strengths ("pheromones") are kept in fixed-point form: a strength is
//! a `u64` counting units of 1/10000, the same granularity as the persisted
//! vocabulary file, which carries four decimal places.

pub mod codec;
pub mod colony;
pub mod experimental;
pub mod fixed;
pub mod inference;
pub mod params;
pub mod rng;
pub mod selection;
pub mod store;
pub mod text;
pub mod training;
