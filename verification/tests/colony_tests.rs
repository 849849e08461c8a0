use antvocab::colony::{AntColony, roulette_pick};
use antvocab::fixed::{candidate_weight, decay_value, deposit_new_value, weight_ln_units};
use antvocab::params::ColonyParams;
use antvocab::rng::RandomSource;
use antvocab::selection::selection_threshold;

fn flat_params() -> ColonyParams {
    ColonyParams { q: 1, beta: 2, max_token_chars: 10, keep_ratio_units: 2000, decay_on_survive: false }
}

#[test]
fn initial_strength_weights_follow_epsilon_and_length() {
    // An absent token reads as 1.0; ln(1.0) clamps to the epsilon floor of
    // one fixed-point unit, so the weight is epsilon times length^beta.
    assert_eq!(weight_ln_units(10000), 1);
    // beta = 2: candidate "a" weighs 1e-4 * 1^2, candidate "ab" 1e-4 * 2^2.
    assert_eq!(candidate_weight(10000, 1, 2), 1);
    assert_eq!(candidate_weight(10000, 2, 2), 4);
}

#[test]
fn roulette_prefers_by_cumulative_weight() {
    // Weights 1 and 4: draws 0 pick the first candidate, draws 1..=4 the
    // second — a 4/5 chance for the longer one.
    let weights = vec![1u64, 4u64];
    assert_eq!(roulette_pick(&weights, 0), 0);
    assert_eq!(roulette_pick(&weights, 1), 1);
    assert_eq!(roulette_pick(&weights, 2), 1);
    assert_eq!(roulette_pick(&weights, 4), 1);
}

#[test]
fn traverse_reconstructs_ascii_segment() {
    let colony = AntColony::new();
    let mut rng = RandomSource::from_seed(7);
    let (path, steps) = colony.traverse("the quick brown fox", &mut rng);
    assert_eq!(steps, path.len());
    assert_eq!(path.join(""), "the quick brown fox");
    for tok in &path {
        let n = tok.chars().count();
        assert!(n >= 1 && n <= 10);
    }
}

#[test]
fn traverse_reconstructs_multibyte_segment() {
    let colony = AntColony::with_params(flat_params());
    for seed in [0u64, 1, 2, 42, 999] {
        let mut rng = RandomSource::from_seed(seed);
        let text = "héllo wörld \u{2600} ant";
        let (path, _) = colony.traverse(text, &mut rng);
        assert_eq!(path.join(""), text);
    }
}

#[test]
fn deposit_reinforces_multicharacter_tokens_only() {
    // q = 1, capacity 1e8: "the" and "fox" get reward (3-1)^1 = 2.0, i.e.
    // 20000 units scaled down by the logistic factor to 19999; the single
    // space is never reinforced and still reads as the initial 1.0.
    let mut colony = AntColony::with_params(flat_params());
    let path = vec!["the".to_string(), " ".to_string(), "fox".to_string()];
    colony.deposit(&path, 3);
    assert_eq!(colony.get_pheromone("the"), 29999);
    assert_eq!(colony.get_pheromone("fox"), 29999);
    assert_eq!(colony.get_pheromone(" "), 10000);
    assert_eq!(colony.pheromones.len(), 2);
}

#[test]
fn deposit_is_monotone_and_capped() {
    // Repeated deposits keep growing the strength but never reach the
    // carrying capacity of 1e8 (1e12 units).
    let mut prev = 0u64;
    let mut cur = 10000u64;
    for _ in 0..1000 {
        let next = deposit_new_value(cur, 7_290_000);
        assert!(next >= cur);
        assert!(next < 1_000_000_000_000);
        prev = cur;
        cur = next;
    }
    assert!(cur > prev || cur == prev);
    assert!(cur > 10000);
}

#[test]
fn selection_round_prunes_and_decays() {
    // Two tokens with unequal strengths; keep-ratio 0.5 cuts at rank 1, so
    // the threshold is the weaker strength and both survive, decayed by 0.8.
    let mut colony = AntColony::new();
    colony.deposit(&vec!["aa".to_string(), "bb".to_string()], 2);
    colony.deposit(&vec!["aa".to_string()], 1);
    assert_eq!(colony.get_pheromone("aa"), 29998);
    assert_eq!(colony.get_pheromone("bb"), 19999);
    let threshold = colony.natural_selection();
    assert_eq!(threshold, 19999);
    assert_eq!(colony.pheromones.len(), 2);
    assert_eq!(colony.get_pheromone("aa"), 23998);
    assert_eq!(colony.get_pheromone("bb"), 15999);
}

#[test]
fn threshold_sits_at_the_keep_ratio_rank() {
    // Scores [10, 8, 6, 4, 2] with keep-ratio 0.5: the cut lands at rank 2
    // of the descending order, so the threshold is 6.0; with decay on, the
    // survivors 10, 8 and 6 would read 8, 6.4 and 4.8.
    let scores = vec![100000u64, 80000, 60000, 40000, 20000];
    assert_eq!(selection_threshold(&scores, 5000), 60000);
    assert_eq!(decay_value(100000), 80000);
    assert_eq!(decay_value(80000), 64000);
    assert_eq!(decay_value(60000), 48000);
    // The rank is independent of the order the scores arrive in.
    let shuffled = vec![20000u64, 60000, 100000, 40000, 80000];
    assert_eq!(selection_threshold(&shuffled, 5000), 60000);
    // Keep-ratio 0.2 on the same scores cuts at max(1, 1) = rank 1.
    assert_eq!(selection_threshold(&scores, 2000), 80000);
}

#[test]
fn selection_on_empty_store_does_nothing() {
    let mut colony = AntColony::new();
    assert_eq!(colony.natural_selection(), 0);
    assert_eq!(colony.pheromones.len(), 0);
}

#[test]
fn decay_factor_is_four_fifths() {
    assert_eq!(decay_value(80000), 64000);
    assert_eq!(decay_value(60000), 48000);
    assert_eq!(decay_value(0), 0);
}

#[test]
fn random_below_stays_in_range() {
    let mut rng = RandomSource::from_seed(123);
    for bound in [1u64, 2, 5, 1000] {
        for _ in 0..50 {
            assert!(rng.random_below(bound) < bound);
        }
    }
}

#[test]
fn training_run_produces_scored_vocabulary() {
    let segments: Vec<String> = vec![
        "the ants walk the text".to_string(),
        "the text walks back".to_string(),
        "ants and text and ants".to_string(),
    ];
    let mut colony = AntColony::new();
    let mut rng = RandomSource::from_seed(5);
    colony.train(&segments, 3, &mut rng);
    // Whatever the draws were, every stored strength is positive and below
    // the carrying capacity.
    for (_token, units) in colony.pheromones.snapshot() {
        assert!(units < 1_000_000_000_000);
    }
}

#[test]
fn run_generation_paths_reconstruct_segments() {
    let segments: Vec<String> = vec!["abcabc".to_string(), "xyz".to_string()];
    let mut colony = AntColony::new();
    let mut rng = RandomSource::from_seed(11);
    let (paths, _threshold) = colony.run_generation(&segments, &mut rng);
    assert_eq!(paths.len(), 2);
    assert_eq!(paths[0].join(""), "abcabc");
    assert_eq!(paths[1].join(""), "xyz");
}
