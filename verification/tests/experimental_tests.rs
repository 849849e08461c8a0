use antvocab::experimental::ExperimentalAlgo;

#[test]
fn new_algo_starts_empty() {
    let a = ExperimentalAlgo::new();
    assert_eq!(a.vocab.len(), 0);
    assert_eq!(a.next_id, 0);
}

#[test]
fn train_seeds_the_common_fragments_once() {
    let mut a = ExperimentalAlgo::new();
    a.train("some corpus");
    assert_eq!(a.vocab.len(), 5);
    assert_eq!(a.next_id, 5);
    let texts: Vec<&str> = a.vocab.iter().map(|p| p.0.as_str()).collect();
    assert_eq!(texts, vec!["the", "and", "ing", "tion", " "]);
    let ids: Vec<usize> = a.vocab.iter().map(|p| p.1).collect();
    assert_eq!(ids, vec![0, 1, 2, 3, 4]);
    // Training again adds nothing: every word is already present.
    a.train("another corpus");
    assert_eq!(a.vocab.len(), 5);
    assert_eq!(a.next_id, 5);
}

#[test]
fn greedy_longest_match_segmentation() {
    let mut a = ExperimentalAlgo::new();
    a.train("");
    let tokens = a.tokenize("the theory");
    assert_eq!(
        tokens,
        vec![
            "the".to_string(),
            " ".to_string(),
            "the".to_string(),
            "o".to_string(),
            "r".to_string(),
            "y".to_string(),
        ]
    );
    assert_eq!(tokens.join(""), "the theory");
}

#[test]
fn experimental_tokenizer_reconstructs_input() {
    let mut a = ExperimentalAlgo::new();
    a.train("");
    for text in ["standing ovation", "", "tion and the", "ünïcode"] {
        assert_eq!(a.tokenize(text).join(""), text);
    }
}

#[test]
fn compressed_size_counts_tokens_and_dictionary() {
    let mut a = ExperimentalAlgo::new();
    a.train("");
    // "the theory" tokenizes into 6 tokens at 2 bytes each; the dictionary
    // overhead is (3+4) + (3+4) + (3+4) + (4+4) + (1+4) = 34.
    assert_eq!(a.compressed_size("the theory"), 12 + 34);
    assert_eq!(a.compressed_size(""), 34);
}

#[test]
fn compression_ratio_improves_on_matching_text() {
    let mut a = ExperimentalAlgo::new();
    a.train("");
    let text = "the the the the the the the the the the";
    let compressed = a.compressed_size(text) as f64;
    let ratio = text.len() as f64 / compressed;
    // 19 tokens * 2 bytes + 34 = 72 against 39 input bytes.
    assert!((ratio - 39.0 / 72.0).abs() < 1e-9);
}
