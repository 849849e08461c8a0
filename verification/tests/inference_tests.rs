use antvocab::inference::Vocabulary;

fn vocab_of(entries: &[(&str, u64)]) -> Vocabulary {
    let mut v = Vocabulary::new();
    for (t, s) in entries {
        v.insert(t.to_string(), *s);
    }
    v
}

#[test]
fn ties_go_to_the_longer_candidate() {
    // "th" and "the" both score 5.0: at the start of "the cat" both match
    // with equal scores, and the longer one wins.
    let v = vocab_of(&[("th", 50000), ("the", 50000)]);
    let tokens = v.tokenize("the cat");
    assert_eq!(tokens[0], "the");
    assert_eq!(tokens.join(""), "the cat");
}

#[test]
fn higher_score_beats_greater_length() {
    // "a" outscores "ab", so the single character wins despite being shorter.
    let v = vocab_of(&[("a", 90000), ("ab", 10000)]);
    let tokens = v.tokenize("abc");
    assert_eq!(tokens, vec!["a".to_string(), "b".to_string(), "c".to_string()]);
}

#[test]
fn unmatched_positions_fall_back_to_single_characters() {
    let v = vocab_of(&[("xy", 10000)]);
    let tokens = v.tokenize("qxyq");
    assert_eq!(tokens, vec!["q".to_string(), "xy".to_string(), "q".to_string()]);
}

#[test]
fn tokenizer_reconstructs_arbitrary_text() {
    let v = vocab_of(&[("an", 20000), ("ant", 30000), (" ", 5000)]);
    for text in ["an ant and an anthill", "", "ααβ ant", "\n\t"] {
        assert_eq!(v.tokenize(text).join(""), text);
    }
}

#[test]
fn tokenizer_is_deterministic() {
    let v = vocab_of(&[("the", 50000), ("he", 60000), (" ", 10000)]);
    let first = v.tokenize("the theory of the ant");
    for _ in 0..5 {
        assert_eq!(v.tokenize("the theory of the ant"), first);
    }
}

#[test]
fn empty_vocabulary_emits_single_characters() {
    let v = Vocabulary::new();
    let tokens = v.tokenize("abc");
    assert_eq!(tokens, vec!["a".to_string(), "b".to_string(), "c".to_string()]);
}

#[test]
fn repeated_insert_overrides_the_score() {
    let mut v = Vocabulary::new();
    v.insert("ab".to_string(), 10000);
    v.insert("ab".to_string(), 90000);
    v.insert("a".to_string(), 50000);
    assert_eq!(v.len(), 2);
    // With 9.0 on "ab" the pair beats the single character's 5.0.
    assert_eq!(v.tokenize("ab")[0], "ab");
}

#[test]
fn loader_skips_header_and_malformed_lines() {
    let lines: Vec<String> = vec![
        "Token\tScore".to_string(),
        "ab\t1.5000".to_string(),
        "bad line".to_string(),
        "x\tnotanumber".to_string(),
        "c d\t2.0000".to_string(),
    ];
    let v = Vocabulary::load(&lines);
    assert_eq!(v.len(), 2);
    assert_eq!(v.max_token_chars(), 3);
    assert_eq!(v.tokenize("ab")[0], "ab");
}

#[test]
fn loader_unescapes_tokens() {
    let lines: Vec<String> = vec!["Token\tScore".to_string(), "\\n\t3.4567".to_string()];
    let v = Vocabulary::load(&lines);
    assert_eq!(v.len(), 1);
    let tokens = v.tokenize("a\nb");
    assert_eq!(tokens, vec!["a".to_string(), "\n".to_string(), "b".to_string()]);
}

#[test]
fn loader_lets_later_lines_override() {
    let lines: Vec<String> = vec!["ab\t1.0000".to_string(), "ab\t2.0000".to_string()];
    let v = Vocabulary::load(&lines);
    assert_eq!(v.len(), 1);
}

#[test]
fn max_token_length_bounds_the_search() {
    // The longest loaded token is 2 characters, so a longer dictionary word
    // can never be emitted whole.
    let v = vocab_of(&[("ab", 10000), ("cd", 10000)]);
    assert_eq!(v.max_token_chars(), 2);
    let tokens = v.tokenize("abcd");
    assert_eq!(tokens, vec!["ab".to_string(), "cd".to_string()]);
}
