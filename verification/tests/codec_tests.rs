use antvocab::codec::{
    escape_token, format_score_units, format_vocab_line, parse_score_units, parse_vocab_line,
    unescape_token,
};

fn parse_score(s: &str) -> Option<u64> {
    let cs: Vec<char> = s.chars().collect();
    parse_score_units(&cs)
}

#[test]
fn escaping_replaces_control_characters() {
    assert_eq!(escape_token("a\nb"), "a\\nb");
    assert_eq!(escape_token("a\rb"), "a\\rb");
    assert_eq!(escape_token("plain"), "plain");
    assert_eq!(escape_token(""), "");
}

#[test]
fn escaping_round_trips() {
    for t in ["a\nb", "\r", "\n\n", "tab\tand space", "héllo\n", "back\\slash"] {
        assert_eq!(unescape_token(&escape_token(t)), t);
    }
}

#[test]
fn ambiguous_literal_sequences_collapse_as_documented() {
    // A token already containing the two characters backslash-n cannot be
    // told apart from an escaped newline: it comes back as the newline.
    assert_eq!(unescape_token(&escape_token("a\\nb")), "a\nb");
}

#[test]
fn scores_format_with_four_decimals() {
    assert_eq!(format_score_units(0), "0.0000");
    assert_eq!(format_score_units(10000), "1.0000");
    assert_eq!(format_score_units(34567), "3.4567");
    assert_eq!(format_score_units(1_000_000_000_000), "100000000.0000");
    assert_eq!(format_score_units(7), "0.0007");
}

#[test]
fn scores_parse_back_and_tolerate_loose_forms() {
    assert_eq!(parse_score("3.4567"), Some(34567));
    assert_eq!(parse_score("0.0000"), Some(0));
    assert_eq!(parse_score("007"), Some(70000));
    assert_eq!(parse_score("3."), Some(30000));
    assert_eq!(parse_score("3.1"), Some(31000));
    // Digits past the stored precision are dropped.
    assert_eq!(parse_score("3.45678"), Some(34567));
    // Malformed scores yield nothing.
    assert_eq!(parse_score(""), None);
    assert_eq!(parse_score("-1.0"), None);
    assert_eq!(parse_score("1.2.3"), None);
    assert_eq!(parse_score(".5"), None);
    assert_eq!(parse_score("abc"), None);
}

#[test]
fn newline_token_persists_and_reloads_exactly() {
    // A token that is a literal newline, scored 3.4567, becomes the file
    // line `\n<tab>3.4567` and reloads to exactly the same strength.
    let line = format_vocab_line("\n", 34567);
    assert_eq!(line, "\\n\t3.4567");
    let (token, units) = parse_vocab_line(&line).unwrap();
    assert_eq!(token, "\n");
    assert_eq!(units, 34567);
}

#[test]
fn lines_split_on_the_last_tab() {
    // Tokens containing spaces and even tabs survive, because the score is
    // whatever follows the last tab.
    let (token, units) = parse_vocab_line("a b\t2.0000").unwrap();
    assert_eq!(token, "a b");
    assert_eq!(units, 20000);
    let (token, units) = parse_vocab_line("a\tb\t1.5000").unwrap();
    assert_eq!(token, "a\tb");
    assert_eq!(units, 15000);
}

#[test]
fn malformed_lines_yield_nothing() {
    assert_eq!(parse_vocab_line("no separator"), None);
    assert_eq!(parse_vocab_line("x\tnot a number"), None);
    assert_eq!(parse_vocab_line(""), None);
}

#[test]
fn score_part_is_trimmed() {
    let (token, units) = parse_vocab_line("x\t 2.5000 ").unwrap();
    assert_eq!(token, "x");
    assert_eq!(units, 25000);
    // A CRLF line leaves a carriage return behind; it is tolerated.
    let (token, units) = parse_vocab_line("y\t1.0000\r").unwrap();
    assert_eq!(token, "y");
    assert_eq!(units, 10000);
}

#[test]
fn every_line_round_trips_through_the_format() {
    for (t, u) in [("fox", 123456u64), (" ", 1), ("a\nb", 99999), ("", 0)] {
        let line = format_vocab_line(t, u);
        let (token, units) = parse_vocab_line(&line).unwrap();
        assert_eq!(token, t);
        assert_eq!(units, u);
    }
}
