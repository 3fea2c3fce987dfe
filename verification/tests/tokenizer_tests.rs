use kv_index::tokenize;

#[test]
fn tokenize_normalizes_case_and_splits_on_punctuation() {
    let toks = tokenize("Hello, World! 123");
    let toks: Vec<&str> = toks.iter().map(|t| t.as_str()).collect();
    assert_eq!(toks, vec!["hello", "world", "123"]);
}

#[test]
fn tokenize_empty_input_yields_no_tokens() {
    assert_eq!(tokenize("").len(), 0);
}

#[test]
fn tokenize_whitespace_only_yields_no_tokens() {
    assert_eq!(tokenize("  ").len(), 0);
}

#[test]
fn tokenize_lowercases_all_ascii_letters() {
    let toks = tokenize("Abc");
    assert_eq!(toks.len(), 1);
    assert_eq!(toks[0], "abc");
}

#[test]
fn tokenize_treats_non_ascii_as_separator() {
    let toks = tokenize("h\u{e9}llo");
    let toks: Vec<&str> = toks.iter().map(|t| t.as_str()).collect();
    assert_eq!(toks, vec!["h", "llo"]);
}

#[test]
fn tokenize_keeps_duplicates_in_order() {
    let toks = tokenize("the cat the mat");
    let toks: Vec<&str> = toks.iter().map(|t| t.as_str()).collect();
    assert_eq!(toks, vec!["the", "cat", "the", "mat"]);
}

#[test]
fn tokenize_mixed_alphanumeric_run_stays_one_token() {
    let toks = tokenize("CamelCase42 x");
    let toks: Vec<&str> = toks.iter().map(|t| t.as_str()).collect();
    assert_eq!(toks, vec!["camelcase42", "x"]);
}
