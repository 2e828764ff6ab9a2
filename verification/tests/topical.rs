use keyword_extraction_pipeline::stages::topical::levenshtein;

#[test]
fn levenshtein_agrees_with_worked_examples() {
    assert_eq!(levenshtein("kitten", "sitting"), 3);
    assert_eq!(levenshtein("", "abc"), 3);
    assert_eq!(levenshtein("same", "same"), 0);
}

#[test]
fn levenshtein_counts_chars_not_bytes() {
    assert_eq!(levenshtein("caf\u{e9}", "cafe"), 1);
    assert_eq!(levenshtein("abc", ""), 3);
}
