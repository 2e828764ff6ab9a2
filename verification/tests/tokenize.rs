use keyword_extraction_pipeline::tokenize::{clauses, sentences, separator_segments, tokens};

fn texts(s: &str) -> Vec<&str> {
    tokens(s).into_iter().map(|t| t.text).collect()
}

#[test]
fn keeps_identifiers_whole() {
    assert_eq!(texts("Batch DS-2291 and SOP-114/rev3."), ["Batch", "DS-2291", "and", "SOP-114/rev3"]);
}

#[test]
fn trims_sentence_punctuation_but_not_internal_stops() {
    assert_eq!(texts("(see v2.14.3), yes."), ["see", "v2.14.3", "yes"]);
}

#[test]
fn offsets_point_at_the_token() {
    let text = "Batch DS-2291 released";
    let t = &tokens(text)[1];
    assert_eq!(&text[t.span.clone()], "DS-2291");
}

#[test]
fn drops_pure_punctuation() {
    assert!(texts("--- *** ---").is_empty());
}

#[test]
fn counts_separator_segments() {
    assert_eq!(separator_segments("DS-2291"), 2);
    assert_eq!(separator_segments("SOP-114/rev3"), 3);
    assert_eq!(separator_segments("ordinary"), 1);
    // A trailing separator leaves one lexical segment, not two.
    assert_eq!(separator_segments("word-"), 1);
}

#[test]
fn a_wrapped_prose_block_is_one_clause() {
    let text = "Armature gives every scientist a single\n\
                workspace where data capture, analysis and\n\
                reporting live together.";
    assert_eq!(sentences(text).len(), 3);
    assert_eq!(clauses(text).len(), 1, "soft wraps were not healed");
}

#[test]
fn a_heading_does_not_absorb_the_line_below_it() {
    let text = "ARMATURE CODE\nStart today.";
    assert_eq!(clauses(text).len(), 2, "a heading swallowed the line after it");
}

#[test]
fn table_rows_are_never_joined_to_each_other() {
    let text = "Batch\tCell\tYield\nDS-2291\tHEK293T\t91.4\nDS-2292\tHEK293T\t88.1";
    assert_eq!(clauses(text).len(), 3, "spliced table rows into one clause");
}

#[test]
fn a_clause_covers_exactly_the_text_it_spans() {
    let text = "one two three\nfour five six.\nSeven eight nine.";
    for span in clauses(text) {
        assert!(text.is_char_boundary(span.start) && text.is_char_boundary(span.end));
    }
    let spans = clauses(text);
    assert_eq!(spans[0].start, 0);
    assert_eq!(spans.last().unwrap().end, text.len());
}

#[test]
fn an_apostrophe_is_not_an_identifier_separator() {
    assert_eq!(separator_segments("anyone\u{2019}s"), 1);
    assert_eq!(separator_segments("don't"), 1);
    assert_eq!(separator_segments("DS-2291"), 2);
}

#[test]
fn splits_sentences_without_breaking_on_versions() {
    let text = "Run v2.14.3 completed. The next run failed.";
    let s = sentences(text);
    assert_eq!(s.len(), 2, "got {:?}", s.iter().map(|r| &text[r.clone()]).collect::<Vec<_>>());
    assert!(text[s[0].clone()].contains("v2.14.3"));
}

#[test]
fn treats_line_breaks_as_sentence_boundaries() {
    let text = "Column Regeneration Report\nBatch DS-2291 was purified";
    assert_eq!(sentences(text).len(), 2);
}

#[test]
fn a_token_keeps_a_non_ascii_word_whole_and_its_offsets_in_bytes() {
    let text = "caf\u{e9} \u{2014} na\u{ef}ve";
    let toks = tokens(text);
    assert_eq!(toks.len(), 2);
    assert_eq!(&text[toks[1].span.clone()], "na\u{ef}ve");
    assert_eq!(toks[1].lower(), "na\u{ef}ve");
}

#[test]
fn a_number_after_an_abbreviation_is_no_sentence_boundary() {
    let text = "See Fig. 4 for details.";
    assert_eq!(sentences(text), vec![0..text.len()]);
}

#[test]
fn clauses_are_maximal_runs_of_continuing_sentences() {
    let text = "first part of a\nlong sentence. Second one\nAnd a third";
    let s = sentences(text);
    let c = clauses(text);
    assert_eq!(s.len(), 4);
    assert_eq!(c, vec![s[0].start..s[1].end, s[2].clone(), s[3].clone()]);
}
