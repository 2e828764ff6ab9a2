use keyword_extraction_pipeline::canonical::canonicalise;
use keyword_extraction_pipeline::config::Config;
use keyword_extraction_pipeline::parse::SourceKind;
use keyword_extraction_pipeline::text::char_is_whitespace;

fn canon(s: &str) -> String {
    canonicalise(s, SourceKind::Plain, &Config::default())
}

#[test]
fn collapses_runs_but_keeps_paragraphs() {
    assert_eq!(canon("a   b\n\n\n\nc  d"), "a b\n\nc d");
}

#[test]
fn rejoins_words_split_across_lines() {
    assert_eq!(canon("the column was regen-\nerated today"), "the column was regenerated today");
}

#[test]
fn does_not_join_a_genuine_trailing_hyphen() {
    // Next line starts uppercase, so the hyphen is a real one.
    assert_eq!(canon("MabSelect SuRe-\nCapto S"), "MabSelect SuRe-\nCapto S");
}

#[test]
fn removes_soft_hyphens_that_would_split_identifiers() {
    assert_eq!(canon("DS\u{ad}-2291"), "DS-2291");
}

#[test]
fn folds_typographic_hyphens_but_not_dashes() {
    assert_eq!(canon("DS\u{2010}2291"), "DS-2291");
    assert_eq!(canon("a \u{2014} b"), "a \u{2014} b");
}

#[test]
fn page_breaks_become_line_breaks() {
    assert_eq!(canon("page one\x0cpage two"), "page one\npage two");
}

#[test]
fn strips_quotes_attribution_and_signature() {
    let raw = "Confirmed, regenerated per SOP-114.\n\
               \n\
               On Tue, Bob wrote:\n\
               > Has batch DS-2291 been released?\n\
               > > Original question.\n\
               \n\
               -- \n\
               Alice Example | Process Development";
    let out = canonicalise(raw, SourceKind::Email, &Config::default());

    assert!(out.contains("Confirmed, regenerated per SOP-114."));
    assert!(!out.contains("Has batch"), "quoted block survived: {out:?}");
    assert!(!out.contains("Bob wrote"), "attribution survived: {out:?}");
    assert!(!out.contains("Process Development"), "signature survived: {out:?}");
}

#[test]
fn attribution_rule_does_not_eat_ordinary_sentences() {
    // A missing sentence is an invisible failure, so the rule must be narrow.
    let raw = "On the whole the results were good.\nWe wrote: the yield was high.";
    let out = canonicalise(raw, SourceKind::Email, &Config::default());
    assert!(out.contains("On the whole the results were good."));
}

#[test]
fn quotes_are_kept_when_stripping_is_disabled() {
    let cfg = Config { strip_quoted_blocks: false, ..Config::default() };
    let out = canonicalise("hello\n> quoted", SourceKind::Email, &cfg);
    assert!(out.contains("quoted"));
}

#[test]
fn is_idempotent() {
    // Canonical text must be a fixed point, or re-canonicalising to resolve an offset
    // would produce a different string from the one the offsets refer to.
    let once = canon("a  b\u{ad}c\x0c\n\n\nd-\ne");
    assert_eq!(canon(&once), once);
}

#[test]
fn windows_line_endings_and_lone_carriage_returns_become_newlines() {
    assert_eq!(canon("one\r\ntwo\rthree"), "one\ntwo\nthree");
}

#[test]
fn non_breaking_spaces_become_ordinary_spaces() {
    assert_eq!(canon("DS\u{a0}2291 and\u{202f}more"), "DS 2291 and more");
}

#[test]
fn a_hyphen_after_a_digit_does_not_join_the_next_line() {
    assert_eq!(canon("batch 2291-\nnext"), "batch 2291-\nnext");
}

#[test]
fn leading_and_trailing_blank_lines_are_dropped() {
    assert_eq!(canon("\n\n  x  \n\n"), "x");
    assert_eq!(canon(""), "");
    assert_eq!(canon("   \n \t\n"), "");
}

#[test]
fn whitespace_classification_agrees_with_std_for_every_char() {
    for v in 0u32..=0x10ffff {
        if let Some(c) = char::from_u32(v) {
            assert_eq!(char_is_whitespace(c), c.is_whitespace(), "U+{v:04X}");
        }
    }
}

#[test]
fn compatibility_forms_are_normalised() {
    assert_eq!(canon("\u{fb01}le \u{ff24}\u{ff33}-2291"), "file DS-2291");
}

#[test]
fn no_alphabetic_char_is_whitespace_and_the_hyphen_is_not_lowercase() {
    for v in 0u32..=0x10FFFF {
        if let Some(c) = char::from_u32(v) {
            assert!(!(c.is_alphabetic() && c.is_whitespace()), "{v:#x}");
        }
    }
    assert!(!'-'.is_lowercase());
}

#[test]
fn canonical_text_is_a_fixed_point_across_hyphen_runs_and_blank_lines() {
    for raw in [
        "ab-\nc-\nDef",
        "x  a-\n   \nb",
        "on-\n  going  and  re-\nturning\n\n\n\nend-\n-start",
        "e\u{2010}\nmail \u{a0} x\r\ny",
    ] {
        let once = canon(raw);
        assert_eq!(canon(&once), once, "{raw:?}");
    }
}

#[test]
fn a_soft_hyphen_before_a_combining_mark_composes_on_a_second_pass() {
    // NFKC leaves the soft hyphen between the letter and the accent; removing it brings
    // them together, and only the next pass composes them.
    let once = canon("e\u{ad}\u{301}");
    assert_eq!(once, "e\u{301}");
    assert_eq!(canon(&once), "\u{e9}");
}

#[test]
fn a_rejoined_word_loses_the_next_line_indent() {
    assert_eq!(canon("regen-\n  erated"), "regenerated");
    assert_eq!(canon("the column was regen-\n\terated today"), "the column was regenerated today");
}

#[test]
fn a_compatibility_form_of_the_quote_marker_is_stripped_in_one_pass() {
    let cfg = Config::default();
    let once = canonicalise("hi\n\u{FF1E} q", SourceKind::Email, &cfg);
    assert_eq!(once, "hi");
    assert_eq!(canonicalise(&once, SourceKind::Email, &cfg), once);
}

#[test]
fn collapsing_keeps_the_word_lines_with_one_blank_line_where_blank_lines_lay() {
    assert_eq!(canon("  a \t b  \n\n \n  c\nd  "), "a b\n\nc\nd");
}
