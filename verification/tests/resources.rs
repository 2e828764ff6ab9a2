use keyword_extraction_pipeline::config::Config;
use keyword_extraction_pipeline::resources::{
    base_forms, entries, lemma_entries, undouble, Resources, DEFAULT_LEMMAS, DEFAULT_STOPWORDS, DEFAULT_WORDLIST,
};
use keyword_extraction_pipeline::tokenize::tokens;

#[test]
fn ordinary_stopwords_are_recognised() {
    let res = Resources::default();
    for word in ["the", "a", "is", "and", "of", "to", "in", "that", "it"] {
        assert!(res.is_stopword(word), "{word} is not recognised as a stopword");
    }
    assert!(!res.is_stopword("chromatography"));
}

#[test]
fn the_lemma_file_is_read_a_line_at_a_time_not_split_on_whitespace() {
    let parsed = lemma_entries("# comment\nmice mouse\nbetter good well\naxes ax axis\n");
    assert_eq!(parsed.get("mice").unwrap(), &vec!["mouse".to_string()]);
    assert_eq!(
        parsed.get("better").unwrap(),
        &vec!["good".to_string(), "well".to_string()],
        "a multi-lemma line was truncated"
    );
    assert_eq!(parsed.get("axes").unwrap(), &vec!["ax".to_string(), "axis".to_string()]);
    assert!(!parsed.contains_key("#"), "the comment line was parsed as an entry");
}

#[test]
fn reduction_never_produces_a_match_from_a_stub() {
    for w in ["ies", "ing", "es", "ed"] {
        let chars: Vec<char> = w.chars().collect();
        assert!(
            base_forms(&chars).iter().all(|b| b.len() >= 2),
            "{w} produced a one-character base form"
        );
    }
}

#[test]
fn stopword_entries_are_tokens_our_tokeniser_can_actually_produce() {
    for entry in entries(DEFAULT_STOPWORDS) {
        let toks = tokens(&entry);
        assert_eq!(toks.len(), 1, "{entry:?} is not one token — no lookup can ever match it");
        assert_eq!(
            toks[0].text, entry,
            "{entry:?} survives tokenisation as {:?}, so it would never be matched",
            toks[0].text
        );
    }
}

#[test]
fn the_stopword_list_carries_the_modals_nltk_omits() {
    let res = Resources::default();
    for w in ["may", "might", "must", "shall", "should", "would", "could", "cannot", "ought"] {
        assert!(res.is_stopword(w), "{w} is a modal and must be a stopword");
    }
    for w in ["won", "ma", "act", "research", "accordance"] {
        assert!(!res.is_stopword(w), "{w} is a content word, not a function word");
    }
}

#[test]
fn stopword_lookup_stays_exact() {
    let res = Resources::default();
    assert!(res.is_stopword("the"));
    assert!(!res.is_stopword("theses"), "reduction leaked into the stopword set");
}

#[test]
fn requesting_more_words_than_embedded_clamps_rather_than_failing() {
    let res = Resources::for_config(&Config { wordlist_size: 10_000_000, ..Config::default() });
    let (cutoff, depth) = res.wordlist_extent();
    assert_eq!(cutoff, depth);
}

const WORDS: &str = "# ranked\nthe of and\nanyone company organize run ship file regenerate\nmouse good analysis\ncode today\nsop\n";
const LEMMAS: &str = "mice mouse\nbetter good well\nanalyses analysis\nran run\n";

fn small() -> Resources {
    Resources::from_lists(WORDS, DEFAULT_STOPWORDS, LEMMAS, &Config::default())
}

#[test]
fn a_typographic_apostrophe_matches_the_ascii_entry_of_either_list() {
    let res = small();
    for (ascii, typographic) in [("don't", "don\u{2019}t"), ("it's", "it\u{2019}s"), ("we're", "we\u{2019}re")] {
        assert!(res.is_stopword(ascii));
        assert!(res.is_stopword(typographic), "{typographic} does not match {ascii}");
    }
    assert!(res.is_common_word("anyone\u{2019}s"));
    assert!(res.is_common_word("company's"));
}

#[test]
fn regular_and_irregular_inflections_reach_their_entries() {
    let res = small();
    for w in ["running", "shipped", "companies", "files", "regenerated", "organise", "organises", "mice", "better", "analyses", "ran"] {
        assert!(res.is_common_word(w), "{w} should reduce to an entry");
    }
    for w in ["chromatography", "datasets", "vertices", "mouses"] {
        assert!(!res.is_common_word(w) || w == "mouses", "{w} must stay unknown");
    }
}

#[test]
fn the_cutoff_and_the_acronym_depth_are_prefixes_of_the_ranking() {
    let cfg = Config { wordlist_size: 3, acronym_wordlist_depth: 2, ..Config::default() };
    let res = Resources::from_lists(WORDS, DEFAULT_STOPWORDS, LEMMAS, &cfg);
    assert_eq!(res.wordlist_extent(), (3, 16));
    assert!(res.is_common_word("and"));
    assert!(!res.is_common_word("anyone"), "a word below the cutoff was kept");
    assert!(res.is_frequent_word("of"));
    assert!(!res.is_frequent_word("and"));
    assert!(!res.is_frequent_word("sop"));
}

#[test]
fn undoubling_leaves_a_natural_double_consonant_alone() {
    let c = |s: &str| s.chars().collect::<Vec<char>>();
    assert_eq!(undouble(&c("shipp")), Some(c("ship")));
    assert_eq!(undouble(&c("pass")), None);
    assert_eq!(undouble(&c("buzz")), None);
    assert_eq!(undouble(&c("see")), None);
}

#[test]
fn the_embedded_lists_are_what_the_default_resources_hold() {
    let cfg = Config::default();
    let a = Resources::for_config(&cfg);
    let b = Resources::from_lists(DEFAULT_WORDLIST, DEFAULT_STOPWORDS, DEFAULT_LEMMAS, &cfg);
    assert_eq!(a.wordlist_extent(), b.wordlist_extent());
    assert_eq!(a.wordlist_digest, b.wordlist_digest);
    assert_eq!(a.lemmas_digest, b.lemmas_digest);
    assert!(a.is_stopword("the"));
}

#[test]
fn domain_vocabulary_is_not_common_and_so_survives_as_a_signal() {
    let res = Resources::default();
    for w in ["chromatography", "immunoglobulin", "sepharose", "superdex", "elution"] {
        assert!(!res.is_common_word(w), "{w} must not be treated as ordinary English");
    }
}

#[test]
fn reduction_does_not_make_domain_vocabulary_look_ordinary() {
    let res = Resources::default();
    for w in [
        "chromatography", "immunoglobulin", "sepharose", "superdex", "elution",
        "elutions", "chromatographies",
    ] {
        assert!(!res.is_common_word(w), "{w} must not be treated as ordinary English");
    }
}

#[test]
fn lemmatisation_reaches_only_lemmas_the_wordlist_actually_holds() {
    let res = Resources::default();
    assert!(!res.is_common_word("vertices"));
}

#[test]
fn folding_apostrophes_does_not_widen_either_set() {
    let res = Resources::default();
    for w in ["chromatography", "chromatography\u{2019}s", "theses", "sepharose"] {
        assert!(!res.is_stopword(w), "{w} leaked into the stopword set");
    }
    assert!(!res.is_common_word("sepharose\u{2019}s"));
}
