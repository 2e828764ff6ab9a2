use keyword_extraction_pipeline::config::Config;
use keyword_extraction_pipeline::resources::Resources;
use keyword_extraction_pipeline::stages::shape::shape_candidates;
use keyword_extraction_pipeline::stages::topical::{term_stats, topical_candidates};
use keyword_extraction_pipeline::types::Kind;

const DOC: &str = "Column regeneration and resin lifetime.\n\
    The regeneration of a chromatography column is a routine but consequential \
    operation, and the sequence in which it is performed determines how much of the \
    resin capacity survives into the next cycle. Where a run has been interrupted, the \
    whole regeneration sequence should be restarted rather than resumed, since a partial \
    regeneration leaves the resin bed in a state that no later step corrects.";

#[test]
fn topical_candidates_never_hold_a_stopword_and_respect_the_ngram_limit() {
    let res = Resources::default();
    let cfg = Config::default();
    let out = topical_candidates(DOC, &cfg, &res);
    assert!(!out.is_empty());
    for c in &out {
        assert!(!c.terms.is_empty() && c.terms.len() <= cfg.yake_ngram_max, "{c:?}");
        for t in &c.terms {
            assert!(!res.is_stopword(t), "stopword {t} inside {c:?}");
        }
    }
}

#[test]
fn topical_every_candidate_offset_resolves_to_its_lowercase_form() {
    let res = Resources::default();
    for c in topical_candidates(DOC, &Config::default(), &res) {
        for span in &c.offsets {
            assert_eq!(DOC[span.clone()].to_lowercase(), c.normalised, "{c:?}");
        }
    }
}

#[test]
fn topical_phrases_do_not_cross_punctuation_or_a_line_break() {
    let res = Resources::default();
    let out: Vec<String> =
        topical_candidates(DOC, &Config::default(), &res).into_iter().map(|c| c.normalised).collect();
    assert!(!out.iter().any(|s| s == "resumed since"), "{out:?}");
    assert!(!out.iter().any(|s| s.contains("lifetime the")), "{out:?}");
    let out: Vec<String> = topical_candidates(
        "Column regeneration\nResin lifetime report follows here now.",
        &Config::default(),
        &res,
    )
    .into_iter()
    .map(|c| c.normalised)
    .collect();
    assert!(!out.iter().any(|s| s.contains("regeneration resin")), "{out:?}");
    assert!(out.contains(&"column regeneration".to_string()), "{out:?}");
}

#[test]
fn a_zero_ngram_limit_still_allows_single_words() {
    let res = Resources::default();
    let cfg = Config { yake_ngram_max: 0, ..Config::default() };
    let out = topical_candidates("Resin lifetime matters.", &cfg, &res);
    let forms: Vec<String> = out.iter().map(|c| c.normalised.clone()).collect();
    assert_eq!(forms, vec!["resin", "lifetime", "matters"]);
}

#[test]
fn term_statistics_count_occurrences_case_and_neighbours() {
    let res = Resources::default();
    let stats = term_stats("Resin beds age. The resin ages. RESIN is costly.", &res);
    let resin = stats
        .iter()
        .find(|t| t.term.iter().collect::<String>() == "resin")
        .expect("resin missing");
    assert_eq!(resin.frequency, 3);
    assert_eq!(resin.uppercase, 0, "sentence-initial capitals do not count: {resin:?}");
    assert_eq!(resin.acronym, 1);
    assert_eq!(resin.positions, vec![0, 1, 2]);
    assert_eq!(resin.sentences, vec![0, 1, 2]);
    let rights: Vec<String> = resin.right.iter().map(|w| w.iter().collect()).collect();
    assert_eq!(rights, vec!["beds", "ages", "is"]);
    let lefts: Vec<String> = resin.left.iter().map(|w| w.iter().collect()).collect();
    assert_eq!(lefts, vec!["the"]);
    assert!(stats.iter().all(|t| t.term.iter().collect::<String>() != "the"));
}

#[test]
fn term_statistics_of_nothing_are_empty() {
    let res = Resources::default();
    assert!(term_stats("", &res).is_empty());
    assert!(term_stats("the the the", &res).is_empty());
    assert!(topical_candidates("a a a a a", &Config::default(), &res).is_empty());
}

#[test]
fn shape_candidates_offsets_resolve_and_case_variants_are_one_candidate() {
    let res = Resources::default();
    let text = "Chromatography was used. The chromatography step ran with chromatography.";
    let out = shape_candidates(text, &res);
    let chrom: Vec<_> = out.iter().filter(|c| c.normalised == "chromatography").collect();
    assert_eq!(chrom.len(), 1, "{out:?}");
    assert_eq!(chrom[0].offsets.len(), 3);
    assert_eq!(chrom[0].surface, "Chromatography");
    for c in &out {
        for span in &c.offsets {
            assert_eq!(text[span.clone()].to_lowercase(), c.normalised);
        }
    }
}

#[test]
fn shape_candidates_classify_codes_and_merge_product_names_on_one_line_only() {
    let res = Resources::default();
    let text = "Batch DS-2291 was purified on the MabSelect SuRe column.";
    let out = shape_candidates(text, &res);
    let ds = out.iter().find(|c| c.surface == "DS-2291").expect("DS-2291 missing");
    assert_eq!(ds.kind, Kind::Identifier);
    assert_eq!(ds.evidence.separator_segments, 2);
    let name = out.iter().find(|c| c.surface == "MabSelect SuRe").expect("phrase missing");
    assert_eq!(name.kind, Kind::Technical);
    assert_eq!(&text[name.offsets[0].clone()], "MabSelect SuRe");
    let split = shape_candidates("MabSelect\nSuRe column", &res);
    assert!(!split.iter().any(|c| c.surface.contains(' ')), "{split:?}");
    let run = shape_candidates("Samples DS-2291 DS-2292 DS-2293 were shipped.", &res);
    assert!(!run.iter().any(|c| c.surface.contains("DS-2291 DS-2292")), "{run:?}");
    let nums = shape_candidates("Yield was 91.4 and 2291 units over 3 runs", &res);
    assert!(!nums.iter().any(|c| c.surface == "2291" || c.surface == "91.4"), "{nums:?}");
}

#[test]
fn a_merged_name_never_runs_across_punctuation_and_its_offsets_are_its_text() {
    let res = Resources::default();
    let text = "Columns: MabSelect, SuRe and MabSelect SuRe again.";
    let out = shape_candidates(text, &res);
    let names: Vec<_> = out.iter().filter(|c| c.surface.contains(' ')).collect();
    assert_eq!(names.len(), 1, "{out:?}");
    assert_eq!(names[0].offsets.len(), 1);
    assert_eq!(&text[names[0].offsets[0].clone()], "MabSelect SuRe");
    for c in &out {
        for span in &c.offsets {
            assert_eq!(text[span.clone()].to_lowercase(), c.normalised);
        }
    }
}
