use keyword_extraction_pipeline::canonicalise;
use keyword_extraction_pipeline::config::Config;
use keyword_extraction_pipeline::error::ExtractError;
use keyword_extraction_pipeline::parse::{extractor_for, parse, Extractor, SourceKind};
use keyword_extraction_pipeline::pipeline::{dense_ranks, prepare, status_for_error};
use keyword_extraction_pipeline::resources::Resources;
use keyword_extraction_pipeline::types::{DocumentStatus, FormatHint, Kind};
use keyword_extraction_pipeline::version::PipelineVersion;

#[test]
fn ranks_are_dense_and_scoped_to_each_kind() {
    let kinds = vec![
        Kind::Identifier,
        Kind::Identifier,
        Kind::Technical,
        Kind::Topical,
        Kind::Technical,
        Kind::Identifier,
    ];
    assert_eq!(dense_ranks(&kinds), vec![0, 1, 0, 0, 1, 2]);
    assert!(dense_ranks(&vec![]).is_empty());
}

#[test]
fn a_plain_text_document_is_prepared_with_its_canonical_text_and_digests() {
    let cfg = Config::default();
    let res = Resources::default();
    let bytes = b"Batch  DS-2291 was regen-\nerated.";
    let d = prepare(bytes, FormatHint::Sniff, &cfg, &res);
    assert_eq!(d.status, DocumentStatus::Success);
    assert_eq!(d.pipeline_version, PipelineVersion::compute(&cfg, &res));
    assert_eq!(d.hash_exact, *blake3::hash(bytes).as_bytes());
    let (text, source) = d.ready.expect("ready");
    assert_eq!(text, "Batch DS-2291 was regenerated.");
    assert_eq!(source, SourceKind::Plain);
    assert_eq!(d.own_content_length, text.chars().count());
    assert_eq!(d.hash_canonical, Some(*blake3::hash(text.as_bytes()).as_bytes()));
}

#[test]
fn text_below_the_minimum_length_is_too_short_but_keeps_its_digest() {
    let cfg = Config { min_content_length: 100, ..Config::default() };
    let d = prepare(b"  short  ", FormatHint::PlainText, &cfg, &Resources::default());
    assert_eq!(d.status, DocumentStatus::TooShort);
    assert_eq!(d.own_content_length, 5);
    assert_eq!(d.hash_canonical, Some(*blake3::hash(b"short").as_bytes()));
    assert!(d.ready.is_none());
}

#[test]
fn an_unreadable_document_is_a_status_not_an_error() {
    let d = prepare(b"PK\x03\x04 broken", FormatHint::Docx, &Config::default(), &Resources::default());
    match &d.status {
        DocumentStatus::ParseError(m) => assert!(m.starts_with("parse failure: zip: "), "{m}"),
        other => panic!("unexpected status {other:?}"),
    }
    assert!(d.hash_canonical.is_none() && d.ready.is_none() && d.own_content_length == 0);
    let d = prepare(b"%PDF-1.7 truncated", FormatHint::Sniff, &Config::default(), &Resources::default());
    assert!(!d.status.is_ok(), "{:?}", d.status);
}

#[test]
fn statuses_follow_the_error() {
    assert_eq!(status_for_error(&ExtractError::Encrypted), DocumentStatus::Encrypted);
    assert_eq!(
        status_for_error(&ExtractError::UnsupportedFormat("x".into())),
        DocumentStatus::UnsupportedFormat
    );
    assert_eq!(
        status_for_error(&ExtractError::Parse("bad".into())),
        DocumentStatus::ParseError("parse failure: bad".into())
    );
    assert_eq!(
        status_for_error(&ExtractError::Resource("gone".into())),
        DocumentStatus::ParseError("resource override could not be loaded: gone".into())
    );
}

#[test]
fn sniff_is_not_a_format_and_csv_is_a_tabular_source() {
    match extractor_for(FormatHint::Sniff) {
        Err(ExtractError::UnsupportedFormat(m)) => assert_eq!(m, "unresolved"),
        _ => panic!("sniff resolved to a backend"),
    }
    assert!(matches!(extractor_for(FormatHint::Csv), Ok(Extractor::Csv(_))));
    assert!(matches!(extractor_for(FormatHint::Markdown), Ok(Extractor::Plain(_))));
    let raw = parse(b"a,b\n1,2\n", FormatHint::Csv, &Config::default()).unwrap();
    assert_eq!(raw.text, "a,b\n1,2\n");
    assert_eq!(raw.source, SourceKind::Csv);
    assert!(raw.source.is_inherently_tabular());
    assert_eq!(raw.text_layer_present, None);
}

#[test]
fn a_csv_is_refused_by_the_prose_heuristic_on_its_format() {
    let raw = parse(b"Batch,Cell\nDS-2291,HEK293T\n", FormatHint::Csv, &Config::default()).unwrap();
    assert!(raw.source.is_inherently_tabular());
}

#[test]
fn canonicalise_reproduces_the_text_the_offsets_refer_to() {
    let bytes = b"Released under  Standard Operating Procedure (SOP) today.\r\n";
    let text = canonicalise(bytes, FormatHint::Sniff, &Config::default()).unwrap();
    assert_eq!(text, "Released under Standard Operating Procedure (SOP) today.");
    assert_eq!(canonicalise(bytes, FormatHint::Sniff, &Config::default()).unwrap(), text);
}
