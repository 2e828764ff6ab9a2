use keyword_extraction_pipeline::render::{csv_header, quote, truncate, Format, KindArg, View};
use keyword_extraction_pipeline::types::Kind;

#[test]
fn truncation_keeps_the_column_width() {
    assert_eq!(truncate("short", 10), "short");
    assert_eq!(truncate("aaaaaaaaaaaa", 5).chars().count(), 5);
}

#[test]
fn a_wrapped_surface_does_not_tear_the_table_in_half() {
    assert_eq!(truncate("liquid\nchromatography", 40), "liquid chromatography");
}

#[test]
fn csv_quoting_survives_a_surface_containing_a_comma() {
    assert_eq!(quote("a,b"), "\"a,b\"");
    assert_eq!(quote("say \"hi\""), "\"say \"\"hi\"\"\"");
    assert_eq!(quote("plain"), "plain");
}

#[test]
fn truncation_ends_in_an_ellipsis_after_width_minus_one_chars() {
    assert_eq!(truncate("chromatography", 6), "chrom\u{2026}");
    assert_eq!(truncate("  a   b  ", 10), "a b");
}

#[test]
fn a_newline_forces_quoting() {
    assert_eq!(quote("two\nlines"), "\"two\nlines\"");
}

#[test]
fn the_csv_header_names_every_column() {
    assert_eq!(
        csv_header(),
        "path,status,kind,rank,score,frequency,surface,normalised,origin,expansion"
    );
}

#[test]
fn a_view_filters_kinds_and_caps_the_count() {
    let all = View { kinds: None, top: None };
    assert!(all.wants(Kind::Topical));
    assert_eq!(all.shown(Kind::Identifier, 7), 7);
    let ids = View { kinds: Some([true, false, false]), top: Some(3) };
    assert!(ids.wants(Kind::Identifier));
    assert!(!ids.wants(Kind::Technical));
    assert_eq!(ids.shown(Kind::Identifier, 7), 3);
    assert_eq!(ids.shown(Kind::Identifier, 2), 2);
    assert_eq!(ids.shown(Kind::Technical, 7), 0);
    assert_eq!(Kind::from(KindArg::Technical), Kind::Technical);
    assert_ne!(Format::Csv, Format::Json);
}
