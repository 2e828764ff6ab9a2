use std::io::Write;

use keyword_extraction_pipeline::config::Config;
use keyword_extraction_pipeline::parse::office::{cell_text, text_from_ooxml, workbook_text, Cell};
use keyword_extraction_pipeline::parse::{sniff, DocxExtractor, PptxExtractor, SourceKind, TextExtractor};
use keyword_extraction_pipeline::types::FormatHint;

#[test]
fn extracts_runs_and_paragraph_breaks() {
    let xml = r#"<w:document xmlns:w="x"><w:body>
        <w:p><w:r><w:t>Batch </w:t></w:r><w:r><w:t>DS-2291</w:t></w:r></w:p>
        <w:p><w:r><w:t>Second line</w:t></w:r></w:p>
    </w:body></w:document>"#;
    let out = text_from_ooxml(xml, "t", "p").unwrap();
    assert!(out.contains("Batch DS-2291"), "runs must join without a gap: {out:?}");
    assert!(out.contains('\n'), "paragraphs must break: {out:?}");
}

#[test]
fn ignores_namespace_prefix_differences() {
    let xml = r#"<document xmlns="x"><p><r><t>Capto S</t></r></p></document>"#;
    assert!(text_from_ooxml(xml, "t", "p").unwrap().contains("Capto S"));
}

#[test]
fn numeric_cells_are_dropped_but_strings_kept() {
    assert_eq!(cell_text(&Cell::Float), None);
    assert_eq!(cell_text(&Cell::String("DS-2291".into())), Some("DS-2291".into()));
    assert_eq!(cell_text(&Cell::String("   ".into())), None);
}

#[test]
fn run_text_outside_a_run_element_is_ignored_and_each_paragraph_ends_a_line() {
    let xml = "<p>stray<t>kept</t></p><p><t>next</t></p>";
    assert_eq!(text_from_ooxml(xml, "t", "p").unwrap(), "kept\nnext\n");
}

#[test]
fn malformed_xml_is_a_parse_error() {
    let out = text_from_ooxml("<p><t>open</p>", "t", "p");
    assert!(out.is_err(), "{out:?}");
}

#[test]
fn cells_are_trimmed_dates_kept_and_rows_joined_by_tabs() {
    assert_eq!(cell_text(&Cell::String("  HEK293T ".into())), Some("HEK293T".into()));
    assert_eq!(cell_text(&Cell::DateTimeIso("2024-03-11".into())), Some("2024-03-11".into()));
    assert_eq!(cell_text(&Cell::Int), None);
    assert_eq!(cell_text(&Cell::Empty), None);
    let sheets = vec![
        (
            "Batches".to_string(),
            Some(vec![
                vec![Cell::String("Code".into()), Cell::Float, Cell::String("Line".into())],
                vec![Cell::Int, Cell::Empty],
                vec![Cell::String("DS-2291".into()), Cell::String("HEK293T".into())],
            ]),
        ),
        ("Broken".to_string(), None),
    ];
    assert_eq!(workbook_text(&sheets), "Batches\nCode\tLine\nDS-2291\tHEK293T\n");
}

#[test]
fn a_container_that_is_not_a_zip_fails_to_parse() {
    let cfg = Config::default();
    assert!(DocxExtractor.extract(b"PK\x03\x04 not really", &cfg).is_err());
    assert!(PptxExtractor.extract(b"plain words", &cfg).is_err());
    assert_eq!(sniff(b"PK\x03\x04 not really"), FormatHint::PlainText);
    assert_eq!(SourceKind::Spreadsheet.is_inherently_tabular(), true);
}

fn container(entries: &[(&str, &str)]) -> Vec<u8> {
    let mut w = zip::ZipWriter::new(std::io::Cursor::new(Vec::new()));
    for (name, body) in entries {
        w.start_file(*name, zip::write::SimpleFileOptions::default()).unwrap();
        w.write_all(body.as_bytes()).unwrap();
    }
    w.finish().unwrap().into_inner()
}

#[test]
fn slides_are_read_in_name_order_whatever_the_container_order() {
    let bytes = container(&[
        ("[Content_Types].xml", "<Types/>"),
        ("ppt/slides/slide2.xml", "<p:sld><a:p><a:r><a:t>Second slide</a:t></a:r></a:p></p:sld>"),
        ("ppt/slides/slide1.xml", "<p:sld><a:p><a:r><a:t>First slide</a:t></a:r></a:p></p:sld>"),
        ("ppt/slides/_rels/slide1.xml.rels", "<Relationships/>"),
        ("ppt/notes.xml", "<a:t>not a slide</a:t>"),
    ]);
    assert_eq!(sniff(&bytes), FormatHint::Pptx);
    let raw = PptxExtractor.extract(&bytes, &Config::default()).unwrap();
    assert_eq!(raw.text, "First slide\n\nSecond slide\n\n");
    assert_eq!(raw.source, SourceKind::Presentation);
}

#[test]
fn a_word_document_reads_its_body_part_only() {
    let bytes = container(&[
        ("word/styles.xml", "<w:styles><w:t>style text</w:t></w:styles>"),
        (
            "word/document.xml",
            "<w:document><w:body><w:p><w:r><w:t>Batch </w:t></w:r><w:r><w:t>DS-2291</w:t></w:r></w:p></w:body></w:document>",
        ),
    ]);
    assert_eq!(sniff(&bytes), FormatHint::Docx);
    let raw = DocxExtractor.extract(&bytes, &Config::default()).unwrap();
    assert_eq!(raw.text, "Batch DS-2291\n");
    assert_eq!(raw.source, SourceKind::WordProcessing);
}

#[test]
fn a_word_document_with_malformed_xml_is_a_parse_error() {
    let bytes = container(&[("word/document.xml", "<w:p><w:t>open</w:p>")]);
    assert!(DocxExtractor.extract(&bytes, &Config::default()).is_err());
}
