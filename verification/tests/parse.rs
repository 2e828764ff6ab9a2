use keyword_extraction_pipeline::parse::plain::decode;
use keyword_extraction_pipeline::parse::{sniff, SourceKind};
use keyword_extraction_pipeline::types::FormatHint;

#[test]
fn sniffs_pdf_by_magic() {
    assert_eq!(sniff(b"%PDF-1.7\n..."), FormatHint::Pdf);
}

#[test]
fn sniffs_email_by_headers() {
    let raw = b"From: a@example.com\r\nSubject: Batch DS-2291\r\n\r\nBody text.";
    assert_eq!(sniff(raw), FormatHint::Email);
}

#[test]
fn a_single_header_like_line_is_not_an_email() {
    // Prose can open with something that looks like a header; two markers are needed.
    assert_eq!(sniff(b"Subject: the meeting\n\nand then a lot of prose."), FormatHint::PlainText);
}

#[test]
fn falls_back_to_plain_text() {
    assert_eq!(sniff(b"just some words"), FormatHint::PlainText);
}

#[test]
fn handles_empty_input_without_panicking() {
    assert_eq!(sniff(b""), FormatHint::PlainText);
}

#[test]
fn strips_utf8_bom() {
    assert_eq!(decode(b"\xEF\xBB\xBFhello"), "hello");
}

#[test]
fn falls_back_to_latin1_rather_than_failing() {
    // 0xE9 is invalid UTF-8 but valid Latin-1 'é'.
    assert_eq!(decode(b"caf\xE9"), "caf\u{e9}");
}

#[test]
fn an_ole_container_is_taken_for_an_outlook_message() {
    assert_eq!(sniff(&[0xD0, 0xCF, 0x11, 0xE0, 0xA1, 0xB1, 0x1A, 0xE1, 0, 0]), FormatHint::Email);
}

#[test]
fn headers_are_matched_without_regard_to_case() {
    assert_eq!(sniff(b"FROM: a@example.com\nDATE: today\n\nhello"), FormatHint::Email);
}

#[test]
fn only_spreadsheets_are_inherently_tabular() {
    assert!(SourceKind::Spreadsheet.is_inherently_tabular());
    assert!(!SourceKind::Plain.is_inherently_tabular());
    assert!(SourceKind::Csv.is_inherently_tabular());
    assert!(!SourceKind::Presentation.is_inherently_tabular());
}
