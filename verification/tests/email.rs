use keyword_extraction_pipeline::config::Config;
use keyword_extraction_pipeline::error::ExtractError;
use keyword_extraction_pipeline::parse::email::email_text;
use keyword_extraction_pipeline::parse::{EmailExtractor, SourceKind, TextExtractor};

#[test]
fn takes_subject_and_body_but_not_routing_headers() {
    let raw = b"From: alice@example.com\r\n\
                Message-ID: <ABC123XYZ@mail.example.com>\r\n\
                Subject: Batch DS-2291 release\r\n\
                \r\n\
                The column was regenerated.\r\n";
    let out = EmailExtractor.extract(raw, &Config::default()).unwrap();

    assert!(out.text.contains("DS-2291"));
    assert!(out.text.contains("column was regenerated"));
    assert!(
        !out.text.contains("ABC123XYZ"),
        "message-id is identifier-shaped noise and must not reach the stages: {:?}",
        out.text
    );
    assert_eq!(out.source, SourceKind::Email);
}

#[test]
fn subject_and_bodies_each_end_a_line() {
    let bodies = vec![Some("first".to_string()), None, Some("second".to_string())];
    assert_eq!(email_text(&Some("Re: DS-2291".to_string()), &bodies), "Re: DS-2291\nfirst\nsecond\n");
    assert_eq!(email_text(&None, &vec![]), "");
}

#[test]
fn an_empty_input_is_reported_as_unparseable() {
    match EmailExtractor.extract(b"", &Config::default()) {
        Err(ExtractError::Parse(m)) => assert_eq!(m, "email: unparseable"),
        Ok(raw) => assert!(raw.text.trim().is_empty(), "{raw:?}"),
        Err(other) => panic!("unexpected error {other:?}"),
    }
}
