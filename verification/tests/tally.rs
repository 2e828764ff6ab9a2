use keyword_extraction_pipeline::tally::{exit_status, Tally};
use keyword_extraction_pipeline::types::DocumentStatus;

#[test]
fn the_trailer_lists_only_the_statuses_that_occurred() {
    let mut t = Tally::default();
    assert_eq!(t.summary(), "kep 0 documents: nothing to do");
    t.count(&DocumentStatus::Success);
    assert_eq!(t.summary(), "kep 1 document: 1 ok");
    for _ in 0..11 {
        t.count(&DocumentStatus::Success);
    }
    t.count(&DocumentStatus::Encrypted);
    t.count(&DocumentStatus::ParseError("x".to_string()));
    t.unreadable += 1;
    assert_eq!(t.summary(), "kep 15 documents: 12 ok, 1 encrypted, 1 parse-error, 1 unreadable");
}

#[test]
fn an_unreadable_file_fails_the_run_and_strictness_fails_on_any_other_status() {
    let mut t = Tally::default();
    t.count(&DocumentStatus::Success);
    t.count(&DocumentStatus::TooShort);
    assert_eq!(exit_status(&t, false, 2), 0);
    assert_eq!(exit_status(&t, true, 2), 2);
    t.unreadable += 1;
    assert_eq!(exit_status(&t, true, 3), 1);
    let mut all_ok = Tally::default();
    all_ok.count(&DocumentStatus::Success);
    assert_eq!(exit_status(&all_ok, true, 1), 0);
}
