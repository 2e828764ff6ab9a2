use keyword_extraction_pipeline::language::{detect, language_of, LanguageCode};

fn confidence(text: &str, code: &str) -> f64 {
    let detector = lingua::LanguageDetectorBuilder::from_all_languages().build();
    let lang = match code {
        "en" => lingua::Language::English,
        "fr" => lingua::Language::French,
        other => panic!("no confidence helper for {other}"),
    };
    detector.compute_language_confidence(text, lang)
}

#[test]
fn identifies_english_as_fully_supported() {
    let text = "The column was regenerated according to the standard operating \
                procedure and the batch was released after review.";
    let lang = detect(text).expect("english should be detected");
    let conf = confidence(text, &lang.code);
    assert_eq!(lang.code, "en");
    assert!(lang.fully_supported);
    assert!(conf > 0.5, "confidence was {conf}");
}

#[test]
fn marks_non_english_as_degraded_rather_than_failing() {
    let text = "La colonne a été régénérée conformément à la procédure standard \
                et le lot a été libéré après examen par le responsable qualité.";
    let lang = detect(text).expect("french should be detected");
    assert_eq!(lang.code, "fr");
    assert!(
        !lang.fully_supported,
        "non-English must be recorded as degraded, not silently treated as English"
    );
}

#[test]
fn short_text_is_undetermined_rather_than_guessed() {
    assert_eq!(detect("DS-2291"), None);
}

#[test]
fn is_deterministic() {
    let text = "The chromatography step achieved the expected yield in every run.";
    assert_eq!(detect(text), detect(text));
}

#[test]
fn thirty_nine_chars_are_too_few_and_forty_are_enough_to_judge() {
    let short: String = "a".repeat(39);
    assert_eq!(detect(&short), None);
    let text = "The chromatography step achieved the yie";
    assert_eq!(text.chars().count(), 40);
    assert!(detect(text).is_some());
}

#[test]
fn the_recorded_language_follows_what_the_detector_returned() {
    assert_eq!(language_of(39, Some(LanguageCode::English)), None);
    let en = language_of(40, Some(LanguageCode::English)).unwrap();
    assert_eq!(en.code, "en");
    assert!(en.fully_supported);
    let fr = language_of(400, Some(LanguageCode::French)).unwrap();
    assert_eq!(fr.code, "fr");
    assert!(!fr.fully_supported);
    assert_eq!(language_of(400, None), None);
}
