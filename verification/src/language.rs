//! Deterministic language detection.
//!
//! English is the only language whose full stage set runs. Detection exists so that a
//! non-English document *degrades visibly* — Stage 1 still runs, since shape and
//! identifiers are language-independent, but the result records that the topical stage
//! did not. Silent degradation is the failure this crate is built to avoid.
//!
//! The detector carries a small set of European languages purely to *discriminate*: a
//! single-language detector would report English for every document with full
//! confidence, which is not detection. The set is the one the `lingua` dependency is
//! built with, so adding a language changes the build rather than drifting silently.

use vstd::prelude::*;
use vstd::string::StringExecFns;

use crate::text::chars_of;
use crate::types::Language;

verus! {

/// The languages the detector can tell apart.
#[derive(Debug, Clone, Copy, PartialEq, Eq, Structural)]
pub enum LanguageCode {
    English,
    French,
    German,
    Spanish,
    Italian,
    Dutch,
    Portuguese,
}

/// `LanguageDetectorBuilder::from_all_languages().build().detect_language_of(text)`, the
/// detected `lingua::Language` taken to its `LanguageCode`. Nothing is stated of which
/// language comes back: lingua sums and compares floating-point confidences over a hash
/// map, so on a near tie the answer may differ from one process to the next.
#[verifier::external_body]
fn lingua_detect(text: &str) -> (r: Option<LanguageCode>)
{
    let detector = lingua::LanguageDetectorBuilder::from_all_languages().build();
    detector.detect_language_of(text).map(|l| match l {
        lingua::Language::English => LanguageCode::English,
        lingua::Language::French => LanguageCode::French,
        lingua::Language::German => LanguageCode::German,
        lingua::Language::Spanish => LanguageCode::Spanish,
        lingua::Language::Italian => LanguageCode::Italian,
        lingua::Language::Dutch => LanguageCode::Dutch,
        lingua::Language::Portuguese => LanguageCode::Portuguese,
    })
}

/// Below this many characters, detection is guesswork. A short identifier-dense document
/// is reported as undetermined rather than assigned a language it does not have.
pub const MIN_CHARS_FOR_DETECTION: usize = 40;

/// The ISO 639-1 code of a language.
pub open spec fn spec_code(l: LanguageCode) -> Seq<char> {
    match l {
        LanguageCode::English => "en"@,
        LanguageCode::French => "fr"@,
        LanguageCode::German => "de"@,
        LanguageCode::Spanish => "es"@,
        LanguageCode::Italian => "it"@,
        LanguageCode::Dutch => "nl"@,
        LanguageCode::Portuguese => "pt"@,
    }
}

impl LanguageCode {
    /// The ISO 639-1 code.
    pub fn code(&self) -> (r: &'static str)
        ensures
            r@ == spec_code(*self),
    {
        match self {
            LanguageCode::English => "en",
            LanguageCode::French => "fr",
            LanguageCode::German => "de",
            LanguageCode::Spanish => "es",
            LanguageCode::Italian => "it",
            LanguageCode::Dutch => "nl",
            LanguageCode::Portuguese => "pt",
        }
    }
}

/// The language recorded for a detection: its code, and whether the full stage set runs
/// for it — which it does for English alone.
pub open spec fn language_matches(l: Language, d: LanguageCode) -> bool {
    l.code@ == spec_code(d) && l.fully_supported == (d == LanguageCode::English)
}

/// What a text of `n` chars is recorded as, given what the detector returned for it:
/// nothing below the minimum length or when the detector could not decide, and otherwise
/// the detected language.
pub open spec fn recorded_language(n: nat, d: Option<LanguageCode>, r: Option<Language>) -> bool {
    if n < MIN_CHARS_FOR_DETECTION {
        r is None
    } else {
        match d {
            None => r is None,
            Some(d) => r matches Some(l) && language_matches(l, d),
        }
    }
}

/// The language recorded for a text of `len` chars on which the detector returned `d`.
pub fn language_of(len: usize, d: Option<LanguageCode>) -> (r: Option<Language>)
    ensures
        recorded_language(len as nat, d, r),
{
    if len < MIN_CHARS_FOR_DETECTION {
        return None;
    }
    match d {
        None => None,
        Some(d) => Some(Language { code: String::from_str(d.code()), fully_supported: d == LanguageCode::English }),
    }
}

/// The detected language of a text. `None` for text too short to judge or that the
/// detector cannot decide; the caller treats that as "run Stage 1 only", the same as a
/// confidently non-English result. Text too short to judge is never handed to the
/// detector.
pub fn detect(text: &str) -> (r: Option<Language>)
    ensures
        text@.len() < MIN_CHARS_FOR_DETECTION ==> r is None,
        exists|d: Option<LanguageCode>| recorded_language(text@.len(), d, r),
{
    let n = chars_of(text).len();
    if n < MIN_CHARS_FOR_DETECTION {
        proof {
            assert(recorded_language(text@.len(), None, None));
        }
        return None;
    }
    let d = lingua_detect(text);
    let r = language_of(n, d);
    proof {
        assert(recorded_language(text@.len(), d, r));
    }
    r
}

} // verus!
