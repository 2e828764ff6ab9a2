//! The small vocabulary types every stage and every consumer shares.

use vstd::prelude::*;

verus! {

/// Which parser to use. Callers that know the format should say so; `Sniff` falls back
/// to content inspection.
#[derive(Debug, Clone, Copy, PartialEq, Eq, Hash, Structural)]
pub enum FormatHint {
    Sniff,
    Pdf,
    Docx,
    Pptx,
    Xlsx,
    Csv,
    Email,
    PlainText,
    Markdown,
}

/// What kind of thing a keyword is.
///
/// Scores are comparable *within* a kind and meaningless across kinds. Consumers wanting
/// a single list interleave by quota rather than by score.
#[derive(Debug, Clone, Copy, PartialEq, Eq, Hash, Structural)]
pub enum Kind {
    /// Digit-bearing or coded tokens: `DS-2291`, `HEK293T`, `SOP-114`.
    Identifier,
    /// Forms absent from the general English wordlist: `MabSelect SuRe`, `chromatography`.
    Technical,
    /// Topical keyphrases made of ordinary words: `column regeneration`.
    Topical,
}

/// Which stage produced a keyword. Affects where it ranks, never whether it exists.
#[derive(Debug, Clone, Copy, PartialEq, Eq, Hash, Structural)]
pub enum Origin {
    /// Stage 1 — shape features and wordlist absence.
    Shape,
    /// Stage 2 — Schwartz–Hearst definitional context.
    Definition,
    /// Stage 3 — YAKE statistical keyphrase extraction.
    Statistic,
}

/// A kind's position in the fixed order Identifier, Technical, Topical.
pub open spec fn kind_order(k: Kind) -> int {
    match k {
        Kind::Identifier => 0,
        Kind::Technical => 1,
        Kind::Topical => 2,
    }
}

impl Kind {
    /// The kind's position in the fixed order Identifier, Technical, Topical.
    pub fn index(&self) -> (r: usize)
        ensures
            r == kind_order(*self),
    {
        match self {
            Kind::Identifier => 0,
            Kind::Technical => 1,
            Kind::Topical => 2,
        }
    }
}

/// Why a document produced the keywords it did — including none.
///
/// `NoTextLayer` is load-bearing. A scanned PDF parses successfully and yields nothing,
/// and an empty keyword list would be indistinguishable from a document with nothing
/// distinctive in it.
#[derive(Debug, Clone, PartialEq, Eq)]
pub enum DocumentStatus {
    /// Extraction ran; the keywords are meaningful.
    Success,
    /// Parsed cleanly but has no meaningful text layer — almost always a scanned PDF.
    NoTextLayer,
    Encrypted,
    UnsupportedFormat,
    ParseError(String),
    /// Below the configured minimum length for extraction to mean anything.
    TooShort,
}

impl DocumentStatus {
    /// Whether keywords are expected to be present and meaningful.
    pub fn is_ok(&self) -> (r: bool)
        ensures
            r == (*self is Success),
    {
        match self {
            DocumentStatus::Success => true,
            _ => false,
        }
    }
}

/// A detected language and whether the full stage set runs for it.
#[derive(Debug, Clone, PartialEq, Eq)]
pub struct Language {
    pub code: String,
    /// True when the full stage set ran. Non-English documents degrade to Stage 1 only.
    pub fully_supported: bool,
}

} // verus!
