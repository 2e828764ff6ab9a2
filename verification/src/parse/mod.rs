//! Format parsing: raw bytes to raw text.
//!
//! The format is identified from magic bytes and content shape, never from a file
//! extension: in a heterogeneous corpus extensions are wrong often enough to matter.
//!
//! OCR is deliberately out of scope. A scanned PDF is reported as
//! [`crate::types::DocumentStatus::NoTextLayer`] rather than silently yielding nothing.

pub mod email;
pub mod office;
pub mod pdf;
pub mod plain;

use vstd::prelude::*;
use vstd::string::StringSliceAdditionalSpecFns;
use vstd::utf8::*;

use crate::types::FormatHint;

pub use email::EmailExtractor;
pub use office::{DocxExtractor, PptxExtractor, XlsxExtractor};
pub use pdf::PdfExtractor;
pub use plain::{CsvExtractor, PlainTextExtractor};

use office::{entry_texts, xlsx_outcome, ooxml_document_text, zip_entries, zip_entry_names, PartSelection};
use email::{parsed_message, spec_email_text};
use pdf::pdf_outcome_given;
use plain::decoded;
use vstd::string::StringExecFns;

use crate::config::Config;
use crate::error::ExtractError;

verus! {

/// What kind of document the text came from. Drives canonicalisation (email needs quote
/// stripping) and the Stage 3 prose heuristic (spreadsheets are never prose).
#[derive(Debug, Clone, Copy, PartialEq, Eq, Structural)]
pub enum SourceKind {
    Pdf,
    WordProcessing,
    Spreadsheet,
    Presentation,
    Email,
    Plain,
    Csv,
}

impl SourceKind {
    /// Formats that are structurally tabular. The prose heuristic rejects these outright
    /// rather than relying on a threshold that a wide enough sheet could sneak past.
    pub fn is_inherently_tabular(&self) -> (r: bool)
        ensures
            r == (*self is Spreadsheet || *self is Csv),
    {
        match self {
            SourceKind::Spreadsheet => true,
            SourceKind::Csv => true,
            _ => false,
        }
    }
}

/// A format backend: bytes in, raw text out. Each backend's impl states what it returns.
pub trait TextExtractor {
    fn extract(&self, bytes: &[u8], cfg: &Config) -> Result<RawText, ExtractError>;
}

/// Text as a parser produced it, before canonicalisation.
#[derive(Debug, Clone)]
pub struct RawText {
    pub text: String,
    pub source: SourceKind,
    /// `Some(false)` only where the format can distinguish "no text layer" from "empty":
    /// currently PDF alone. `None` means the question does not apply.
    pub text_layer_present: Option<bool>,
}

impl RawText {
    /// Text for which the text-layer question does not apply.
    pub fn new(text: String, source: SourceKind) -> (r: Self)
        ensures
            r.text@ == text@,
            r.source == source,
            r.text_layer_present is None,
    {
        RawText { text, source, text_layer_present: None }
    }
}

// ---------------------------------------------------------------------------------------
// Sniffing
// ---------------------------------------------------------------------------------------

/// Whether `b` begins with `p`.
pub open spec fn has_prefix(b: Seq<u8>, p: Seq<u8>) -> bool {
    p.len() <= b.len() && b.take(p.len() as int) == p
}

pub open spec fn pdf_magic() -> Seq<u8> {
    seq![0x25u8, 0x50, 0x44, 0x46, 0x2d]
}

/// OLE compound file — legacy .doc/.xls/.msg. Only .msg is in scope.
pub open spec fn ole_magic() -> Seq<u8> {
    seq![0xD0u8, 0xCF, 0x11, 0xE0, 0xA1, 0xB1, 0x1A, 0xE1]
}

pub open spec fn zip_magic() -> Seq<u8> {
    seq![0x50u8, 0x4b, 0x03, 0x04]
}

fn starts_with(b: &[u8], p: &[u8]) -> (r: bool)
    ensures
        r == has_prefix(b@, p@),
{
    if p.len() > b.len() {
        return false;
    }
    let mut i: usize = 0;
    while i < p.len()
        invariant
            i <= p.len() <= b.len(),
            forall|k: int| 0 <= k < i ==> b@[k] == p@[k],
        decreases p.len() - i,
    {
        if b[i] != p[i] {
            proof {
                assert(b@.take(p.len() as int)[i as int] != p@[i as int]);
            }
            return false;
        }
        i = i + 1;
    }
    proof {
        assert(b@.take(p.len() as int) =~= p@);
    }
    true
}

/// The header names a stored message essentially always carries, lowercased.
pub open spec fn email_marker(i: int) -> &'static str {
    if i == 0 {
        "from:"
    } else if i == 1 {
        "received:"
    } else if i == 2 {
        "return-path:"
    } else if i == 3 {
        "message-id:"
    } else if i == 4 {
        "subject:"
    } else if i == 5 {
        "date:"
    } else if i == 6 {
        "to:"
    } else if i == 7 {
        "mime-version:"
    } else {
        "delivered-to:"
    }
}

pub open spec fn email_marker_count() -> int {
    9
}

fn marker_text(i: usize) -> (r: &'static str)
    requires
        i < 9,
    ensures
        r == email_marker(i as int),
{
    if i == 0 {
        "from:"
    } else if i == 1 {
        "received:"
    } else if i == 2 {
        "return-path:"
    } else if i == 3 {
        "message-id:"
    } else if i == 4 {
        "subject:"
    } else if i == 5 {
        "date:"
    } else if i == 6 {
        "to:"
    } else if i == 7 {
        "mime-version:"
    } else {
        "delivered-to:"
    }
}

/// ASCII lowercasing of one byte, as `to_ascii_lowercase` does it.
pub open spec fn ascii_lower(b: u8) -> u8 {
    if 0x41 <= b <= 0x5a {
        (b + 32) as u8
    } else {
        b
    }
}

/// Whether the line `h[a..e]`, ASCII-lowercased, begins with the marker bytes `m`.
pub open spec fn line_starts_with(h: Seq<u8>, a: int, e: int, m: Seq<u8>) -> bool {
    m.len() <= e - a && forall|i: int| 0 <= i < m.len() ==> ascii_lower(#[trigger] h[a + i]) == m[i]
}

/// Whether the line `h[a..e]` begins with one of the header markers.
pub open spec fn line_is_header(h: Seq<u8>, a: int, e: int) -> bool {
    exists|i: int|
        0 <= i < email_marker_count() && line_starts_with(h, a, e, #[trigger] email_marker(i).spec_bytes())
}

/// The first newline at or after `k`, or the end of `h`.
pub open spec fn next_newline(h: Seq<u8>, k: int) -> int
    decreases h.len() - k,
{
    if k < 0 || k >= h.len() {
        h.len() as int
    } else if h[k] == 0x0a {
        k
    } else {
        next_newline(h, k + 1)
    }
}

pub proof fn lemma_next_newline(h: Seq<u8>, k: int)
    requires
        0 <= k <= h.len(),
    ensures
        k <= next_newline(h, k) <= h.len(),
        forall|j: int| k <= j < next_newline(h, k) ==> h[j] != 0x0a,
        next_newline(h, k) < h.len() ==> h[next_newline(h, k)] == 0x0a,
    decreases h.len() - k,
{
    if k < h.len() && h[k] != 0x0a {
        lemma_next_newline(h, k + 1);
    }
}

/// How many of the `left` lines starting at `k` are header lines.
pub open spec fn header_lines_from(h: Seq<u8>, k: int, left: nat) -> nat
    decreases h.len() - k, left,
{
    if left == 0 || k < 0 || k > h.len() {
        0
    } else {
        let e = next_newline(h, k);
        proof {
            lemma_next_newline(h, k);
        }
        let hit: nat = if line_is_header(h, k, e) {
            1
        } else {
            0
        };
        if e >= h.len() {
            hit
        } else {
            hit + header_lines_from(h, e + 1, (left - 1) as nat)
        }
    }
}

/// The first 2048 bytes of `b`, or all of it when shorter.
pub open spec fn email_head(b: Seq<u8>) -> Seq<u8> {
    if b.len() <= 2048 {
        b
    } else {
        b.take(2048)
    }
}

/// RFC 5322 messages begin with headers: the head of the input is valid UTF-8 and at
/// least two of its first twelve lines begin with a header name.
pub open spec fn spec_looks_like_email(b: Seq<u8>) -> bool {
    valid_utf8(email_head(b)) && header_lines_from(email_head(b), 0, 12) >= 2
}

/// Whether a byte string is valid UTF-8, as `std::str::from_utf8` decides it.
#[verifier::external_body]
pub(crate) fn is_valid_utf8(b: &[u8]) -> (r: bool)
    ensures
        r == valid_utf8(b@),
{
    std::str::from_utf8(b).is_ok()
}

fn line_starts_with_marker(h: &[u8], a: usize, e: usize, m: &[u8]) -> (r: bool)
    requires
        a <= e <= h.len(),
    ensures
        r == line_starts_with(h@, a as int, e as int, m@),
{
    if m.len() > e - a {
        return false;
    }
    let mut i: usize = 0;
    while i < m.len()
        invariant
            i <= m.len() <= e - a,
            e <= h.len(),
            forall|k: int| 0 <= k < i ==> ascii_lower(#[trigger] h@[a + k]) == m@[k],
        decreases m.len() - i,
    {
        let c = h[a + i];
        let lower = if 0x41 <= c && c <= 0x5a {
            c + 32
        } else {
            c
        };
        if lower != m[i] {
            return false;
        }
        i = i + 1;
    }
    true
}

fn is_header_line(h: &[u8], a: usize, e: usize) -> (r: bool)
    requires
        a <= e <= h.len(),
    ensures
        r == line_is_header(h@, a as int, e as int),
{
    let mut i: usize = 0;
    while i < 9
        invariant
            i <= 9,
            a <= e <= h.len(),
            forall|j: int| 0 <= j < i ==> !line_starts_with(h@, a as int, e as int, #[trigger] email_marker(j).spec_bytes()),
        decreases 9 - i,
    {
        let m = marker_text(i);
        if line_starts_with_marker(h, a, e, m.as_bytes()) {
            return true;
        }
        i = i + 1;
    }
    false
}

/// Whether the input opens with mail headers. Two markers are needed: prose can open with
/// something that looks like a header.
pub fn looks_like_email(bytes: &[u8]) -> (r: bool)
    ensures
        r == spec_looks_like_email(bytes@),
{
    let n = if bytes.len() <= 2048 {
        bytes.len()
    } else {
        2048
    };
    let head = slice_prefix(bytes, n);
    proof {
        assert(head@ =~= email_head(bytes@));
    }
    if !is_valid_utf8(head) {
        return false;
    }
    let mut hits: usize = 0;
    let mut k: usize = 0;
    let mut left: usize = 12;
    while left > 0
        invariant
            head@ == email_head(bytes@),
            k <= head.len(),
            left <= 12,
            hits <= 12 - left,
            hits + header_lines_from(head@, k as int, left as nat) == header_lines_from(head@, 0, 12),
        decreases left,
    {
        let mut e = k;
        while e < head.len() && head[e] != 0x0a
            invariant
                k <= e <= head.len(),
                next_newline(head@, k as int) == next_newline(head@, e as int),
            decreases head.len() - e,
        {
            e = e + 1;
        }
        proof {
            lemma_next_newline(head@, k as int);
        }
        let hit = is_header_line(head, k, e);
        if hit {
            hits = hits + 1;
        }
        if e >= head.len() {
            proof {
                assert(header_lines_from(head@, k as int, 0) == 0);
            }
            left = 0;
        } else {
            k = e + 1;
            left = left - 1;
        }
    }
    hits >= 2
}

/// `&b[..n]`.
fn slice_prefix(b: &[u8], n: usize) -> (r: &[u8])
    requires
        n <= b.len(),
    ensures
        r@ == b@.take(n as int),
{
    let (r, _) = b.split_at(n);
    r
}

/// Whether `s` begins with `p`.
pub open spec fn starts_with_chars(s: Seq<char>, p: Seq<char>) -> bool {
    p.len() <= s.len() && s.take(p.len() as int) == p
}

/// The format [`sniff`] settles on for a zip container: the first readable entry name
/// under `word/`, `xl/` or `ppt/` decides Docx, Xlsx or Pptx; a container with none of
/// them is plain text.
pub open spec fn ooxml_hint(names: Seq<Option<Seq<char>>>) -> FormatHint
    decreases names.len(),
{
    if names.len() == 0 {
        FormatHint::PlainText
    } else if names[0] is Some && starts_with_chars(names[0]->0, "word/"@) {
        FormatHint::Docx
    } else if names[0] is Some && starts_with_chars(names[0]->0, "xl/"@) {
        FormatHint::Xlsx
    } else if names[0] is Some && starts_with_chars(names[0]->0, "ppt/"@) {
        FormatHint::Pptx
    } else {
        ooxml_hint(names.drop_first())
    }
}

/// Distinguish OOXML flavours by which part names the container holds.
fn sniff_ooxml(bytes: &[u8]) -> (r: FormatHint)
    ensures
        r == match zip_entry_names(bytes@) {
            None => FormatHint::PlainText,
            Some(names) => ooxml_hint(names),
        },
{
    let names = match zip_entries(bytes) {
        Err(_) => return FormatHint::PlainText,
        Ok(names) => names,
    };
    let ghost all = entry_texts(names@);
    proof {
        assert(all.skip(0) =~= all);
    }
    let mut i: usize = 0;
    while i < names.len()
        invariant
            i <= names.len(),
            all == entry_texts(names@),
            zip_entry_names(bytes@) == Some(all),
            ooxml_hint(all) == ooxml_hint(all.skip(i as int)),
        decreases names.len() - i,
    {
        proof {
            assert(all.skip(i as int).len() > 0);
            assert(all.skip(i as int)[0] == all[i as int]);
            assert(all.skip(i as int).drop_first() =~= all.skip(i + 1));
        }
        match &names[i] {
            None => {},
            Some(name) => {
                let name = name.as_str();
                proof {
                    assert(all[i as int] == Some(name@));
                }
                if has_str_prefix(name, "word/") {
                    return FormatHint::Docx;
                } else if has_str_prefix(name, "xl/") {
                    return FormatHint::Xlsx;
                } else if has_str_prefix(name, "ppt/") {
                    return FormatHint::Pptx;
                }
            },
        }
        i = i + 1;
    }
    proof {
        assert(all.skip(i as int).len() == 0);
    }
    FormatHint::PlainText
}

/// Whether `s` begins with `p`, char by char.
pub fn has_str_prefix(s: &str, p: &str) -> (r: bool)
    ensures
        r == starts_with_chars(s@, p@),
{
    let sc = crate::text::chars_of(s);
    let pc = crate::text::chars_of(p);
    if pc.len() > sc.len() {
        return false;
    }
    let mut i: usize = 0;
    while i < pc.len()
        invariant
            sc@ == s@,
            pc@ == p@,
            i <= pc.len() <= sc.len(),
            forall|k: int| 0 <= k < i ==> sc@[k] == pc@[k],
        decreases pc.len() - i,
    {
        if sc[i] != pc[i] {
            proof {
                assert(sc@.take(pc.len() as int)[i as int] != pc@[i as int]);
            }
            return false;
        }
        i = i + 1;
    }
    proof {
        assert(sc@.take(pc.len() as int) =~= pc@);
    }
    true
}

/// The format [`sniff`] identifies from content alone.
pub open spec fn spec_sniff(b: Seq<u8>) -> FormatHint {
    if has_prefix(b, pdf_magic()) {
        FormatHint::Pdf
    } else if has_prefix(b, ole_magic()) {
        FormatHint::Email
    } else if has_prefix(b, zip_magic()) {
        match zip_entry_names(b) {
            None => FormatHint::PlainText,
            Some(names) => ooxml_hint(names),
        }
    } else if spec_looks_like_email(b) {
        FormatHint::Email
    } else {
        FormatHint::PlainText
    }
}

/// Identify the format from magic bytes and content shape.
///
/// Deliberately does not trust file extensions: the caller supplies bytes, and in a
/// heterogeneous corpus extensions are wrong often enough to matter.
pub fn sniff(bytes: &[u8]) -> (r: FormatHint)
    ensures
        r == spec_sniff(bytes@),
{
    let pdf: [u8; 5] = [0x25, 0x50, 0x44, 0x46, 0x2d];
    let ole: [u8; 8] = [0xD0, 0xCF, 0x11, 0xE0, 0xA1, 0xB1, 0x1A, 0xE1];
    let zip: [u8; 4] = [0x50, 0x4b, 0x03, 0x04];
    proof {
        assert(pdf@ =~= pdf_magic());
        assert(ole@ =~= ole_magic());
        assert(zip@ =~= zip_magic());
    }
    if starts_with(bytes, pdf.as_slice()) {
        return FormatHint::Pdf;
    }
    if starts_with(bytes, ole.as_slice()) {
        return FormatHint::Email;
    }
    if starts_with(bytes, zip.as_slice()) {
        return sniff_ooxml(bytes);
    }
    if looks_like_email(bytes) {
        return FormatHint::Email;
    }
    FormatHint::PlainText
}

// ---------------------------------------------------------------------------------------
// Dispatch
// ---------------------------------------------------------------------------------------

/// The backend for each format. A backend can be swapped without touching anything
/// downstream — which matters most for PDF, where the choice of extractor is the largest
/// single influence on output.
pub enum Extractor {
    Pdf(PdfExtractor),
    Docx(DocxExtractor),
    Pptx(PptxExtractor),
    Xlsx(XlsxExtractor),
    Email(EmailExtractor),
    Plain(PlainTextExtractor),
    Csv(CsvExtractor),
}

/// The backend a resolved hint selects: Markdown is read as plain text, and CSV is read
/// the same way but marked as the tabular format it is.
pub open spec fn backend_for(hint: FormatHint) -> Option<Extractor> {
    match hint {
        FormatHint::Pdf => Some(Extractor::Pdf(PdfExtractor)),
        FormatHint::Docx => Some(Extractor::Docx(DocxExtractor)),
        FormatHint::Pptx => Some(Extractor::Pptx(PptxExtractor)),
        FormatHint::Xlsx => Some(Extractor::Xlsx(XlsxExtractor)),
        FormatHint::Email => Some(Extractor::Email(EmailExtractor)),
        FormatHint::Csv => Some(Extractor::Csv(CsvExtractor)),
        FormatHint::PlainText | FormatHint::Markdown => Some(Extractor::Plain(PlainTextExtractor)),
        FormatHint::Sniff => None,
    }
}

/// Resolve a hint to a backend. `Sniff` is not a format: resolving it is an error.
pub fn extractor_for(hint: FormatHint) -> (r: Result<Extractor, ExtractError>)
    ensures
        backend_for(hint) matches Some(e) ==> r == Ok::<Extractor, ExtractError>(e),
        backend_for(hint) is None ==> (r matches Err(ExtractError::UnsupportedFormat(m)) && m@ == "unresolved"@),
{
    match hint {
        FormatHint::Pdf => Ok(Extractor::Pdf(PdfExtractor)),
        FormatHint::Docx => Ok(Extractor::Docx(DocxExtractor)),
        FormatHint::Pptx => Ok(Extractor::Pptx(PptxExtractor)),
        FormatHint::Xlsx => Ok(Extractor::Xlsx(XlsxExtractor)),
        FormatHint::Email => Ok(Extractor::Email(EmailExtractor)),
        FormatHint::Csv => Ok(Extractor::Csv(CsvExtractor)),
        FormatHint::PlainText | FormatHint::Markdown => Ok(Extractor::Plain(PlainTextExtractor)),
        FormatHint::Sniff => Err(ExtractError::UnsupportedFormat(String::from_str("unresolved"))),
    }
}

/// What a backend's result satisfies: exactly the text of the format where the format's
/// reader is named, the shape of the text where the reader's findings are taken as they
/// come (spreadsheets, PDF).
pub open spec fn extraction_outcome(e: Extractor, bytes: Seq<u8>, cfg: Config, r: Result<RawText, ExtractError>) -> bool {
    match e {
        Extractor::Pdf(_) => exists|opened: bool, encrypted: bool, count: Option<nat>, pages: Seq<(bool, Option<Seq<char>>)>|
            #[trigger] pdf_outcome_given(opened, encrypted, count, pages, cfg.no_text_layer_threshold as nat, r),
        Extractor::Docx(_) => {
            &&& r is Ok <==> ooxml_document_text(bytes, PartSelection::WordDocument, Seq::empty()) is Some
            &&& r is Ok ==> r->Ok_0.text@ == ooxml_document_text(bytes, PartSelection::WordDocument, Seq::empty())->0
                && r->Ok_0.source == SourceKind::WordProcessing && r->Ok_0.text_layer_present is None
            &&& r is Err ==> r->Err_0 is Parse
        },
        Extractor::Pptx(_) => {
            &&& r is Ok <==> ooxml_document_text(bytes, PartSelection::Slides, seq!['\n']) is Some
            &&& r is Ok ==> r->Ok_0.text@ == ooxml_document_text(bytes, PartSelection::Slides, seq!['\n'])->0
                && r->Ok_0.source == SourceKind::Presentation && r->Ok_0.text_layer_present is None
            &&& r is Err ==> r->Err_0 is Parse
        },
        Extractor::Xlsx(_) => xlsx_outcome(bytes, r),
        Extractor::Email(_) => {
            &&& r is Ok <==> parsed_message(bytes) is Some
            &&& r is Ok ==> r->Ok_0.text@ == spec_email_text(parsed_message(bytes).unwrap().0, parsed_message(bytes).unwrap().1)
                && r->Ok_0.source == SourceKind::Email && r->Ok_0.text_layer_present is None
            &&& r is Err ==> (r->Err_0 matches ExtractError::Parse(m) && m@ == "email: unparseable"@)
        },
        Extractor::Plain(_) => {
            &&& r is Ok
            &&& r->Ok_0.text@ == decoded(bytes)
            &&& r->Ok_0.source == SourceKind::Plain
            &&& r->Ok_0.text_layer_present is None
        },
        Extractor::Csv(_) => {
            &&& r is Ok
            &&& r->Ok_0.text@ == decoded(bytes)
            &&& r->Ok_0.source == SourceKind::Csv
            &&& r->Ok_0.text_layer_present is None
        },
    }
}

impl Extractor {
    /// Extract raw text with the selected backend.
    pub fn extract(&self, bytes: &[u8], cfg: &Config) -> (r: Result<RawText, ExtractError>)
        ensures
            extraction_outcome(*self, bytes@, *cfg, r),
    {
        match self {
            Extractor::Pdf(x) => x.extract(bytes, cfg),
            Extractor::Docx(x) => x.extract(bytes, cfg),
            Extractor::Pptx(x) => x.extract(bytes, cfg),
            Extractor::Xlsx(x) => x.extract(bytes, cfg),
            Extractor::Email(x) => x.extract(bytes, cfg),
            Extractor::Plain(x) => x.extract(bytes, cfg),
            Extractor::Csv(x) => x.extract(bytes, cfg),
        }
    }
}

/// The format the bytes are parsed as: the caller's hint, or what sniffing finds when
/// the hint is `Sniff`.
pub open spec fn resolved_format(bytes: Seq<u8>, hint: FormatHint) -> FormatHint {
    if hint == FormatHint::Sniff {
        spec_sniff(bytes)
    } else {
        hint
    }
}

/// Parse bytes to raw text, sniffing the format when the caller did not supply one.
pub fn parse(bytes: &[u8], hint: FormatHint, cfg: &Config) -> (r: Result<RawText, ExtractError>)
    ensures
        backend_for(resolved_format(bytes@, hint)) is Some,
        extraction_outcome(backend_for(resolved_format(bytes@, hint))->0, bytes@, *cfg, r),
{
    let resolved = if hint == FormatHint::Sniff {
        sniff(bytes)
    } else {
        hint
    };
    proof {
        lemma_sniff_resolves(bytes@);
    }
    let backend = extractor_for(resolved)?;
    backend.extract(bytes, cfg)
}

proof fn lemma_ooxml_hint_resolves(names: Seq<Option<Seq<char>>>)
    ensures
        ooxml_hint(names) != FormatHint::Sniff,
    decreases names.len(),
{
    if names.len() > 0 {
        lemma_ooxml_hint_resolves(names.drop_first());
    }
}

/// Sniffing always settles on a format.
pub proof fn lemma_sniff_resolves(b: Seq<u8>)
    ensures
        spec_sniff(b) != FormatHint::Sniff,
        backend_for(spec_sniff(b)) is Some,
{
    if let Some(names) = zip_entry_names(b) {
        lemma_ooxml_hint_resolves(names);
    }
}

} // verus!
