//! Born-digital PDF text extraction via `pdf_oxide`, pinned to an exact version.
//!
//! The pin is not caution for its own sake: `pdf_oxide` ships often with no
//! output-stability commitment, and any change to extracted text changes every keyword
//! set derived from it. The exact version feeds the pipeline version, so an upgrade is a
//! deliberate re-extraction event rather than a silent drift.
//!
//! What a page holds is the extractor's. What the library decides — how pages are
//! joined, and whether the document counts as having a text layer — is here and
//! verified over whatever the extractor returned.

use vstd::prelude::*;
use vstd::string::StringExecFns;

use super::{RawText, SourceKind, TextExtractor};
use crate::canonical::trim;
use crate::config::Config;
use crate::error::ExtractError;

verus! {

#[verifier::external_type_specification]
#[verifier::external_body]
pub struct ExPdfDocument(pdf_oxide::PdfDocument);

#[verifier::external_type_specification]
#[verifier::external_body]
pub struct ExPdfError(pdf_oxide::Error);

/// The reading-order modes of `pdf_oxide::converters::ReadingOrderMode` this library
/// uses.
#[derive(PartialEq, Eq, Structural)]
pub enum PdfReadingOrder {
    TopToBottomLeftToRight,
    ColumnAware,
}

/// The text-extraction settings handed to `pdf_oxide`; every other setting keeps its
/// default.
#[derive(PartialEq, Eq, Structural)]
pub struct PdfLayout {
    pub reading_order: PdfReadingOrder,
    pub extract_tables: bool,
    pub include_images: bool,
    pub embed_images: bool,
    pub strip_running_headers_footers: bool,
}

/// `PdfDocument::from_bytes` over a copy of the bytes. Nothing is stated of which bytes
/// open: the parser is large, and whether it reads every input the same way is not
/// settled by its source.
#[verifier::external_body]
fn open_pdf(bytes: &[u8]) -> Result<pdf_oxide::PdfDocument, pdf_oxide::Error> {
    pdf_oxide::PdfDocument::from_bytes(bytes.to_vec())
}

/// `PdfDocument::is_encrypted`.
#[verifier::external_body]
fn pdf_is_encrypted(doc: &pdf_oxide::PdfDocument) -> bool {
    doc.is_encrypted()
}

/// `PdfDocument::page_count`. Nothing is stated of the count.
#[verifier::external_body]
fn pdf_page_count(doc: &pdf_oxide::PdfDocument) -> Result<usize, pdf_oxide::Error> {
    doc.page_count()
}

/// `PdfDocument::has_text_layer` for one page. Nothing is stated of the answer.
#[verifier::external_body]
fn pdf_has_text_layer(doc: &pdf_oxide::PdfDocument, page: usize) -> Result<bool, pdf_oxide::Error> {
    doc.has_text_layer(page)
}

/// `PdfDocument::extract_text_with_options` for one page, with the given settings.
/// Nothing is stated of the text: the extractor walks hash maps of PDF objects, so it is
/// not settled that the text is a function of the bytes, page and settings alone.
#[verifier::external_body]
fn pdf_page_text(doc: &pdf_oxide::PdfDocument, page: usize, layout: &PdfLayout) -> Result<String, pdf_oxide::Error> {
    let options = pdf_oxide::converters::ConversionOptions {
        reading_order_mode: match layout.reading_order {
            PdfReadingOrder::TopToBottomLeftToRight => pdf_oxide::converters::ReadingOrderMode::TopToBottomLeftToRight,
            PdfReadingOrder::ColumnAware => pdf_oxide::converters::ReadingOrderMode::ColumnAware,
        },
        extract_tables: layout.extract_tables,
        include_images: layout.include_images,
        embed_images: layout.embed_images,
        strip_running_headers_footers: layout.strip_running_headers_footers,
        ..Default::default()
    };
    doc.extract_text_with_options(page, &options)
}

/// `pdf_oxide::Error`'s `Display` text. Nothing is stated of its wording.
#[verifier::external_body]
fn pdf_error_text(e: &pdf_oxide::Error) -> String {
    format!("{e}")
}

/// What the extractor reported of one page: whether it may carry text (a page whose
/// resources cannot be inspected counts as carrying text, so extraction is still
/// tried), and its text, `None` when the page could not be read.
pub struct PdfPage {
    pub text_layer: bool,
    pub text: Option<String>,
}

/// A page report as plain values.
pub open spec fn page_view(p: PdfPage) -> (bool, Option<Seq<char>>) {
    (p.text_layer, match p.text {
        Some(t) => Some(t@),
        None => None,
    })
}

pub open spec fn page_views(pages: Seq<PdfPage>) -> Seq<(bool, Option<Seq<char>>)> {
    pages.map_values(|p: PdfPage| page_view(p))
}

/// The readable pages' text, joined by newlines.
pub open spec fn pages_text(pages: Seq<(bool, Option<Seq<char>>)>) -> Seq<char>
    decreases pages.len(),
{
    if pages.len() == 0 {
        Seq::empty()
    } else {
        let before = pages_text(pages.drop_last());
        match pages.last().1 {
            None => before,
            Some(t) => if before.len() == 0 {
                t
            } else {
                before + seq!['\n'] + t
            },
        }
    }
}

/// Whether any page may carry text.
pub open spec fn any_text_layer(pages: Seq<(bool, Option<Seq<char>>)>) -> bool {
    exists|i: int| 0 <= i < pages.len() && (#[trigger] pages[i]).0
}

/// Whether the document counts as having a text layer: some page may carry text, and
/// the joined text, trimmed, holds at least `threshold` chars. A scanned page extracts to
/// nothing exactly as a blank page does, so an empty result alone decides nothing.
pub open spec fn spec_text_layer(pages: Seq<(bool, Option<Seq<char>>)>, threshold: nat) -> bool {
    any_text_layer(pages) && trim(pages_text(pages)).len() >= threshold
}

/// The raw text of a document from what the extractor reported of its pages.
pub fn assemble_pdf(pages: &Vec<PdfPage>, threshold: usize) -> (r: RawText)
    ensures
        r.text@ == pages_text(page_views(pages@)),
        r.source == SourceKind::Pdf,
        r.text_layer_present == Some(spec_text_layer(page_views(pages@), threshold as nat)),
{
    let ghost vs = page_views(pages@);
    let mut text: Vec<char> = Vec::new();
    let mut any = false;
    let mut i: usize = 0;
    proof {
        assert(vs.take(0) =~= Seq::<(bool, Option<Seq<char>>)>::empty());
    }
    while i < pages.len()
        invariant
            vs == page_views(pages@),
            i <= pages.len(),
            text@ == pages_text(vs.take(i as int)),
            any == exists|k: int| 0 <= k < i && (#[trigger] vs[k]).0,
        decreases pages.len() - i,
    {
        proof {
            assert(vs.take(i + 1).drop_last() =~= vs.take(i as int));
            assert(vs.take(i + 1).last() == vs[i as int]);
            assert(vs[i as int] == page_view(pages@[i as int]));
        }
        if pages[i].text_layer {
            any = true;
        }
        match &pages[i].text {
            Some(t) => {
                if text.len() > 0 {
                    text.push('\n');
                }
                let tc = crate::text::chars_of(t.as_str());
                crate::canonical::append_all(&mut text, tc.as_slice());
            },
            None => {},
        }
        i = i + 1;
    }
    proof {
        assert(vs.take(pages.len() as int) =~= vs);
    }
    let trimmed = crate::canonical::trimmed_chars(text.as_slice());
    let layer = any && trimmed.len() >= threshold;
    RawText { text: crate::text::string_from_chars(text.as_slice()), source: SourceKind::Pdf, text_layer_present: Some(layer) }
}

/// The settings every page is read with: column-aware reading order, tables kept,
/// images left out, running headers and footers stripped.
pub open spec fn reading_layout() -> PdfLayout {
    PdfLayout {
        reading_order: PdfReadingOrder::ColumnAware,
        extract_tables: true,
        include_images: false,
        embed_images: false,
        strip_running_headers_footers: true,
    }
}

/// The settings every page is read with.
pub fn page_layout() -> (r: PdfLayout)
    ensures
        r == reading_layout(),
{
    PdfLayout {
        reading_order: PdfReadingOrder::ColumnAware,
        extract_tables: true,
        include_images: false,
        embed_images: false,
        strip_running_headers_footers: true,
    }
}

/// Whether a document is refused as encrypted: it reports encryption, and no page can be
/// counted. An encrypted document that opened with the empty owner password has pages
/// and is read like any other.
pub open spec fn refused_as_encrypted(encrypted: bool, count: Option<nat>) -> bool {
    encrypted && (count is None || count == Some(0nat))
}

/// What extracting a PDF gives, given what the reader reported: whether the bytes
/// opened, whether the document is encrypted, its page count (`None` for an error), and
/// one report per counted page. A parse error when it did not open or its pages cannot
/// be counted, the encryption refusal, or the text of all its pages.
pub open spec fn pdf_outcome_given(
    opened: bool,
    encrypted: bool,
    count: Option<nat>,
    pages: Seq<(bool, Option<Seq<char>>)>,
    threshold: nat,
    r: Result<RawText, ExtractError>,
) -> bool {
    if !opened {
        r matches Err(ExtractError::Parse(_))
    } else if refused_as_encrypted(encrypted, count) {
        r matches Err(ExtractError::Encrypted)
    } else if count is None {
        r matches Err(ExtractError::Parse(_))
    } else {
        &&& pages.len() == count->0
        &&& r is Ok
        &&& r->Ok_0.text@ == pages_text(pages)
        &&& r->Ok_0.source == SourceKind::Pdf
        &&& r->Ok_0.text_layer_present == Some(spec_text_layer(pages, threshold))
    }
}

/// Whether the reports refuse the document as encrypted.
pub fn refuses_as_encrypted(encrypted: bool, count: Option<usize>) -> (r: bool)
    ensures
        r == refused_as_encrypted(
            encrypted,
            match count {
                Some(n) => Some(n as nat),
                None => None,
            },
        ),
{
    encrypted && match count {
        Some(n) => n == 0,
        None => true,
    }
}

pub struct PdfExtractor;

impl TextExtractor for PdfExtractor {
    /// Every page's text through `pdf_oxide`, with column-aware reading order, tables
    /// kept, images left out and running headers and footers stripped.
    ///
    /// An encrypted document may still decrypt with an empty owner password; opening it
    /// having succeeded means it did. It is reported as encrypted only when no page can
    /// be counted. One unreadable page in a long document does not discard the rest.
    /// What the reader reports is its own; the result is what [`pdf_outcome_given`] makes
    /// of those reports, whatever they were.
    fn extract(&self, bytes: &[u8], cfg: &Config) -> (r: Result<RawText, ExtractError>)
        ensures
            exists|opened: bool, encrypted: bool, count: Option<nat>, pages: Seq<(bool, Option<Seq<char>>)>|
                #[trigger] pdf_outcome_given(opened, encrypted, count, pages, cfg.no_text_layer_threshold as nat, r),
    {
        let doc = match open_pdf(bytes) {
            Ok(d) => d,
            Err(e) => {
                let r = Err(ExtractError::Parse(String::from_str("pdf: ").concat(pdf_error_text(&e).as_str())));
                proof {
                    assert(pdf_outcome_given(false, false, None, Seq::empty(), cfg.no_text_layer_threshold as nat, r));
                }
                return r;
            },
        };
        let encrypted = pdf_is_encrypted(&doc);
        let counted_r = pdf_page_count(&doc);
        let counted = match &counted_r {
            Ok(n) => Some(*n),
            Err(_) => None,
        };
        let ghost cn: Option<nat> = match counted {
            Some(n) => Some(n as nat),
            None => None,
        };
        if refuses_as_encrypted(encrypted, counted) {
            let r = Err(ExtractError::Encrypted);
            proof {
                assert(pdf_outcome_given(true, encrypted, cn, Seq::empty(), cfg.no_text_layer_threshold as nat, r));
            }
            return r;
        }
        let count = match counted {
            Some(n) => n,
            None => {
                let msg = match &counted_r {
                    Err(e) => String::from_str("pdf page count: ").concat(pdf_error_text(e).as_str()),
                    Ok(_) => String::from_str("pdf page count"),
                };
                let r = Err(ExtractError::Parse(msg));
                proof {
                    assert(pdf_outcome_given(true, encrypted, cn, Seq::empty(), cfg.no_text_layer_threshold as nat, r));
                }
                return r;
            },
        };
        let layout = page_layout();
        let mut pages: Vec<PdfPage> = Vec::new();
        let mut p: usize = 0;
        while p < count
            invariant
                p <= count,
                pages@.len() == p,
            decreases count - p,
        {
            let text_layer = match pdf_has_text_layer(&doc, p) {
                Ok(b) => b,
                Err(_) => true,
            };
            let text = match pdf_page_text(&doc, p, &layout) {
                Ok(t) => Some(t),
                Err(_) => None,
            };
            pages.push(PdfPage { text_layer, text });
            p = p + 1;
        }
        let raw = assemble_pdf(&pages, cfg.no_text_layer_threshold);
        let r = Ok(raw);
        proof {
            assert(page_views(pages@).len() == count);
            assert(pdf_outcome_given(true, encrypted, cn, page_views(pages@), cfg.no_text_layer_threshold as nat, r));
        }
        r
    }
}

} // verus!
