//! Plain text, Markdown and CSV.
//!
//! Encoding is decided here rather than in canonicalisation, because a mis-decoded
//! document produces plausible-looking rubbish that no later stage can detect.

use vstd::prelude::*;
use vstd::utf8::*;

use super::{RawText, SourceKind, TextExtractor};
use crate::config::Config;
use crate::error::ExtractError;
use crate::text::string_from_chars;

verus! {

pub struct PlainTextExtractor;

/// CSV: decoded as plain text is, but reported as a tabular source, so the prose
/// heuristic rejects it on its format.
pub struct CsvExtractor;

/// The UTF-8 byte-order mark.
pub open spec fn bom() -> Seq<u8> {
    seq![0xEFu8, 0xBB, 0xBF]
}

/// The input with a leading byte-order mark removed.
pub open spec fn without_bom(b: Seq<u8>) -> Seq<u8> {
    if b.len() >= 3 && b.take(3) == bom() {
        b.skip(3)
    } else {
        b
    }
}

/// What [`decode`] makes of the bytes: UTF-8 when they are valid UTF-8 once a leading
/// byte-order mark is removed, and otherwise Latin-1, one char per byte.
pub open spec fn decoded(b: Seq<u8>) -> Seq<char> {
    let body = without_bom(b);
    if valid_utf8(body) {
        decode_utf8(body)
    } else {
        Seq::new(body.len(), |i: int| body[i] as char)
    }
}

/// `std::str::from_utf8` taken to an owned string: the decoded text when the bytes are
/// valid UTF-8.
#[verifier::external_body]
pub(crate) fn utf8_text(b: &[u8]) -> (r: Option<String>)
    ensures
        r is Some <==> valid_utf8(b@),
        r is Some ==> r->0@ == decode_utf8(b@),
{
    match std::str::from_utf8(b) {
        Ok(s) => Some(s.to_string()),
        Err(_) => None,
    }
}

/// Decode as UTF-8, stripping a BOM; fall back to Latin-1, which cannot fail and is the
/// common case for legacy plain-text files in an old corpus.
pub fn decode(bytes: &[u8]) -> (r: String)
    ensures
        r@ == decoded(bytes@),
{
    let body = if bytes.len() >= 3 && bytes[0] == 0xEF && bytes[1] == 0xBB && bytes[2] == 0xBF {
        let (_, rest) = bytes.split_at(3);
        proof {
            assert(bytes@.take(3) =~= bom());
        }
        rest
    } else {
        proof {
            if bytes@.len() >= 3 && bytes@.take(3) == bom() {
                assert(bytes@.take(3)[0] == 0xEFu8);
                assert(bytes@.take(3)[1] == 0xBBu8);
                assert(bytes@.take(3)[2] == 0xBFu8);
            }
        }
        bytes
    };
    proof {
        assert(body@ =~= without_bom(bytes@));
    }
    match utf8_text(body) {
        Some(s) => s,
        None => {
            let mut out: Vec<char> = Vec::new();
            let mut i: usize = 0;
            while i < body.len()
                invariant
                    i <= body.len(),
                    out@ =~= Seq::new(i as nat, |k: int| body@[k] as char),
                decreases body.len() - i,
            {
                out.push(body[i] as char);
                i = i + 1;
            }
            string_from_chars(out.as_slice())
        },
    }
}

impl TextExtractor for PlainTextExtractor {
    /// Plain text is never refused: the bytes decode as UTF-8 or, failing that, Latin-1.
    fn extract(&self, bytes: &[u8], _cfg: &Config) -> (r: Result<RawText, ExtractError>)
        ensures
            r is Ok,
            r->Ok_0.text@ == decoded(bytes@),
            r->Ok_0.source == SourceKind::Plain,
            r->Ok_0.text_layer_present is None,
    {
        Ok(RawText::new(decode(bytes), SourceKind::Plain))
    }
}

impl TextExtractor for CsvExtractor {
    /// CSV is never refused either: the bytes decode as UTF-8 or, failing that, Latin-1.
    fn extract(&self, bytes: &[u8], _cfg: &Config) -> (r: Result<RawText, ExtractError>)
        ensures
            r is Ok,
            r->Ok_0.text@ == decoded(bytes@),
            r->Ok_0.source == SourceKind::Csv,
            r->Ok_0.text_layer_present is None,
    {
        Ok(RawText::new(decode(bytes), SourceKind::Csv))
    }
}

} // verus!
