//! The document-level decisions taken before any stage runs, and the ranking taken after
//! all of them.
//!
//! A document that merely cannot be read is a *result* with a status explaining why, so
//! that the consumer records it rather than losing it. The order of the checks matters:
//! a scanned PDF is short *and* has no text layer, and reporting it as merely short
//! would hide the fact that OCR could recover it.

use vstd::prelude::*;
use vstd::string::StringSliceAdditionalSpecFns;
use vstd::utf8::encode_utf8;

use crate::canonical::{canonical_form, canonicalise as canonicalise_text};
use crate::config::Config;
use crate::digest::{blake3_digest, blake3_hash};
use crate::error::ExtractError;
use crate::parse::{backend_for, extraction_outcome, parse, resolved_format, RawText, SourceKind};
use crate::resources::Resources;
use crate::text::chars_of;
use crate::types::{kind_order, DocumentStatus, FormatHint, Kind};
use crate::version::{stamp_message, PipelineVersion};

verus! {

/// The canonical text of a parse outcome, or its error.
pub open spec fn canonical_outcome(p: Result<RawText, ExtractError>, cfg: Config) -> Result<Seq<char>, ExtractError> {
    match p {
        Ok(raw) => Ok(canonical_form(raw.text@, raw.source, cfg.strip_quoted_blocks)),
        Err(e) => Err(e),
    }
}

/// Regenerate the canonical text a result's offsets refer to.
///
/// Kept apart from extraction so full document text is never returned by default.
/// Canonicalisation is deterministic, so the text returned here is the one the offsets
/// were computed against.
pub fn canonicalise(bytes: &[u8], hint: FormatHint, cfg: &Config) -> (r: Result<String, ExtractError>)
    ensures
        exists|p: Result<RawText, ExtractError>|
            #[trigger] extraction_outcome(backend_for(resolved_format(bytes@, hint))->0, bytes@, *cfg, p) && match (
                canonical_outcome(p, *cfg),
                r,
            ) {
                (Ok(c), Ok(s)) => s@ == c,
                (Err(e1), Err(e2)) => e1 == e2,
                _ => false,
            },
{
    let res = parse(bytes, hint, cfg);
    let ghost p = res;
    match res {
        Ok(raw) => {
            let c = canonicalise_text(raw.text.as_str(), raw.source, cfg);
            proof {
                assert(extraction_outcome(backend_for(resolved_format(bytes@, hint))->0, bytes@, *cfg, p));
            }
            Ok(c)
        },
        Err(e) => {
            proof {
                assert(extraction_outcome(backend_for(resolved_format(bytes@, hint))->0, bytes@, *cfg, p));
            }
            Err(e)
        },
    }
}

/// The status a parse failure is reported under.
pub open spec fn status_for(e: ExtractError, st: DocumentStatus) -> bool {
    match e {
        ExtractError::Encrypted => st == DocumentStatus::Encrypted,
        ExtractError::UnsupportedFormat(_) => st == DocumentStatus::UnsupportedFormat,
        ExtractError::Parse(d) => st matches DocumentStatus::ParseError(m) && m@ == "parse failure: "@ + d@,
        ExtractError::Resource(d) => st matches DocumentStatus::ParseError(m) && m@
            == "resource override could not be loaded: "@ + d@,
        ExtractError::Io(_) => st is ParseError,
    }
}

/// Report a parse failure as a document status: encryption and unsupported formats have
/// statuses of their own, every other failure is a parse error carrying its message.
pub fn status_for_error(e: &ExtractError) -> (st: DocumentStatus)
    ensures
        status_for(*e, st),
{
    match e {
        ExtractError::Encrypted => DocumentStatus::Encrypted,
        ExtractError::UnsupportedFormat(_) => DocumentStatus::UnsupportedFormat,
        _ => DocumentStatus::ParseError(e.message()),
    }
}

/// A document brought as far as the stages: its version stamp and digests, its status,
/// and — when it is ready for extraction — its canonical text and source kind.
pub struct Prepared {
    pub status: DocumentStatus,
    pub pipeline_version: PipelineVersion,
    /// blake3 of the input bytes.
    pub hash_exact: [u8; 32],
    /// blake3 of the canonical text's UTF-8 bytes, once there is canonical text.
    pub hash_canonical: Option<[u8; 32]>,
    /// Chars of canonical text.
    pub own_content_length: usize,
    /// The canonical text and source kind, present exactly when the status is success.
    pub ready: Option<(String, SourceKind)>,
}

/// What preparation reports for a parse outcome.
pub open spec fn prepared_from(p: Result<RawText, ExtractError>, cfg: Config, d: Prepared) -> bool {
    match p {
        Err(e) => {
            &&& status_for(e, d.status)
            &&& d.hash_canonical is None
            &&& d.own_content_length == 0
            &&& d.ready is None
        },
        Ok(raw) => if raw.text_layer_present == Some(false) {
            &&& d.status == DocumentStatus::NoTextLayer
            &&& d.hash_canonical is None
            &&& d.own_content_length == 0
            &&& d.ready is None
        } else {
            let c = canonical_form(raw.text@, raw.source, cfg.strip_quoted_blocks);
            &&& d.hash_canonical matches Some(h) && h@ == blake3_digest(encode_utf8(c))
            &&& d.own_content_length == c.len()
            &&& if c.len() < cfg.min_content_length {
                d.status == DocumentStatus::TooShort && d.ready is None
            } else {
                d.status == DocumentStatus::Success && (d.ready matches Some((t, k)) && t@ == c && k == raw.source)
            }
        },
    }
}

/// Bring a document as far as the stages: parse it, refuse a PDF without a text layer,
/// canonicalise, and refuse text below the minimum length. Never fails: a document that
/// cannot be read is reported by its status.
pub fn prepare(bytes: &[u8], hint: FormatHint, cfg: &Config, res: &Resources) -> (d: Prepared)
    ensures
        d.pipeline_version.0@ == blake3_digest(
            stamp_message(*cfg, res.wordlist_fingerprint(), res.stopwords_fingerprint(), res.lemmas_fingerprint()),
        ),
        d.hash_exact@ == blake3_digest(bytes@),
        exists|p: Result<RawText, ExtractError>|
            #[trigger] extraction_outcome(backend_for(resolved_format(bytes@, hint))->0, bytes@, *cfg, p)
                && prepared_from(p, *cfg, d),
{
    let version = PipelineVersion::compute(cfg, res);
    let hash_exact = blake3_hash(bytes);
    let outcome = parse(bytes, hint, cfg);
    let ghost p = outcome;
    let d = match outcome {
        Err(e) => Prepared {
            status: status_for_error(&e),
            pipeline_version: version,
            hash_exact,
            hash_canonical: None,
            own_content_length: 0,
            ready: None,
        },
        Ok(raw) => {
            let no_layer = match raw.text_layer_present {
                Some(b) => !b,
                None => false,
            };
            if no_layer {
                Prepared {
                    status: DocumentStatus::NoTextLayer,
                    pipeline_version: version,
                    hash_exact,
                    hash_canonical: None,
                    own_content_length: 0,
                    ready: None,
                }
            } else {
                let canonical = canonicalise_text(raw.text.as_str(), raw.source, cfg);
                let length = chars_of(canonical.as_str()).len();
                let hash_canonical = Some(blake3_hash(canonical.as_str().as_bytes()));
                if length < cfg.min_content_length {
                    Prepared {
                        status: DocumentStatus::TooShort,
                        pipeline_version: version,
                        hash_exact,
                        hash_canonical,
                        own_content_length: length,
                        ready: None,
                    }
                } else {
                    Prepared {
                        status: DocumentStatus::Success,
                        pipeline_version: version,
                        hash_exact,
                        hash_canonical,
                        own_content_length: length,
                        ready: Some((canonical, raw.source)),
                    }
                }
            }
        },
    };
    proof {
        assert(extraction_outcome(backend_for(resolved_format(bytes@, hint))->0, bytes@, *cfg, p));
        assert(prepared_from(p, *cfg, d));
    }
    d
}

// ---------------------------------------------------------------------------------------
// Ranking
// ---------------------------------------------------------------------------------------

/// How many of `ks` are of kind `k`.
pub open spec fn count_kind(ks: Seq<Kind>, k: Kind) -> nat
    decreases ks.len(),
{
    if ks.len() == 0 {
        0
    } else {
        count_kind(ks.drop_last(), k) + if ks.last() == k {
            1nat
        } else {
            0nat
        }
    }
}

/// Dense ranks within each kind: the keyword at position `i` ranks after every earlier
/// keyword of its kind, so each kind's ranks run 0, 1, 2, … in list order. Ranks are
/// never compared across kinds: scores on unrelated scales would make a single ranked
/// list a fabricated comparison.
pub fn dense_ranks(kinds: &Vec<Kind>) -> (r: Vec<u32>)
    requires
        kinds.len() <= u32::MAX,
    ensures
        r.len() == kinds.len(),
        forall|i: int| 0 <= i < kinds.len() ==> r@[i] == count_kind(kinds@.take(i), kinds@[i]),
{
    let mut next: [u32; 3] = [0, 0, 0];
    let mut r: Vec<u32> = Vec::new();
    let mut i: usize = 0;
    while i < kinds.len()
        invariant
            kinds.len() <= u32::MAX,
            i <= kinds.len(),
            r.len() == i,
            forall|q: int| 0 <= q < i ==> r@[q] == count_kind(kinds@.take(q), kinds@[q]),
            forall|k: Kind| #[trigger] next@[kind_order(k)] == count_kind(kinds@.take(i as int), k),
        decreases kinds.len() - i,
    {
        let k = kinds[i];
        let slot = k.index();
        proof {
            assert(kinds@.take(i + 1).drop_last() =~= kinds@.take(i as int));
            assert(kinds@.take(i + 1).last() == k);
            assert(next@[kind_order(k)] == count_kind(kinds@.take(i as int), k));
            lemma_count_kind_bound(kinds@.take(i as int), k);
        }
        let n = next[slot];
        r.push(n);
        next.set(slot, n + 1);
        proof {
            assert forall|j: Kind| #[trigger] next@[kind_order(j)] == count_kind(kinds@.take(i + 1), j) by {
                if j == k {
                } else {
                    assert(kind_order(j) != kind_order(k));
                }
            }
        }
        i = i + 1;
    }
    r
}

proof fn lemma_count_kind_bound(ks: Seq<Kind>, k: Kind)
    ensures
        count_kind(ks, k) <= ks.len(),
    decreases ks.len(),
{
    if ks.len() > 0 {
        lemma_count_kind_bound(ks.drop_last(), k);
    }
}

/// Within a kind, ranks are distinct and follow list order: a later keyword of the same
/// kind ranks strictly after an earlier one.
pub proof fn lemma_ranks_follow_order(ks: Seq<Kind>, i: int, j: int)
    requires
        0 <= i < j < ks.len(),
        ks[i] == ks[j],
    ensures
        count_kind(ks.take(i), ks[i]) < count_kind(ks.take(j), ks[j]),
    decreases j - i,
{
    assert(ks.take(j).drop_last() =~= ks.take(j - 1));
    if j - 1 == i {
        assert(ks.take(j).last() == ks[i]);
    } else {
        lemma_count_kind_mono(ks, i, j - 1, ks[i]);
        assert(ks.take(j).last() == ks[j - 1]);
    }
}

proof fn lemma_count_kind_mono(ks: Seq<Kind>, a: int, b: int, k: Kind)
    requires
        0 <= a <= b <= ks.len(),
    ensures
        count_kind(ks.take(a), k) + (if a < b && ks[a] == k { 1nat } else { 0nat }) <= count_kind(ks.take(b), k),
    decreases b - a,
{
    if a < b {
        assert(ks.take(b).drop_last() =~= ks.take(b - 1));
        lemma_count_kind_mono(ks, a, b - 1, k);
        if a < b - 1 {
            lemma_count_kind_mono(ks, a, a + 1, k);
            assert(ks.take(a + 1).drop_last() =~= ks.take(a));
        }
    }
}

/// Within a kind, every rank below the kind's count is taken: ranks are dense.
pub proof fn lemma_ranks_dense(ks: Seq<Kind>, k: Kind, m: nat)
    requires
        m < count_kind(ks, k),
    ensures
        exists|i: int| 0 <= i < ks.len() && ks[i] == k && #[trigger] count_kind(ks.take(i), k) == m,
    decreases ks.len(),
{
    let init = ks.drop_last();
    assert(ks.take(ks.len() - 1) =~= init);
    if m < count_kind(init, k) {
        lemma_ranks_dense(init, k, m);
        let i = choose|i: int| 0 <= i < init.len() && init[i] == k && #[trigger] count_kind(init.take(i), k) == m;
        assert(init.take(i) =~= ks.take(i));
        assert(ks[i] == init[i]);
    } else {
        let i = ks.len() - 1;
        assert(ks.last() == k);
        assert(ks.take(i) =~= init);
    }
}

} // verus!
