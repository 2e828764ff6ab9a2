//! The pipeline version stamp.
//!
//! A *computed fingerprint*, never a hand-maintained string. A forgotten manual bump
//! would let two different keyword sets share a version, which is precisely the silent
//! failure the whole design exists to avoid.

use vstd::prelude::*;

use crate::config::{
    config_feed, le_bytes, lemma_feed_identifies_behaviour, lemma_feed_len, lemma_split_tail, push_le,
    same_behaviour, Config,
};
use crate::digest::{blake3_digest, blake3_hash};
use crate::resources::Resources;
use crate::serde_hex::{all_pairs_parse, decode32, decoded_bytes, encode, hex_of};
use vstd::string::StringSliceAdditionalSpecFns;

verus! {

/// Bumped by hand only when extraction *logic* changes in a way not captured by config
/// or dependency versions — a new stage, an altered canonicalisation step.
///
/// History: 1 initial; 2 stopword list read as words rather than lines; 3 ranking
/// hoisted out of Stage 1 so it spans the stage union; 4 Stage 2 (Schwartz–Hearst
/// definitions) added to the union; 5 prose heuristic and Stage 3 (YAKE) added; 6 the
/// prose heuristic measures clauses rather than rendered lines, and wordlist lookups
/// reduce inflections, possessives and irregular forms; 7 NFKC before quote stripping,
/// a rejoined word loses the next line's indent, a number after an abbreviation ends no
/// sentence, CSV is a tabular source, a doubled `s` or `z` is not undoubled, and the
/// lemma list's digest joins the stamp, and a merged name runs across single spaces only.
pub const LOGIC_REVISION: u32 = 7;

/// The crate's own version, which the stamp also covers.
pub const CRATE_VERSION: &'static str = "0.1.0";

/// Resolved versions of the extraction-relevant dependencies, sorted: a parser upgrade
/// that can change extracted text moves the stamp.
pub const PARSER_VERSIONS: &'static str = "calamine=0.38.0,lingua=1.8.0,mail-parser=0.11.9,pdf_oxide=0.3.78,quick-xml=0.42.0,unicode-normalization=0.1.26,zip=9.2.2";

/// The 32-byte fingerprint of everything that decides which keywords a document yields.
/// Written as lowercase hex, matching the digests it sits alongside.
#[derive(Debug, Clone, Copy, PartialEq, Eq, Hash)]
pub struct PipelineVersion(pub [u8; 32]);

/// Everything the stamp hashes, in order: a domain tag, the crate version, the logic
/// revision, the parser versions, every behavioural config field, and the digests of
/// the wordlist, the stopword list and the lemma list.
pub open spec fn stamp_message(cfg: Config, wordlist: Seq<u8>, stopwords: Seq<u8>, lemmas: Seq<u8>) -> Seq<u8> {
    "kep-v1\0".spec_bytes() + CRATE_VERSION.spec_bytes() + seq![0u8] + le_bytes(
        LOGIC_REVISION as nat,
        4,
    ) + PARSER_VERSIONS.spec_bytes() + seq![0u8] + config_feed(cfg) + wordlist + stopwords + lemmas
}

/// Append `b` to `out`.
fn extend_bytes(out: &mut Vec<u8>, b: &[u8])
    ensures
        final(out)@ == old(out)@ + b@,
{
    let ghost start = out@;
    let mut i: usize = 0;
    while i < b.len()
        invariant
            i <= b.len(),
            out@ =~= start + b@.take(i as int),
        decreases b.len() - i,
    {
        out.push(b[i]);
        proof {
            assert(b@.take(i + 1) =~= b@.take(i as int).push(b@[i as int]));
        }
        i = i + 1;
    }
    proof {
        assert(b@.take(b.len() as int) =~= b@);
    }
}

impl PipelineVersion {
    /// Derived from the crate version, the logic revision, the resolved parser versions,
    /// the effective config, and the digests of the active resource lists.
    pub fn compute(cfg: &Config, res: &Resources) -> (r: Self)
        ensures
            r.0@ == blake3_digest(
                stamp_message(*cfg, res.wordlist_fingerprint(), res.stopwords_fingerprint(), res.lemmas_fingerprint()),
            ),
    {
        let mut m: Vec<u8> = Vec::new();
        extend_bytes(&mut m, "kep-v1\0".as_bytes());
        extend_bytes(&mut m, CRATE_VERSION.as_bytes());
        m.push(0u8);
        push_le(&mut m, LOGIC_REVISION as u64, 4);
        extend_bytes(&mut m, PARSER_VERSIONS.as_bytes());
        m.push(0u8);
        let feed = cfg.feed();
        extend_bytes(&mut m, feed.as_slice());
        extend_bytes(&mut m, res.wordlist_digest_bytes().as_slice());
        extend_bytes(&mut m, res.stopwords_digest_bytes().as_slice());
        extend_bytes(&mut m, res.lemmas_digest_bytes().as_slice());
        proof {
            assert(m@ =~= stamp_message(*cfg, res.wordlist_fingerprint(), res.stopwords_fingerprint(), res.lemmas_fingerprint()));
        }
        PipelineVersion(blake3_hash(m.as_slice()))
    }

    /// The fingerprint's bytes.
    pub fn as_bytes(&self) -> (r: &[u8; 32])
        ensures
            r@ == self.0@,
    {
        &self.0
    }

    /// The full 64-character lowercase hex form.
    pub fn to_hex(&self) -> (r: String)
        ensures
            r@ == hex_of(self.0@),
    {
        encode(self.0.as_slice())
    }

    /// Short hex form for logs and filenames: the first six bytes.
    pub fn short(&self) -> (r: String)
        ensures
            r@ == hex_of(self.0@.take(6)),
    {
        let (head, _) = self.0.as_slice().split_at(6);
        encode(head)
    }

    /// Parse the full 64-character hex form, so a stored stamp can be compared against a
    /// freshly computed one.
    pub fn parse_hex(s: &str) -> (r: Result<Self, &'static str>)
        ensures
            s.spec_bytes().len() == 64 && all_pairs_parse(s.spec_bytes()) ==> r is Ok && r->Ok_0.0@
                == decoded_bytes(s.spec_bytes()),
            !(s.spec_bytes().len() == 64 && all_pairs_parse(s.spec_bytes())) ==> r is Err,
    {
        match decode32(s) {
            Ok(b) => Ok(PipelineVersion(b)),
            Err(e) => Err(e),
        }
    }
}

impl std::str::FromStr for PipelineVersion {
    type Err = &'static str;

    fn from_str(s: &str) -> (r: Result<Self, Self::Err>)
        ensures
            s.spec_bytes().len() == 64 && all_pairs_parse(s.spec_bytes()) ==> r is Ok && r->Ok_0.0@
                == decoded_bytes(s.spec_bytes()),
            !(s.spec_bytes().len() == 64 && all_pairs_parse(s.spec_bytes())) ==> r is Err,
    {
        PipelineVersion::parse_hex(s)
    }
}

/// The stamp's message covers everything that decides the keywords: built from
/// fingerprints of a digest's length, two messages agree exactly when the behavioural
/// configuration and all three resource fingerprints agree. `retain_features`, which
/// changes only what is reported, is the one field it leaves out.
pub proof fn lemma_stamp_identifies_inputs(
    a: Config,
    b: Config,
    wa: Seq<u8>,
    wb: Seq<u8>,
    sa: Seq<u8>,
    sb: Seq<u8>,
    la: Seq<u8>,
    lb: Seq<u8>,
)
    requires
        wa.len() == 32,
        wb.len() == 32,
        sa.len() == 32,
        sb.len() == 32,
        la.len() == 32,
        lb.len() == 32,
    ensures
        (stamp_message(a, wa, sa, la) == stamp_message(b, wb, sb, lb)) <==> (same_behaviour(a, b) && wa == wb
            && sa == sb && la == lb),
{
    lemma_feed_identifies_behaviour(a, b);
    if stamp_message(a, wa, sa, la) == stamp_message(b, wb, sb, lb) {
        let head = "kep-v1\0".spec_bytes() + CRATE_VERSION.spec_bytes() + seq![0u8] + le_bytes(LOGIC_REVISION as nat, 4)
            + PARSER_VERSIONS.spec_bytes() + seq![0u8];
        lemma_feed_len(a);
        lemma_feed_len(b);
        lemma_split_tail(head + config_feed(a) + wa + sa, la, head + config_feed(b) + wb + sb, lb);
        lemma_split_tail(head + config_feed(a) + wa, sa, head + config_feed(b) + wb, sb);
        lemma_split_tail(head + config_feed(a), wa, head + config_feed(b), wb);
        lemma_split_tail(head, config_feed(a), head, config_feed(b));
    }
}

} // verus!
