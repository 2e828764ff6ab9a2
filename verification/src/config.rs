//! Tunable parameters. Every field that can change which keywords are emitted feeds
//! [`crate::version::PipelineVersion`] in a fixed order, so changing any of them changes
//! the version stamp and invalidates cached keyword sets.
//!
//! The fractional parameters (thresholds, weights, prose ratios) are single-precision
//! values. The library never does arithmetic on them — scoring happens with the floats
//! themselves, outside it — so here each one is held as its IEEE-754 bit pattern, which
//! is also exactly what the version stamp hashes.

use vstd::prelude::*;

verus! {

/// Parameters for the deterministic prose heuristic that decides whether Stage 3 runs.
#[derive(Debug, Clone, Copy, PartialEq, Eq, Structural)]
pub struct ProseParams {
    /// Minimum mean sentence length in tokens (bit pattern of an `f32`).
    pub min_mean_sentence_len: u32,
    /// Minimum ratio of stopwords to all tokens (bit pattern of an `f32`).
    pub min_stopword_ratio: u32,
    /// Maximum ratio of lines that look like table or field rows (bit pattern of an `f32`).
    pub max_table_line_ratio: u32,
    /// Minimum tokens before the topical stage is worth running at all.
    pub min_tokens: usize,
}

/// Per-kind emission thresholds, each the bit pattern of an `f32`.
#[derive(Debug, Clone, Copy, PartialEq, Eq, Structural)]
pub struct Thresholds {
    pub identifier: u32,
    pub technical: u32,
    /// YAKE scores are *lower is better*; this is an upper bound.
    pub topical: u32,
}

/// Weights for Stage 1's feature vector, each the bit pattern of an `f32`.
#[derive(Debug, Clone, Copy, PartialEq, Eq, Structural)]
pub struct ShapeWeights {
    pub internal_caps: u32,
    pub digit_letter_mix: u32,
    pub separator_segments: u32,
    pub unusual_length: u32,
    pub absent_from_wordlist: u32,
    pub short_all_caps: u32,
    pub in_document_frequency: u32,
}

#[derive(Debug, Clone, Copy, PartialEq, Eq, Structural)]
pub struct Config {
    /// Documents shorter than this many characters are too short to extract from.
    ///
    /// Deliberately near-zero: it means "there is nothing here at all", not "too short to
    /// be worth reading".
    pub min_content_length: usize,
    /// A PDF yielding fewer than this many characters is treated as having no text layer.
    pub no_text_layer_threshold: usize,
    /// How many of the frequency-ranked wordlist entries count as ordinary English.
    pub wordlist_size: usize,
    /// How many of the most frequent wordlist entries are too ordinary for an all-caps
    /// spelling of them to be an acronym rather than shouting.
    pub acronym_wordlist_depth: usize,
    pub thresholds: Thresholds,
    pub shape_weights: ShapeWeights,
    pub prose: ProseParams,
    /// Strip quoted blocks and signatures from email.
    pub strip_quoted_blocks: bool,
    /// Run Stage 2 (Schwartz–Hearst definitions).
    pub enable_definitions: bool,
    /// Run Stage 3 (YAKE), subject to the prose heuristic.
    pub enable_topical: bool,
    pub yake_ngram_max: usize,
    /// Retain Stage 1's feature vector on every emitted keyword. Reporting only, and so
    /// deliberately absent from [`Config::feed`].
    pub retain_features: bool,
}

pub open spec fn default_prose() -> ProseParams {
    ProseParams {
        min_mean_sentence_len: 0x4100_0000,  // 8.0
        min_stopword_ratio: 0x3e4c_cccd,  // 0.20
        max_table_line_ratio: 0x3ecc_cccd,  // 0.40
        min_tokens: 120,
    }
}

pub open spec fn default_thresholds() -> Thresholds {
    Thresholds {
        identifier: 0x3f0c_cccd,  // 0.55
        technical: 0x3ec2_8f5c,  // 0.38
        topical: 0x3e19_999a,  // 0.15
    }
}

pub open spec fn default_weights() -> ShapeWeights {
    ShapeWeights {
        internal_caps: 0x3df5_c28f,  // 0.12
        digit_letter_mix: 0x3e80_0000,  // 0.25
        separator_segments: 0x3df5_c28f,  // 0.12
        unusual_length: 0x3cf5_c28f,  // 0.03
        absent_from_wordlist: 0x3ecc_cccd,  // 0.40
        short_all_caps: 0x3d75_c28f,  // 0.06
        in_document_frequency: 0x3ca3_d70a,  // 0.02
    }
}

pub open spec fn default_config() -> Config {
    Config {
        min_content_length: 16,
        no_text_layer_threshold: 32,
        wordlist_size: 65_000,
        acronym_wordlist_depth: 20_000,
        thresholds: default_thresholds(),
        shape_weights: default_weights(),
        prose: default_prose(),
        strip_quoted_blocks: true,
        enable_definitions: true,
        enable_topical: true,
        yake_ngram_max: 3,
        retain_features: false,
    }
}

impl Default for ProseParams {
    fn default() -> (r: Self)
        ensures
            r == default_prose(),
    {
        ProseParams {
            min_mean_sentence_len: 0x4100_0000,
            min_stopword_ratio: 0x3e4c_cccd,
            max_table_line_ratio: 0x3ecc_cccd,
            min_tokens: 120,
        }
    }
}

impl Default for Thresholds {
    fn default() -> (r: Self)
        ensures
            r == default_thresholds(),
    {
        Thresholds { identifier: 0x3f0c_cccd, technical: 0x3ec2_8f5c, topical: 0x3e19_999a }
    }
}

impl Default for ShapeWeights {
    /// Absence from general English dominates because for a purely alphabetic technical
    /// term it is the *only* available signal: `chromatography` has no digits, no
    /// separators and no internal capitals.
    fn default() -> (r: Self)
        ensures
            r == default_weights(),
    {
        ShapeWeights {
            internal_caps: 0x3df5_c28f,
            digit_letter_mix: 0x3e80_0000,
            separator_segments: 0x3df5_c28f,
            unusual_length: 0x3cf5_c28f,
            absent_from_wordlist: 0x3ecc_cccd,
            short_all_caps: 0x3d75_c28f,
            in_document_frequency: 0x3ca3_d70a,
        }
    }
}

impl Default for Config {
    fn default() -> (r: Self)
        ensures
            r == default_config(),
    {
        Config {
            min_content_length: 16,
            no_text_layer_threshold: 32,
            wordlist_size: 65_000,
            acronym_wordlist_depth: 20_000,
            thresholds: Thresholds::default(),
            shape_weights: ShapeWeights::default(),
            prose: ProseParams::default(),
            strip_quoted_blocks: true,
            enable_definitions: true,
            enable_topical: true,
            yake_ngram_max: 3,
            retain_features: false,
        }
    }
}

/// The `n` little-endian bytes of `v`.
pub open spec fn le_bytes(v: nat, n: nat) -> Seq<u8>
    decreases n,
{
    if n == 0 {
        Seq::empty()
    } else {
        seq![(v % 256) as u8] + le_bytes(v / 256, (n - 1) as nat)
    }
}

/// Append the `n` little-endian bytes of `v` to `out`.
pub fn push_le(out: &mut Vec<u8>, v: u64, n: usize)
    requires
        n <= 8,
    ensures
        final(out)@ == old(out)@ + le_bytes(v as nat, n as nat),
{
    let mut rest = v;
    let mut k: usize = 0;
    let ghost start = out@;
    while k < n
        invariant
            k <= n <= 8,
            start == old(out)@,
            out@ + le_bytes(rest as nat, (n - k) as nat) == start + le_bytes(v as nat, n as nat),
        decreases n - k,
    {
        proof {
            assert(le_bytes(rest as nat, (n - k) as nat) =~= seq![(rest % 256) as u8] + le_bytes(
                (rest / 256) as nat,
                (n - k - 1) as nat,
            ));
            assert(out@.push((rest % 256) as u8) + le_bytes((rest / 256) as nat, (n - k - 1) as nat)
                =~= out@ + le_bytes(rest as nat, (n - k) as nat));
        }
        out.push((rest % 256) as u8);
        rest = rest / 256;
        k = k + 1;
    }
    proof {
        assert(le_bytes(rest as nat, 0) =~= Seq::<u8>::empty());
        assert(out@ + Seq::<u8>::empty() =~= out@);
    }
}

/// The bytes every behavioural field contributes to the version stamp, in a fixed,
/// explicit order: the three size limits and the acronym depth as 8-byte integers, the
/// thresholds, weights and prose ratios as 4-byte float patterns, the minimum token count,
/// the three switches as one byte each, and the n-gram limit.
pub open spec fn config_feed(c: Config) -> Seq<u8> {
    le_bytes(c.min_content_length as nat, 8) + le_bytes(c.no_text_layer_threshold as nat, 8)
        + le_bytes(c.wordlist_size as nat, 8) + le_bytes(c.acronym_wordlist_depth as nat, 8)
        + le_bytes(c.thresholds.identifier as nat, 4) + le_bytes(c.thresholds.technical as nat, 4)
        + le_bytes(c.thresholds.topical as nat, 4) + le_bytes(c.shape_weights.internal_caps as nat, 4)
        + le_bytes(c.shape_weights.digit_letter_mix as nat, 4) + le_bytes(
        c.shape_weights.separator_segments as nat,
        4,
    ) + le_bytes(c.shape_weights.unusual_length as nat, 4) + le_bytes(
        c.shape_weights.absent_from_wordlist as nat,
        4,
    ) + le_bytes(c.shape_weights.short_all_caps as nat, 4) + le_bytes(
        c.shape_weights.in_document_frequency as nat,
        4,
    ) + le_bytes(c.prose.min_mean_sentence_len as nat, 4) + le_bytes(
        c.prose.min_stopword_ratio as nat,
        4,
    ) + le_bytes(c.prose.max_table_line_ratio as nat, 4) + le_bytes(c.prose.min_tokens as nat, 8)
        + seq![
        if c.strip_quoted_blocks {
            1u8
        } else {
            0u8
        },
        if c.enable_definitions {
            1u8
        } else {
            0u8
        },
        if c.enable_topical {
            1u8
        } else {
            0u8
        },
    ] + le_bytes(c.yake_ngram_max as nat, 8)
}

impl Config {
    /// Every behavioural field as bytes, in a fixed, explicit order.
    ///
    /// Deliberately not derived from a serialiser: field ordering in a serialised form is
    /// an implementation detail, and the version stamp must not depend on one.
    /// `retain_features` cannot change which keywords are emitted and is left out.
    pub fn feed(&self) -> (out: Vec<u8>)
        ensures
            out@ == config_feed(*self),
    {
        let mut out: Vec<u8> = Vec::new();
        push_le(&mut out, self.min_content_length as u64, 8);
        proof {
            assert(out@ =~= le_bytes(self.min_content_length as nat, 8));
        }
        push_le(&mut out, self.no_text_layer_threshold as u64, 8);
        push_le(&mut out, self.wordlist_size as u64, 8);
        push_le(&mut out, self.acronym_wordlist_depth as u64, 8);
        push_le(&mut out, self.thresholds.identifier as u64, 4);
        push_le(&mut out, self.thresholds.technical as u64, 4);
        push_le(&mut out, self.thresholds.topical as u64, 4);
        push_le(&mut out, self.shape_weights.internal_caps as u64, 4);
        push_le(&mut out, self.shape_weights.digit_letter_mix as u64, 4);
        push_le(&mut out, self.shape_weights.separator_segments as u64, 4);
        push_le(&mut out, self.shape_weights.unusual_length as u64, 4);
        push_le(&mut out, self.shape_weights.absent_from_wordlist as u64, 4);
        push_le(&mut out, self.shape_weights.short_all_caps as u64, 4);
        push_le(&mut out, self.shape_weights.in_document_frequency as u64, 4);
        push_le(&mut out, self.prose.min_mean_sentence_len as u64, 4);
        push_le(&mut out, self.prose.min_stopword_ratio as u64, 4);
        push_le(&mut out, self.prose.max_table_line_ratio as u64, 4);
        push_le(&mut out, self.prose.min_tokens as u64, 8);
        let ghost before_flags = out@;
        out.push(if self.strip_quoted_blocks { 1u8 } else { 0u8 });
        out.push(if self.enable_definitions { 1u8 } else { 0u8 });
        out.push(if self.enable_topical { 1u8 } else { 0u8 });
        proof {
            assert(out@ =~= before_flags + seq![
                if self.strip_quoted_blocks { 1u8 } else { 0u8 },
                if self.enable_definitions { 1u8 } else { 0u8 },
                if self.enable_topical { 1u8 } else { 0u8 },
            ]);
        }
        push_le(&mut out, self.yake_ngram_max as u64, 8);
        out
    }
}

/// `256` to the `n`.
pub open spec fn pow256(n: nat) -> nat
    decreases n,
{
    if n == 0 {
        1
    } else {
        256 * pow256((n - 1) as nat)
    }
}

pub proof fn lemma_le_bytes_len(v: nat, n: nat)
    ensures
        le_bytes(v, n).len() == n,
    decreases n,
{
    if n > 0 {
        lemma_le_bytes_len(v / 256, (n - 1) as nat);
    }
}

/// Fixed-width little-endian encoding is injective on the values that fit.
pub proof fn lemma_le_bytes_injective(a: nat, b: nat, n: nat)
    requires
        a < pow256(n),
        b < pow256(n),
        le_bytes(a, n) == le_bytes(b, n),
    ensures
        a == b,
    decreases n,
{
    if n > 0 {
        let m = (n - 1) as nat;
        lemma_le_bytes_len(a / 256, m);
        lemma_le_bytes_len(b / 256, m);
        assert(le_bytes(a, n)[0] == le_bytes(b, n)[0]);
        assert(le_bytes(a / 256, m) =~= le_bytes(a, n).skip(1));
        assert(le_bytes(b / 256, m) =~= le_bytes(b, n).skip(1));
        let p = pow256(m);
        assert(a / 256 < p) by (nonlinear_arith)
            requires
                a < 256 * p,
        ;
        assert(b / 256 < p) by (nonlinear_arith)
            requires
                b < 256 * p,
        ;
        lemma_le_bytes_injective(a / 256, b / 256, m);
        assert(le_bytes(a, n)[0] == (a % 256) as u8);
        assert(le_bytes(b, n)[0] == (b % 256) as u8);
        assert(a % 256 < 256 && b % 256 < 256);
        assert(a % 256 == b % 256);
        assert(a == 256 * (a / 256) + a % 256) by (nonlinear_arith);
        assert(b == 256 * (b / 256) + b % 256) by (nonlinear_arith);
    }
}

/// Equal concatenations whose tails have equal lengths have equal heads and tails.
pub proof fn lemma_split_tail<T>(a: Seq<T>, x: Seq<T>, b: Seq<T>, y: Seq<T>)
    requires
        a + x == b + y,
        x.len() == y.len(),
    ensures
        a == b,
        x == y,
{
    assert(a =~= (a + x).take(a.len() as int));
    assert(b =~= (b + y).take(b.len() as int));
    assert(x =~= (a + x).skip(a.len() as int));
    assert(y =~= (b + y).skip(b.len() as int));
}

/// Every behavioural field of `a` equals that of `b`: all but `retain_features`.
pub open spec fn same_behaviour(a: Config, b: Config) -> bool {
    &&& a.min_content_length == b.min_content_length
    &&& a.no_text_layer_threshold == b.no_text_layer_threshold
    &&& a.wordlist_size == b.wordlist_size
    &&& a.acronym_wordlist_depth == b.acronym_wordlist_depth
    &&& a.thresholds == b.thresholds
    &&& a.shape_weights == b.shape_weights
    &&& a.prose == b.prose
    &&& a.strip_quoted_blocks == b.strip_quoted_blocks
    &&& a.enable_definitions == b.enable_definitions
    &&& a.enable_topical == b.enable_topical
    &&& a.yake_ngram_max == b.yake_ngram_max
}

proof fn lemma_pow256_bounds()
    ensures
        pow256(4) == 0x1_0000_0000,
        pow256(8) == 0x1_0000_0000_0000_0000,
{
    reveal_with_fuel(pow256, 9);
}

/// The feed tells every behavioural configuration apart, and ignores `retain_features`,
/// which cannot change which keywords are emitted: two configurations have the same feed
/// exactly when every behavioural field agrees.
pub proof fn lemma_feed_identifies_behaviour(a: Config, b: Config)
    ensures
        (config_feed(a) == config_feed(b)) <==> same_behaviour(a, b),
{
    if config_feed(a) == config_feed(b) {
        lemma_pow256_bounds();
        let fa = config_feed(a);
        let fb = config_feed(b);
        let n8: nat = 8;
        let n4: nat = 4;
        lemma_le_bytes_len(a.yake_ngram_max as nat, n8);
        lemma_le_bytes_len(b.yake_ngram_max as nat, n8);
        let la = le_bytes(a.min_content_length as nat, 8) + le_bytes(a.no_text_layer_threshold as nat, 8)
            + le_bytes(a.wordlist_size as nat, 8) + le_bytes(a.acronym_wordlist_depth as nat, 8)
            + le_bytes(a.thresholds.identifier as nat, 4) + le_bytes(a.thresholds.technical as nat, 4)
            + le_bytes(a.thresholds.topical as nat, 4) + le_bytes(a.shape_weights.internal_caps as nat, 4)
            + le_bytes(a.shape_weights.digit_letter_mix as nat, 4) + le_bytes(a.shape_weights.separator_segments as nat, 4)
            + le_bytes(a.shape_weights.unusual_length as nat, 4) + le_bytes(a.shape_weights.absent_from_wordlist as nat, 4)
            + le_bytes(a.shape_weights.short_all_caps as nat, 4) + le_bytes(a.shape_weights.in_document_frequency as nat, 4)
            + le_bytes(a.prose.min_mean_sentence_len as nat, 4) + le_bytes(a.prose.min_stopword_ratio as nat, 4)
            + le_bytes(a.prose.max_table_line_ratio as nat, 4) + le_bytes(a.prose.min_tokens as nat, 8);
        let lb = le_bytes(b.min_content_length as nat, 8) + le_bytes(b.no_text_layer_threshold as nat, 8)
            + le_bytes(b.wordlist_size as nat, 8) + le_bytes(b.acronym_wordlist_depth as nat, 8)
            + le_bytes(b.thresholds.identifier as nat, 4) + le_bytes(b.thresholds.technical as nat, 4)
            + le_bytes(b.thresholds.topical as nat, 4) + le_bytes(b.shape_weights.internal_caps as nat, 4)
            + le_bytes(b.shape_weights.digit_letter_mix as nat, 4) + le_bytes(b.shape_weights.separator_segments as nat, 4)
            + le_bytes(b.shape_weights.unusual_length as nat, 4) + le_bytes(b.shape_weights.absent_from_wordlist as nat, 4)
            + le_bytes(b.shape_weights.short_all_caps as nat, 4) + le_bytes(b.shape_weights.in_document_frequency as nat, 4)
            + le_bytes(b.prose.min_mean_sentence_len as nat, 4) + le_bytes(b.prose.min_stopword_ratio as nat, 4)
            + le_bytes(b.prose.max_table_line_ratio as nat, 4) + le_bytes(b.prose.min_tokens as nat, 8);
        let flags_a = seq![
            if a.strip_quoted_blocks { 1u8 } else { 0u8 },
            if a.enable_definitions { 1u8 } else { 0u8 },
            if a.enable_topical { 1u8 } else { 0u8 },
        ];
        let flags_b = seq![
            if b.strip_quoted_blocks { 1u8 } else { 0u8 },
            if b.enable_definitions { 1u8 } else { 0u8 },
            if b.enable_topical { 1u8 } else { 0u8 },
        ];
        assert(fa == la + flags_a + le_bytes(a.yake_ngram_max as nat, 8));
        assert(fb == lb + flags_b + le_bytes(b.yake_ngram_max as nat, 8));
        lemma_split_tail(la + flags_a, le_bytes(a.yake_ngram_max as nat, 8), lb + flags_b, le_bytes(b.yake_ngram_max as nat, 8));
        lemma_le_bytes_injective(a.yake_ngram_max as nat, b.yake_ngram_max as nat, 8);
        lemma_split_tail(la, flags_a, lb, flags_b);
        assert(flags_a[0] == flags_b[0] && flags_a[1] == flags_b[1] && flags_a[2] == flags_b[2]);
        lemma_peel_fields(a, b, la, lb);
        assert(a.thresholds == b.thresholds);
        assert(a.shape_weights == b.shape_weights);
        assert(a.prose == b.prose);
    }
}

/// Peel one fixed-width field off the end of two equal feeds.
proof fn lemma_peel(ha: Seq<u8>, va: nat, hb: Seq<u8>, vb: nat, n: nat)
    requires
        ha + le_bytes(va, n) == hb + le_bytes(vb, n),
        va < pow256(n),
        vb < pow256(n),
    ensures
        ha == hb,
        va == vb,
{
    lemma_le_bytes_len(va, n);
    lemma_le_bytes_len(vb, n);
    lemma_split_tail(ha, le_bytes(va, n), hb, le_bytes(vb, n));
    lemma_le_bytes_injective(va, vb, n);
}

/// The fixed-width fields of two equal feed prefixes agree one by one.
proof fn lemma_peel_fields(a: Config, b: Config, la: Seq<u8>, lb: Seq<u8>)
    requires
        la == le_bytes(a.min_content_length as nat, 8) + le_bytes(a.no_text_layer_threshold as nat, 8) + le_bytes(a.wordlist_size as nat, 8) + le_bytes(a.acronym_wordlist_depth as nat, 8) + le_bytes(a.thresholds.identifier as nat, 4) + le_bytes(a.thresholds.technical as nat, 4) + le_bytes(a.thresholds.topical as nat, 4) + le_bytes(a.shape_weights.internal_caps as nat, 4) + le_bytes(a.shape_weights.digit_letter_mix as nat, 4) + le_bytes(a.shape_weights.separator_segments as nat, 4) + le_bytes(a.shape_weights.unusual_length as nat, 4) + le_bytes(a.shape_weights.absent_from_wordlist as nat, 4) + le_bytes(a.shape_weights.short_all_caps as nat, 4) + le_bytes(a.shape_weights.in_document_frequency as nat, 4) + le_bytes(a.prose.min_mean_sentence_len as nat, 4) + le_bytes(a.prose.min_stopword_ratio as nat, 4) + le_bytes(a.prose.max_table_line_ratio as nat, 4) + le_bytes(a.prose.min_tokens as nat, 8),
        lb == le_bytes(b.min_content_length as nat, 8) + le_bytes(b.no_text_layer_threshold as nat, 8) + le_bytes(b.wordlist_size as nat, 8) + le_bytes(b.acronym_wordlist_depth as nat, 8) + le_bytes(b.thresholds.identifier as nat, 4) + le_bytes(b.thresholds.technical as nat, 4) + le_bytes(b.thresholds.topical as nat, 4) + le_bytes(b.shape_weights.internal_caps as nat, 4) + le_bytes(b.shape_weights.digit_letter_mix as nat, 4) + le_bytes(b.shape_weights.separator_segments as nat, 4) + le_bytes(b.shape_weights.unusual_length as nat, 4) + le_bytes(b.shape_weights.absent_from_wordlist as nat, 4) + le_bytes(b.shape_weights.short_all_caps as nat, 4) + le_bytes(b.shape_weights.in_document_frequency as nat, 4) + le_bytes(b.prose.min_mean_sentence_len as nat, 4) + le_bytes(b.prose.min_stopword_ratio as nat, 4) + le_bytes(b.prose.max_table_line_ratio as nat, 4) + le_bytes(b.prose.min_tokens as nat, 8),
        la == lb,
    ensures
        a.min_content_length == b.min_content_length,
        a.no_text_layer_threshold == b.no_text_layer_threshold,
        a.wordlist_size == b.wordlist_size,
        a.acronym_wordlist_depth == b.acronym_wordlist_depth,
        a.thresholds.identifier == b.thresholds.identifier,
        a.thresholds.technical == b.thresholds.technical,
        a.thresholds.topical == b.thresholds.topical,
        a.shape_weights.internal_caps == b.shape_weights.internal_caps,
        a.shape_weights.digit_letter_mix == b.shape_weights.digit_letter_mix,
        a.shape_weights.separator_segments == b.shape_weights.separator_segments,
        a.shape_weights.unusual_length == b.shape_weights.unusual_length,
        a.shape_weights.absent_from_wordlist == b.shape_weights.absent_from_wordlist,
        a.shape_weights.short_all_caps == b.shape_weights.short_all_caps,
        a.shape_weights.in_document_frequency == b.shape_weights.in_document_frequency,
        a.prose.min_mean_sentence_len == b.prose.min_mean_sentence_len,
        a.prose.min_stopword_ratio == b.prose.min_stopword_ratio,
        a.prose.max_table_line_ratio == b.prose.max_table_line_ratio,
        a.prose.min_tokens == b.prose.min_tokens,
{
    lemma_pow256_bounds();
    let pa17 = le_bytes(a.min_content_length as nat, 8) + le_bytes(a.no_text_layer_threshold as nat, 8) + le_bytes(a.wordlist_size as nat, 8) + le_bytes(a.acronym_wordlist_depth as nat, 8) + le_bytes(a.thresholds.identifier as nat, 4) + le_bytes(a.thresholds.technical as nat, 4) + le_bytes(a.thresholds.topical as nat, 4) + le_bytes(a.shape_weights.internal_caps as nat, 4) + le_bytes(a.shape_weights.digit_letter_mix as nat, 4) + le_bytes(a.shape_weights.separator_segments as nat, 4) + le_bytes(a.shape_weights.unusual_length as nat, 4) + le_bytes(a.shape_weights.absent_from_wordlist as nat, 4) + le_bytes(a.shape_weights.short_all_caps as nat, 4) + le_bytes(a.shape_weights.in_document_frequency as nat, 4) + le_bytes(a.prose.min_mean_sentence_len as nat, 4) + le_bytes(a.prose.min_stopword_ratio as nat, 4) + le_bytes(a.prose.max_table_line_ratio as nat, 4);
    let pb17 = le_bytes(b.min_content_length as nat, 8) + le_bytes(b.no_text_layer_threshold as nat, 8) + le_bytes(b.wordlist_size as nat, 8) + le_bytes(b.acronym_wordlist_depth as nat, 8) + le_bytes(b.thresholds.identifier as nat, 4) + le_bytes(b.thresholds.technical as nat, 4) + le_bytes(b.thresholds.topical as nat, 4) + le_bytes(b.shape_weights.internal_caps as nat, 4) + le_bytes(b.shape_weights.digit_letter_mix as nat, 4) + le_bytes(b.shape_weights.separator_segments as nat, 4) + le_bytes(b.shape_weights.unusual_length as nat, 4) + le_bytes(b.shape_weights.absent_from_wordlist as nat, 4) + le_bytes(b.shape_weights.short_all_caps as nat, 4) + le_bytes(b.shape_weights.in_document_frequency as nat, 4) + le_bytes(b.prose.min_mean_sentence_len as nat, 4) + le_bytes(b.prose.min_stopword_ratio as nat, 4) + le_bytes(b.prose.max_table_line_ratio as nat, 4);
    assert(la == pa17 + le_bytes(a.prose.min_tokens as nat, 8));
    assert(lb == pb17 + le_bytes(b.prose.min_tokens as nat, 8));
    lemma_peel(pa17, a.prose.min_tokens as nat, pb17, b.prose.min_tokens as nat, 8);
    let pa16 = le_bytes(a.min_content_length as nat, 8) + le_bytes(a.no_text_layer_threshold as nat, 8) + le_bytes(a.wordlist_size as nat, 8) + le_bytes(a.acronym_wordlist_depth as nat, 8) + le_bytes(a.thresholds.identifier as nat, 4) + le_bytes(a.thresholds.technical as nat, 4) + le_bytes(a.thresholds.topical as nat, 4) + le_bytes(a.shape_weights.internal_caps as nat, 4) + le_bytes(a.shape_weights.digit_letter_mix as nat, 4) + le_bytes(a.shape_weights.separator_segments as nat, 4) + le_bytes(a.shape_weights.unusual_length as nat, 4) + le_bytes(a.shape_weights.absent_from_wordlist as nat, 4) + le_bytes(a.shape_weights.short_all_caps as nat, 4) + le_bytes(a.shape_weights.in_document_frequency as nat, 4) + le_bytes(a.prose.min_mean_sentence_len as nat, 4) + le_bytes(a.prose.min_stopword_ratio as nat, 4);
    let pb16 = le_bytes(b.min_content_length as nat, 8) + le_bytes(b.no_text_layer_threshold as nat, 8) + le_bytes(b.wordlist_size as nat, 8) + le_bytes(b.acronym_wordlist_depth as nat, 8) + le_bytes(b.thresholds.identifier as nat, 4) + le_bytes(b.thresholds.technical as nat, 4) + le_bytes(b.thresholds.topical as nat, 4) + le_bytes(b.shape_weights.internal_caps as nat, 4) + le_bytes(b.shape_weights.digit_letter_mix as nat, 4) + le_bytes(b.shape_weights.separator_segments as nat, 4) + le_bytes(b.shape_weights.unusual_length as nat, 4) + le_bytes(b.shape_weights.absent_from_wordlist as nat, 4) + le_bytes(b.shape_weights.short_all_caps as nat, 4) + le_bytes(b.shape_weights.in_document_frequency as nat, 4) + le_bytes(b.prose.min_mean_sentence_len as nat, 4) + le_bytes(b.prose.min_stopword_ratio as nat, 4);
    assert(pa17 == pa16 + le_bytes(a.prose.max_table_line_ratio as nat, 4));
    assert(pb17 == pb16 + le_bytes(b.prose.max_table_line_ratio as nat, 4));
    lemma_peel(pa16, a.prose.max_table_line_ratio as nat, pb16, b.prose.max_table_line_ratio as nat, 4);
    let pa15 = le_bytes(a.min_content_length as nat, 8) + le_bytes(a.no_text_layer_threshold as nat, 8) + le_bytes(a.wordlist_size as nat, 8) + le_bytes(a.acronym_wordlist_depth as nat, 8) + le_bytes(a.thresholds.identifier as nat, 4) + le_bytes(a.thresholds.technical as nat, 4) + le_bytes(a.thresholds.topical as nat, 4) + le_bytes(a.shape_weights.internal_caps as nat, 4) + le_bytes(a.shape_weights.digit_letter_mix as nat, 4) + le_bytes(a.shape_weights.separator_segments as nat, 4) + le_bytes(a.shape_weights.unusual_length as nat, 4) + le_bytes(a.shape_weights.absent_from_wordlist as nat, 4) + le_bytes(a.shape_weights.short_all_caps as nat, 4) + le_bytes(a.shape_weights.in_document_frequency as nat, 4) + le_bytes(a.prose.min_mean_sentence_len as nat, 4);
    let pb15 = le_bytes(b.min_content_length as nat, 8) + le_bytes(b.no_text_layer_threshold as nat, 8) + le_bytes(b.wordlist_size as nat, 8) + le_bytes(b.acronym_wordlist_depth as nat, 8) + le_bytes(b.thresholds.identifier as nat, 4) + le_bytes(b.thresholds.technical as nat, 4) + le_bytes(b.thresholds.topical as nat, 4) + le_bytes(b.shape_weights.internal_caps as nat, 4) + le_bytes(b.shape_weights.digit_letter_mix as nat, 4) + le_bytes(b.shape_weights.separator_segments as nat, 4) + le_bytes(b.shape_weights.unusual_length as nat, 4) + le_bytes(b.shape_weights.absent_from_wordlist as nat, 4) + le_bytes(b.shape_weights.short_all_caps as nat, 4) + le_bytes(b.shape_weights.in_document_frequency as nat, 4) + le_bytes(b.prose.min_mean_sentence_len as nat, 4);
    assert(pa16 == pa15 + le_bytes(a.prose.min_stopword_ratio as nat, 4));
    assert(pb16 == pb15 + le_bytes(b.prose.min_stopword_ratio as nat, 4));
    lemma_peel(pa15, a.prose.min_stopword_ratio as nat, pb15, b.prose.min_stopword_ratio as nat, 4);
    let pa14 = le_bytes(a.min_content_length as nat, 8) + le_bytes(a.no_text_layer_threshold as nat, 8) + le_bytes(a.wordlist_size as nat, 8) + le_bytes(a.acronym_wordlist_depth as nat, 8) + le_bytes(a.thresholds.identifier as nat, 4) + le_bytes(a.thresholds.technical as nat, 4) + le_bytes(a.thresholds.topical as nat, 4) + le_bytes(a.shape_weights.internal_caps as nat, 4) + le_bytes(a.shape_weights.digit_letter_mix as nat, 4) + le_bytes(a.shape_weights.separator_segments as nat, 4) + le_bytes(a.shape_weights.unusual_length as nat, 4) + le_bytes(a.shape_weights.absent_from_wordlist as nat, 4) + le_bytes(a.shape_weights.short_all_caps as nat, 4) + le_bytes(a.shape_weights.in_document_frequency as nat, 4);
    let pb14 = le_bytes(b.min_content_length as nat, 8) + le_bytes(b.no_text_layer_threshold as nat, 8) + le_bytes(b.wordlist_size as nat, 8) + le_bytes(b.acronym_wordlist_depth as nat, 8) + le_bytes(b.thresholds.identifier as nat, 4) + le_bytes(b.thresholds.technical as nat, 4) + le_bytes(b.thresholds.topical as nat, 4) + le_bytes(b.shape_weights.internal_caps as nat, 4) + le_bytes(b.shape_weights.digit_letter_mix as nat, 4) + le_bytes(b.shape_weights.separator_segments as nat, 4) + le_bytes(b.shape_weights.unusual_length as nat, 4) + le_bytes(b.shape_weights.absent_from_wordlist as nat, 4) + le_bytes(b.shape_weights.short_all_caps as nat, 4) + le_bytes(b.shape_weights.in_document_frequency as nat, 4);
    assert(pa15 == pa14 + le_bytes(a.prose.min_mean_sentence_len as nat, 4));
    assert(pb15 == pb14 + le_bytes(b.prose.min_mean_sentence_len as nat, 4));
    lemma_peel(pa14, a.prose.min_mean_sentence_len as nat, pb14, b.prose.min_mean_sentence_len as nat, 4);
    let pa13 = le_bytes(a.min_content_length as nat, 8) + le_bytes(a.no_text_layer_threshold as nat, 8) + le_bytes(a.wordlist_size as nat, 8) + le_bytes(a.acronym_wordlist_depth as nat, 8) + le_bytes(a.thresholds.identifier as nat, 4) + le_bytes(a.thresholds.technical as nat, 4) + le_bytes(a.thresholds.topical as nat, 4) + le_bytes(a.shape_weights.internal_caps as nat, 4) + le_bytes(a.shape_weights.digit_letter_mix as nat, 4) + le_bytes(a.shape_weights.separator_segments as nat, 4) + le_bytes(a.shape_weights.unusual_length as nat, 4) + le_bytes(a.shape_weights.absent_from_wordlist as nat, 4) + le_bytes(a.shape_weights.short_all_caps as nat, 4);
    let pb13 = le_bytes(b.min_content_length as nat, 8) + le_bytes(b.no_text_layer_threshold as nat, 8) + le_bytes(b.wordlist_size as nat, 8) + le_bytes(b.acronym_wordlist_depth as nat, 8) + le_bytes(b.thresholds.identifier as nat, 4) + le_bytes(b.thresholds.technical as nat, 4) + le_bytes(b.thresholds.topical as nat, 4) + le_bytes(b.shape_weights.internal_caps as nat, 4) + le_bytes(b.shape_weights.digit_letter_mix as nat, 4) + le_bytes(b.shape_weights.separator_segments as nat, 4) + le_bytes(b.shape_weights.unusual_length as nat, 4) + le_bytes(b.shape_weights.absent_from_wordlist as nat, 4) + le_bytes(b.shape_weights.short_all_caps as nat, 4);
    assert(pa14 == pa13 + le_bytes(a.shape_weights.in_document_frequency as nat, 4));
    assert(pb14 == pb13 + le_bytes(b.shape_weights.in_document_frequency as nat, 4));
    lemma_peel(pa13, a.shape_weights.in_document_frequency as nat, pb13, b.shape_weights.in_document_frequency as nat, 4);
    let pa12 = le_bytes(a.min_content_length as nat, 8) + le_bytes(a.no_text_layer_threshold as nat, 8) + le_bytes(a.wordlist_size as nat, 8) + le_bytes(a.acronym_wordlist_depth as nat, 8) + le_bytes(a.thresholds.identifier as nat, 4) + le_bytes(a.thresholds.technical as nat, 4) + le_bytes(a.thresholds.topical as nat, 4) + le_bytes(a.shape_weights.internal_caps as nat, 4) + le_bytes(a.shape_weights.digit_letter_mix as nat, 4) + le_bytes(a.shape_weights.separator_segments as nat, 4) + le_bytes(a.shape_weights.unusual_length as nat, 4) + le_bytes(a.shape_weights.absent_from_wordlist as nat, 4);
    let pb12 = le_bytes(b.min_content_length as nat, 8) + le_bytes(b.no_text_layer_threshold as nat, 8) + le_bytes(b.wordlist_size as nat, 8) + le_bytes(b.acronym_wordlist_depth as nat, 8) + le_bytes(b.thresholds.identifier as nat, 4) + le_bytes(b.thresholds.technical as nat, 4) + le_bytes(b.thresholds.topical as nat, 4) + le_bytes(b.shape_weights.internal_caps as nat, 4) + le_bytes(b.shape_weights.digit_letter_mix as nat, 4) + le_bytes(b.shape_weights.separator_segments as nat, 4) + le_bytes(b.shape_weights.unusual_length as nat, 4) + le_bytes(b.shape_weights.absent_from_wordlist as nat, 4);
    assert(pa13 == pa12 + le_bytes(a.shape_weights.short_all_caps as nat, 4));
    assert(pb13 == pb12 + le_bytes(b.shape_weights.short_all_caps as nat, 4));
    lemma_peel(pa12, a.shape_weights.short_all_caps as nat, pb12, b.shape_weights.short_all_caps as nat, 4);
    let pa11 = le_bytes(a.min_content_length as nat, 8) + le_bytes(a.no_text_layer_threshold as nat, 8) + le_bytes(a.wordlist_size as nat, 8) + le_bytes(a.acronym_wordlist_depth as nat, 8) + le_bytes(a.thresholds.identifier as nat, 4) + le_bytes(a.thresholds.technical as nat, 4) + le_bytes(a.thresholds.topical as nat, 4) + le_bytes(a.shape_weights.internal_caps as nat, 4) + le_bytes(a.shape_weights.digit_letter_mix as nat, 4) + le_bytes(a.shape_weights.separator_segments as nat, 4) + le_bytes(a.shape_weights.unusual_length as nat, 4);
    let pb11 = le_bytes(b.min_content_length as nat, 8) + le_bytes(b.no_text_layer_threshold as nat, 8) + le_bytes(b.wordlist_size as nat, 8) + le_bytes(b.acronym_wordlist_depth as nat, 8) + le_bytes(b.thresholds.identifier as nat, 4) + le_bytes(b.thresholds.technical as nat, 4) + le_bytes(b.thresholds.topical as nat, 4) + le_bytes(b.shape_weights.internal_caps as nat, 4) + le_bytes(b.shape_weights.digit_letter_mix as nat, 4) + le_bytes(b.shape_weights.separator_segments as nat, 4) + le_bytes(b.shape_weights.unusual_length as nat, 4);
    assert(pa12 == pa11 + le_bytes(a.shape_weights.absent_from_wordlist as nat, 4));
    assert(pb12 == pb11 + le_bytes(b.shape_weights.absent_from_wordlist as nat, 4));
    lemma_peel(pa11, a.shape_weights.absent_from_wordlist as nat, pb11, b.shape_weights.absent_from_wordlist as nat, 4);
    let pa10 = le_bytes(a.min_content_length as nat, 8) + le_bytes(a.no_text_layer_threshold as nat, 8) + le_bytes(a.wordlist_size as nat, 8) + le_bytes(a.acronym_wordlist_depth as nat, 8) + le_bytes(a.thresholds.identifier as nat, 4) + le_bytes(a.thresholds.technical as nat, 4) + le_bytes(a.thresholds.topical as nat, 4) + le_bytes(a.shape_weights.internal_caps as nat, 4) + le_bytes(a.shape_weights.digit_letter_mix as nat, 4) + le_bytes(a.shape_weights.separator_segments as nat, 4);
    let pb10 = le_bytes(b.min_content_length as nat, 8) + le_bytes(b.no_text_layer_threshold as nat, 8) + le_bytes(b.wordlist_size as nat, 8) + le_bytes(b.acronym_wordlist_depth as nat, 8) + le_bytes(b.thresholds.identifier as nat, 4) + le_bytes(b.thresholds.technical as nat, 4) + le_bytes(b.thresholds.topical as nat, 4) + le_bytes(b.shape_weights.internal_caps as nat, 4) + le_bytes(b.shape_weights.digit_letter_mix as nat, 4) + le_bytes(b.shape_weights.separator_segments as nat, 4);
    assert(pa11 == pa10 + le_bytes(a.shape_weights.unusual_length as nat, 4));
    assert(pb11 == pb10 + le_bytes(b.shape_weights.unusual_length as nat, 4));
    lemma_peel(pa10, a.shape_weights.unusual_length as nat, pb10, b.shape_weights.unusual_length as nat, 4);
    let pa9 = le_bytes(a.min_content_length as nat, 8) + le_bytes(a.no_text_layer_threshold as nat, 8) + le_bytes(a.wordlist_size as nat, 8) + le_bytes(a.acronym_wordlist_depth as nat, 8) + le_bytes(a.thresholds.identifier as nat, 4) + le_bytes(a.thresholds.technical as nat, 4) + le_bytes(a.thresholds.topical as nat, 4) + le_bytes(a.shape_weights.internal_caps as nat, 4) + le_bytes(a.shape_weights.digit_letter_mix as nat, 4);
    let pb9 = le_bytes(b.min_content_length as nat, 8) + le_bytes(b.no_text_layer_threshold as nat, 8) + le_bytes(b.wordlist_size as nat, 8) + le_bytes(b.acronym_wordlist_depth as nat, 8) + le_bytes(b.thresholds.identifier as nat, 4) + le_bytes(b.thresholds.technical as nat, 4) + le_bytes(b.thresholds.topical as nat, 4) + le_bytes(b.shape_weights.internal_caps as nat, 4) + le_bytes(b.shape_weights.digit_letter_mix as nat, 4);
    assert(pa10 == pa9 + le_bytes(a.shape_weights.separator_segments as nat, 4));
    assert(pb10 == pb9 + le_bytes(b.shape_weights.separator_segments as nat, 4));
    lemma_peel(pa9, a.shape_weights.separator_segments as nat, pb9, b.shape_weights.separator_segments as nat, 4);
    let pa8 = le_bytes(a.min_content_length as nat, 8) + le_bytes(a.no_text_layer_threshold as nat, 8) + le_bytes(a.wordlist_size as nat, 8) + le_bytes(a.acronym_wordlist_depth as nat, 8) + le_bytes(a.thresholds.identifier as nat, 4) + le_bytes(a.thresholds.technical as nat, 4) + le_bytes(a.thresholds.topical as nat, 4) + le_bytes(a.shape_weights.internal_caps as nat, 4);
    let pb8 = le_bytes(b.min_content_length as nat, 8) + le_bytes(b.no_text_layer_threshold as nat, 8) + le_bytes(b.wordlist_size as nat, 8) + le_bytes(b.acronym_wordlist_depth as nat, 8) + le_bytes(b.thresholds.identifier as nat, 4) + le_bytes(b.thresholds.technical as nat, 4) + le_bytes(b.thresholds.topical as nat, 4) + le_bytes(b.shape_weights.internal_caps as nat, 4);
    assert(pa9 == pa8 + le_bytes(a.shape_weights.digit_letter_mix as nat, 4));
    assert(pb9 == pb8 + le_bytes(b.shape_weights.digit_letter_mix as nat, 4));
    lemma_peel(pa8, a.shape_weights.digit_letter_mix as nat, pb8, b.shape_weights.digit_letter_mix as nat, 4);
    let pa7 = le_bytes(a.min_content_length as nat, 8) + le_bytes(a.no_text_layer_threshold as nat, 8) + le_bytes(a.wordlist_size as nat, 8) + le_bytes(a.acronym_wordlist_depth as nat, 8) + le_bytes(a.thresholds.identifier as nat, 4) + le_bytes(a.thresholds.technical as nat, 4) + le_bytes(a.thresholds.topical as nat, 4);
    let pb7 = le_bytes(b.min_content_length as nat, 8) + le_bytes(b.no_text_layer_threshold as nat, 8) + le_bytes(b.wordlist_size as nat, 8) + le_bytes(b.acronym_wordlist_depth as nat, 8) + le_bytes(b.thresholds.identifier as nat, 4) + le_bytes(b.thresholds.technical as nat, 4) + le_bytes(b.thresholds.topical as nat, 4);
    assert(pa8 == pa7 + le_bytes(a.shape_weights.internal_caps as nat, 4));
    assert(pb8 == pb7 + le_bytes(b.shape_weights.internal_caps as nat, 4));
    lemma_peel(pa7, a.shape_weights.internal_caps as nat, pb7, b.shape_weights.internal_caps as nat, 4);
    let pa6 = le_bytes(a.min_content_length as nat, 8) + le_bytes(a.no_text_layer_threshold as nat, 8) + le_bytes(a.wordlist_size as nat, 8) + le_bytes(a.acronym_wordlist_depth as nat, 8) + le_bytes(a.thresholds.identifier as nat, 4) + le_bytes(a.thresholds.technical as nat, 4);
    let pb6 = le_bytes(b.min_content_length as nat, 8) + le_bytes(b.no_text_layer_threshold as nat, 8) + le_bytes(b.wordlist_size as nat, 8) + le_bytes(b.acronym_wordlist_depth as nat, 8) + le_bytes(b.thresholds.identifier as nat, 4) + le_bytes(b.thresholds.technical as nat, 4);
    assert(pa7 == pa6 + le_bytes(a.thresholds.topical as nat, 4));
    assert(pb7 == pb6 + le_bytes(b.thresholds.topical as nat, 4));
    lemma_peel(pa6, a.thresholds.topical as nat, pb6, b.thresholds.topical as nat, 4);
    let pa5 = le_bytes(a.min_content_length as nat, 8) + le_bytes(a.no_text_layer_threshold as nat, 8) + le_bytes(a.wordlist_size as nat, 8) + le_bytes(a.acronym_wordlist_depth as nat, 8) + le_bytes(a.thresholds.identifier as nat, 4);
    let pb5 = le_bytes(b.min_content_length as nat, 8) + le_bytes(b.no_text_layer_threshold as nat, 8) + le_bytes(b.wordlist_size as nat, 8) + le_bytes(b.acronym_wordlist_depth as nat, 8) + le_bytes(b.thresholds.identifier as nat, 4);
    assert(pa6 == pa5 + le_bytes(a.thresholds.technical as nat, 4));
    assert(pb6 == pb5 + le_bytes(b.thresholds.technical as nat, 4));
    lemma_peel(pa5, a.thresholds.technical as nat, pb5, b.thresholds.technical as nat, 4);
    let pa4 = le_bytes(a.min_content_length as nat, 8) + le_bytes(a.no_text_layer_threshold as nat, 8) + le_bytes(a.wordlist_size as nat, 8) + le_bytes(a.acronym_wordlist_depth as nat, 8);
    let pb4 = le_bytes(b.min_content_length as nat, 8) + le_bytes(b.no_text_layer_threshold as nat, 8) + le_bytes(b.wordlist_size as nat, 8) + le_bytes(b.acronym_wordlist_depth as nat, 8);
    assert(pa5 == pa4 + le_bytes(a.thresholds.identifier as nat, 4));
    assert(pb5 == pb4 + le_bytes(b.thresholds.identifier as nat, 4));
    lemma_peel(pa4, a.thresholds.identifier as nat, pb4, b.thresholds.identifier as nat, 4);
    let pa3 = le_bytes(a.min_content_length as nat, 8) + le_bytes(a.no_text_layer_threshold as nat, 8) + le_bytes(a.wordlist_size as nat, 8);
    let pb3 = le_bytes(b.min_content_length as nat, 8) + le_bytes(b.no_text_layer_threshold as nat, 8) + le_bytes(b.wordlist_size as nat, 8);
    assert(pa4 == pa3 + le_bytes(a.acronym_wordlist_depth as nat, 8));
    assert(pb4 == pb3 + le_bytes(b.acronym_wordlist_depth as nat, 8));
    lemma_peel(pa3, a.acronym_wordlist_depth as nat, pb3, b.acronym_wordlist_depth as nat, 8);
    let pa2 = le_bytes(a.min_content_length as nat, 8) + le_bytes(a.no_text_layer_threshold as nat, 8);
    let pb2 = le_bytes(b.min_content_length as nat, 8) + le_bytes(b.no_text_layer_threshold as nat, 8);
    assert(pa3 == pa2 + le_bytes(a.wordlist_size as nat, 8));
    assert(pb3 == pb2 + le_bytes(b.wordlist_size as nat, 8));
    lemma_peel(pa2, a.wordlist_size as nat, pb2, b.wordlist_size as nat, 8);
    let pa1 = le_bytes(a.min_content_length as nat, 8);
    let pb1 = le_bytes(b.min_content_length as nat, 8);
    assert(pa2 == pa1 + le_bytes(a.no_text_layer_threshold as nat, 8));
    assert(pb2 == pb1 + le_bytes(b.no_text_layer_threshold as nat, 8));
    lemma_peel(pa1, a.no_text_layer_threshold as nat, pb1, b.no_text_layer_threshold as nat, 8);
    lemma_le_bytes_injective(a.min_content_length as nat, b.min_content_length as nat, 8);
}

/// The feed has the same length for every configuration.
pub proof fn lemma_feed_len(c: Config)
    ensures
        config_feed(c).len() == 103,
{
    lemma_le_bytes_len(c.min_content_length as nat, 8);
    lemma_le_bytes_len(c.no_text_layer_threshold as nat, 8);
    lemma_le_bytes_len(c.wordlist_size as nat, 8);
    lemma_le_bytes_len(c.acronym_wordlist_depth as nat, 8);
    lemma_le_bytes_len(c.thresholds.identifier as nat, 4);
    lemma_le_bytes_len(c.thresholds.technical as nat, 4);
    lemma_le_bytes_len(c.thresholds.topical as nat, 4);
    lemma_le_bytes_len(c.shape_weights.internal_caps as nat, 4);
    lemma_le_bytes_len(c.shape_weights.digit_letter_mix as nat, 4);
    lemma_le_bytes_len(c.shape_weights.separator_segments as nat, 4);
    lemma_le_bytes_len(c.shape_weights.unusual_length as nat, 4);
    lemma_le_bytes_len(c.shape_weights.absent_from_wordlist as nat, 4);
    lemma_le_bytes_len(c.shape_weights.short_all_caps as nat, 4);
    lemma_le_bytes_len(c.shape_weights.in_document_frequency as nat, 4);
    lemma_le_bytes_len(c.prose.min_mean_sentence_len as nat, 4);
    lemma_le_bytes_len(c.prose.min_stopword_ratio as nat, 4);
    lemma_le_bytes_len(c.prose.max_table_line_ratio as nat, 4);
    lemma_le_bytes_len(c.prose.min_tokens as nat, 8);
    lemma_le_bytes_len(c.yake_ngram_max as nat, 8);
}

} // verus!
