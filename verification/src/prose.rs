//! The deterministic prose heuristic.
//!
//! Stage 3 assumes running text. Applied to a spreadsheet it emits column headers as
//! topics; applied to an email footer it emits the disclaimer. Both are confident,
//! plausible and wrong — worse than emitting nothing, because nothing is visibly nothing.
//!
//! The heuristic counts what it measures here: tokens, sentences, stopwords, non-blank lines
//! and table-like lines. The ratios built from those counts are compared against the
//! configured single-precision thresholds by the caller, and [`prose_reason`] turns the
//! outcome of each comparison into the one reason reported, in a fixed order.

use vstd::prelude::*;

use crate::resources::{folded, Resources};
use crate::text::{
    char_is_whitespace, chars_of, is_ws, lowercase, split_lines, split_lines_chars, utf8_len,
};
use crate::tokenize::{
    end_non_ws, first_non_ws, lemma_end_non_ws, lemma_first_non_ws, sentence_spans, sentences,
    token_spans, tokens,
};

verus! {

/// Why the heuristic ruled as it did. Exactly one reason, the first that applied.
#[derive(Debug, Clone, Copy, PartialEq, Eq, Structural)]
pub enum ProseReason {
    /// Running text. Stage 3 ran.
    Prose,
    /// A spreadsheet. Rejected on format, not on measurement: a wide enough sheet can
    /// pass any ratio test, and the format already tells us the answer.
    InherentlyTabular,
    /// Not enough text for statistical keyphrase extraction to mean anything.
    TooFewTokens,
    /// Sentences too short on average — headings, bullets, form fields.
    SentencesTooShort,
    /// Too few function words. Prose is full of them; a list of values is not.
    TooFewStopwords,
    /// Too many lines that look like table or field rows.
    TooManyTableLines,
    /// Stage 3's statistics are tuned to English, and the document is not English.
    NotEnglish,
}

impl ProseReason {
    /// A phrase that completes "no topical keywords: …".
    pub fn explain(&self) -> (r: &'static str)
        ensures
            r@ == match *self {
                ProseReason::Prose => "the document is running text"@,
                ProseReason::InherentlyTabular => "the format is inherently tabular"@,
                ProseReason::TooFewTokens => "too few tokens for statistical extraction"@,
                ProseReason::SentencesTooShort => "sentences are too short to be prose"@,
                ProseReason::TooFewStopwords => "too few function words to be prose"@,
                ProseReason::TooManyTableLines => "too many lines look like table rows"@,
                ProseReason::NotEnglish => "the topical lane is English-only"@,
            },
    {
        match self {
            ProseReason::Prose => "the document is running text",
            ProseReason::InherentlyTabular => "the format is inherently tabular",
            ProseReason::TooFewTokens => "too few tokens for statistical extraction",
            ProseReason::SentencesTooShort => "sentences are too short to be prose",
            ProseReason::TooFewStopwords => "too few function words to be prose",
            ProseReason::TooManyTableLines => "too many lines look like table rows",
            ProseReason::NotEnglish => "the topical lane is English-only",
        }
    }
}

/// The heuristic's ruling from what it measured: the first reason that applies, in the order
/// format, language, token count, sentence length, stopword ratio, table-line ratio.
///
/// The order matters: the cheapest and most certain rejections come first, and reporting
/// the *last* failed check would send someone tuning a ratio on a document rejected for
/// its format.
pub open spec fn spec_prose_reason(
    tabular: bool,
    english: bool,
    tokens: nat,
    min_tokens: nat,
    sentences_too_short: bool,
    too_few_stopwords: bool,
    too_many_table_lines: bool,
) -> ProseReason {
    if tabular {
        ProseReason::InherentlyTabular
    } else if !english {
        ProseReason::NotEnglish
    } else if tokens < min_tokens {
        ProseReason::TooFewTokens
    } else if sentences_too_short {
        ProseReason::SentencesTooShort
    } else if too_few_stopwords {
        ProseReason::TooFewStopwords
    } else if too_many_table_lines {
        ProseReason::TooManyTableLines
    } else {
        ProseReason::Prose
    }
}

/// The ruling is the first failed check in the order format, language, token count,
/// sentence length, stopword ratio, table-line ratio: each reason is given exactly when
/// its own check fails and every earlier one passes, and a document is ruled prose
/// exactly when every check passes. In particular, too few stopwords always keeps a
/// document from being prose.
pub proof fn lemma_ruling_order(
    tabular: bool,
    english: bool,
    tokens: nat,
    min_tokens: nat,
    sentences_too_short: bool,
    too_few_stopwords: bool,
    too_many_table_lines: bool,
)
    ensures
        ({
            let r = spec_prose_reason(
                tabular,
                english,
                tokens,
                min_tokens,
                sentences_too_short,
                too_few_stopwords,
                too_many_table_lines,
            );
            &&& (r == ProseReason::InherentlyTabular) <==> tabular
            &&& (r == ProseReason::NotEnglish) <==> (!tabular && !english)
            &&& (r == ProseReason::TooFewTokens) <==> (!tabular && english && tokens < min_tokens)
            &&& (r == ProseReason::SentencesTooShort) <==> (!tabular && english && tokens >= min_tokens
                && sentences_too_short)
            &&& (r == ProseReason::TooFewStopwords) <==> (!tabular && english && tokens >= min_tokens
                && !sentences_too_short && too_few_stopwords)
            &&& (r == ProseReason::TooManyTableLines) <==> (!tabular && english && tokens >= min_tokens
                && !sentences_too_short && !too_few_stopwords && too_many_table_lines)
            &&& (r == ProseReason::Prose) <==> (!tabular && english && tokens >= min_tokens
                && !sentences_too_short && !too_few_stopwords && !too_many_table_lines)
        }),
{
}

/// The heuristic's ruling: see [`spec_prose_reason`]. The three ratio comparisons arrive as
/// their outcomes, computed by the caller against the configured thresholds.
pub fn prose_reason(
    tabular: bool,
    english: bool,
    tokens: usize,
    min_tokens: usize,
    sentences_too_short: bool,
    too_few_stopwords: bool,
    too_many_table_lines: bool,
) -> (r: ProseReason)
    ensures
        r == spec_prose_reason(
            tabular,
            english,
            tokens as nat,
            min_tokens as nat,
            sentences_too_short,
            too_few_stopwords,
            too_many_table_lines,
        ),
        (r == ProseReason::Prose) <==> (!tabular && english && tokens >= min_tokens && !sentences_too_short
            && !too_few_stopwords && !too_many_table_lines),
        (r == ProseReason::TooFewStopwords) <==> (!tabular && english && tokens >= min_tokens
            && !sentences_too_short && too_few_stopwords),
{
    proof {
        lemma_ruling_order(
            tabular,
            english,
            tokens as nat,
            min_tokens as nat,
            sentences_too_short,
            too_few_stopwords,
            too_many_table_lines,
        );
    }
    if tabular {
        ProseReason::InherentlyTabular
    } else if !english {
        ProseReason::NotEnglish
    } else if tokens < min_tokens {
        ProseReason::TooFewTokens
    } else if sentences_too_short {
        ProseReason::SentencesTooShort
    } else if too_few_stopwords {
        ProseReason::TooFewStopwords
    } else if too_many_table_lines {
        ProseReason::TooManyTableLines
    } else {
        ProseReason::Prose
    }
}

/// Number of words — maximal runs of non-whitespace — in `s[i..]`, given whether the
/// char before `i` was whitespace (or `i` is the start).
pub open spec fn words_from(s: Seq<char>, i: int, after_ws: bool) -> nat
    decreases s.len() - i,
{
    if i < 0 || i >= s.len() {
        0
    } else if is_ws(s[i]) {
        words_from(s, i + 1, true)
    } else {
        (if after_ws {
            1nat
        } else {
            0nat
        }) + words_from(s, i + 1, false)
    }
}

/// Number of whitespace-separated words in `s`.
pub open spec fn word_count(s: Seq<char>) -> nat {
    words_from(s, 0, true)
}

/// A line that reads as a record rather than a sentence: with surrounding whitespace
/// trimmed, it holds a tab, or it has at most six words and does not end in `.`, `!` or
/// `?`.
pub open spec fn table_like(s: Seq<char>) -> bool {
    let a = first_non_ws(s, 0, s.len() as int);
    let e = end_non_ws(s, a, s.len() as int);
    let t = s.subrange(a, e);
    ||| t.contains('\t')
    ||| (word_count(t) <= 6 && !(t.len() > 0 && (t.last() == '.' || t.last() == '!' || t.last()
        == '?')))
}

/// Whether a line looks like a table or field row.
///
/// Two shapes, both common in extracted text: a tab-separated row, and a short line with
/// no terminal punctuation. The second is what a slide bullet, a form field and a table
/// cell all look like once the layout is gone.
pub fn looks_like_a_table_row(line: &[char]) -> (r: bool)
    ensures
        r == table_like(line@),
{
    let n = line.len();
    let mut a: usize = 0;
    while a < n && char_is_whitespace(line[a])
        invariant
            a <= n,
            n == line.len(),
            first_non_ws(line@, 0, n as int) == first_non_ws(line@, a as int, n as int),
        decreases n - a,
    {
        a = a + 1;
    }
    let mut e: usize = n;
    while e > a && char_is_whitespace(line[e - 1])
        invariant
            a <= e <= n,
            n == line.len(),
            end_non_ws(line@, a as int, n as int) == end_non_ws(line@, a as int, e as int),
        decreases e,
    {
        e = e - 1;
    }
    let ghost t = line@.subrange(a as int, e as int);
    let mut tab = false;
    let mut words: usize = 0;
    let mut after_ws = true;
    let mut k: usize = a;
    while k < e
        invariant
            a <= k <= e <= n,
            n == line.len(),
            t == line@.subrange(a as int, e as int),
            tab == exists|j: int| a <= j < k && line@[j] == '\t',
            words <= k - a,
            words + words_from(t, k - a, after_ws) == word_count(t),
        decreases e - k,
    {
        let c = line[k];
        proof {
            assert(t[k - a] == c);
        }
        if c == '\t' {
            tab = true;
        }
        if char_is_whitespace(c) {
            after_ws = true;
        } else {
            if after_ws {
                words = words + 1;
            }
            after_ws = false;
        }
        k = k + 1;
    }
    proof {
        if tab {
            let j = choose|j: int| a <= j < k && line@[j] == '\t';
            assert(t[j - a] == '\t');
        } else {
            assert forall|j: int| 0 <= j < t.len() implies t[j] != '\t' by {
                assert(t[j] == line@[a + j]);
            }
        }
    }
    if tab {
        return true;
    }
    let ends = e > a && (line[e - 1] == '.' || line[e - 1] == '!' || line[e - 1] == '?');
    proof {
        if e > a {
            assert(t.last() == line@[e - 1]);
        }
    }
    words <= 6 && !ends
}

/// What the prose heuristic measures in a text.
#[derive(Debug, Clone, Copy, PartialEq, Eq, Structural)]
pub struct ProseCounts {
    /// Tokens, as [`tokens`] finds them.
    pub tokens: usize,
    /// Sentences, as [`sentences`] finds them.
    pub sentences: usize,
    /// Tokens whose lowercase form is a stopword.
    pub stopwords: usize,
    /// Lines holding something other than whitespace.
    pub lines: usize,
    /// Of those, the lines that look like table or field rows.
    pub table_lines: usize,
}

/// How many of the first `k` tokens of `s` are stopwords.
pub open spec fn stopwords_upto(res: Resources, s: Seq<char>, k: int) -> nat
    decreases k,
{
    if k <= 0 || k > token_spans(s).len() {
        0
    } else {
        let p = token_spans(s)[k - 1];
        stopwords_upto(res, s, k - 1) + if res.stopword_set().contains(folded(lowercase(s.subrange(p.0, p.1)))) {
            1nat
        } else {
            0nat
        }
    }
}

/// Whether a line holds something other than whitespace.
pub open spec fn non_blank(line: Seq<char>) -> bool {
    exists|i: int| 0 <= i < line.len() && !is_ws(#[trigger] line[i])
}

/// How many of the first `k` lines are non-blank, and how many of those look tabular.
pub open spec fn line_counts(ls: Seq<Seq<char>>, k: int) -> (nat, nat)
    decreases k,
{
    if k <= 0 || k > ls.len() {
        (0, 0)
    } else {
        let prev = line_counts(ls, k - 1);
        let l = ls[k - 1];
        if non_blank(l) {
            (prev.0 + 1, prev.1 + if table_like(l) {
                1nat
            } else {
                0nat
            })
        } else {
            prev
        }
    }
}

pub open spec fn spec_prose_counts(res: Resources, s: Seq<char>) -> ProseCounts {
    let lc = line_counts(split_lines(s), split_lines(s).len() as int);
    ProseCounts {
        tokens: token_spans(s).len() as usize,
        sentences: sentence_spans(s).len() as usize,
        stopwords: stopwords_upto(res, s, token_spans(s).len() as int) as usize,
        lines: lc.0 as usize,
        table_lines: lc.1 as usize,
    }
}

fn blank_free(line: &[char]) -> (r: bool)
    ensures
        r == non_blank(line@),
{
    let mut i: usize = 0;
    while i < line.len()
        invariant
            i <= line.len(),
            forall|k: int| 0 <= k < i ==> is_ws(#[trigger] line@[k]),
        decreases line.len() - i,
    {
        if !char_is_whitespace(line[i]) {
            return true;
        }
        i = i + 1;
    }
    false
}

/// Measure a text for the prose heuristic: tokens, sentences, stopword tokens, non-blank
/// lines, and table-like lines among them.
///
/// The measurements are taken whatever the format, so that a threshold can be moved
/// against real numbers rather than guessed at.
pub fn prose_counts(text: &str, res: &Resources) -> (r: ProseCounts)
    requires
        res.wf(),
        utf8_len(text@) <= usize::MAX,
    ensures
        r == spec_prose_counts(*res, text@),
{
    let toks = tokens(text);
    let sents = sentences(text);
    let mut stop: usize = 0;
    let mut k: usize = 0;
    while k < toks.len()
        invariant
            res.wf(),
            toks.len() == token_spans(text@).len(),
            forall|i: int| 0 <= i < toks.len() ==> crate::tokenize::token_matches(text@, #[trigger] toks[i], token_spans(text@)[i]),
            k <= toks.len(),
            stop <= k,
            stop == stopwords_upto(*res, text@, k as int),
        decreases toks.len() - k,
    {
        let lo = toks[k].lower();
        proof {
            assert(crate::tokenize::token_matches(text@, toks[k as int], token_spans(text@)[k as int]));
        }
        if res.is_stopword(lo.as_str()) {
            stop = stop + 1;
        }
        k = k + 1;
    }
    let cs = chars_of(text);
    let lines = split_lines_chars(cs.as_slice());
    let ghost ls = split_lines(text@);
    let mut nonblank: usize = 0;
    let mut table: usize = 0;
    let mut j: usize = 0;
    while j < lines.len()
        invariant
            lines@.len() == ls.len(),
            forall|q: int| 0 <= q < lines.len() ==> (#[trigger] lines@[q])@ == ls[q],
            j <= lines.len(),
            table <= nonblank,
            nonblank <= j,
            (nonblank as nat, table as nat) == line_counts(ls, j as int),
        decreases lines.len() - j,
    {
        let l = &lines[j];
        if blank_free(l.as_slice()) {
            nonblank = nonblank + 1;
            if looks_like_a_table_row(l.as_slice()) {
                table = table + 1;
            }
        }
        j = j + 1;
    }
    ProseCounts {
        tokens: toks.len(),
        sentences: sents.len(),
        stopwords: stop,
        lines: nonblank,
        table_lines: table,
    }
}

} // verus!
