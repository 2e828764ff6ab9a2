//! Tokenisation over canonical text.
//!
//! Deliberately *not* UAX#29 word segmentation. The Unicode algorithm breaks on hyphens
//! and slashes, which would shred `DS-2291` and `SOP-114/rev3` into fragments — the exact
//! tokens the identifier stage exists to find. Internal separators between alphanumerics
//! are held together; only leading and trailing punctuation is trimmed.
//!
//! The apostrophe is deliberately *not* one of those separators. No identifier scheme
//! uses one, and counting `anyone’s` as a two-segment coded token would pay it the same
//! orthographic bonus as `DS-2291`.
//!
//! Every span is a pair of byte offsets into the text, as `str` slicing expects. The
//! specifications work on the text's chars and relate char positions to byte offsets
//! through [`byte_at`].

use core::ops::Range;
use vstd::prelude::*;

use crate::text::{
    byte_at, byte_offsets, char_is_alphanumeric, char_is_lowercase,
    char_is_uppercase, char_is_whitespace, chars_of, is_alnum, is_lower, is_upper, is_ws,
    lemma_byte_at_mono, lemma_utf8_len_subrange,
    lowercase, str_slice, str_to_lowercase, utf8_len,
};

verus! {

/// A candidate token: its text and where it sits in the canonical text.
pub struct Token<'a> {
    pub text: &'a str,
    /// Byte offsets into the canonical text.
    pub span: Range<usize>,
}

impl<'a> Token<'a> {
    /// The token lowercased, the key every stage groups occurrences by.
    pub fn lower(&self) -> (r: String)
        ensures
            r@ == lowercase(self.text@),
    {
        str_to_lowercase(self.text)
    }
}

// ---------------------------------------------------------------------------------------
// Specification of tokenisation
// ---------------------------------------------------------------------------------------

/// First whitespace position at or after `k`, or the end of the text.
pub open spec fn ws_run_end(s: Seq<char>, k: int) -> int
    decreases s.len() - k,
{
    if k < 0 || k >= s.len() {
        s.len() as int
    } else if is_ws(s[k]) {
        k
    } else {
        ws_run_end(s, k + 1)
    }
}

/// First alphanumeric position in `[k, b)`, or `b` when there is none.
pub open spec fn first_alnum(s: Seq<char>, k: int, b: int) -> int
    decreases b - k,
{
    if k >= b {
        b
    } else if is_alnum(s[k]) {
        k
    } else {
        first_alnum(s, k + 1, b)
    }
}

/// One past the last alphanumeric position in `[a, k)`, or `a` when there is none.
pub open spec fn end_alnum(s: Seq<char>, a: int, k: int) -> int
    decreases k - a,
{
    if k <= a {
        a
    } else if is_alnum(s[k - 1]) {
        k
    } else {
        end_alnum(s, a, k - 1)
    }
}

pub proof fn lemma_ws_run_end_bounds(s: Seq<char>, k: int)
    requires
        0 <= k <= s.len(),
    ensures
        k <= ws_run_end(s, k) <= s.len(),
        forall|j: int| k <= j < ws_run_end(s, k) ==> !is_ws(#[trigger] s[j]),
        ws_run_end(s, k) < s.len() ==> is_ws(s[ws_run_end(s, k)]),
    decreases s.len() - k,
{
    if k < s.len() && !is_ws(s[k]) {
        lemma_ws_run_end_bounds(s, k + 1);
    }
}

pub proof fn lemma_first_alnum(s: Seq<char>, k: int, b: int)
    requires
        0 <= k <= b <= s.len(),
    ensures
        k <= first_alnum(s, k, b) <= b,
        forall|j: int| k <= j < first_alnum(s, k, b) ==> !is_alnum(#[trigger] s[j]),
        first_alnum(s, k, b) < b ==> is_alnum(s[first_alnum(s, k, b)]),
    decreases b - k,
{
    if k < b && !is_alnum(s[k]) {
        lemma_first_alnum(s, k + 1, b);
    }
}

pub proof fn lemma_end_alnum(s: Seq<char>, a: int, k: int)
    requires
        0 <= a <= k <= s.len(),
    ensures
        a <= end_alnum(s, a, k) <= k,
        forall|j: int| end_alnum(s, a, k) <= j < k ==> !is_alnum(#[trigger] s[j]),
        end_alnum(s, a, k) > a ==> is_alnum(s[end_alnum(s, a, k) - 1]),
    decreases k - a,
{
    if k > a && !is_alnum(s[k - 1]) {
        lemma_end_alnum(s, a, k - 1);
    }
}

/// The char spans of the tokens that start at or after position `i`: every maximal run
/// of non-whitespace chars, trimmed to its first and last alphanumeric char, and dropped
/// when it holds none.
pub open spec fn token_spans_from(s: Seq<char>, i: int) -> Seq<(int, int)>
    decreases s.len() - i,
{
    if i < 0 || i >= s.len() {
        Seq::empty()
    } else if is_ws(s[i]) {
        token_spans_from(s, i + 1)
    } else {
        let e = ws_run_end(s, i + 1);
        proof {
            lemma_ws_run_end_bounds(s, i + 1);
        }
        let a = first_alnum(s, i, e);
        if a < e {
            seq![(a, end_alnum(s, i, e))] + token_spans_from(s, e)
        } else {
            token_spans_from(s, e)
        }
    }
}

/// The char spans of every token of `s`, in order.
pub open spec fn token_spans(s: Seq<char>) -> Seq<(int, int)> {
    token_spans_from(s, 0)
}

/// A token as `tokens` reports it: the text it covers and its byte span.
pub open spec fn token_matches(s: Seq<char>, t: Token, p: (int, int)) -> bool {
    &&& t.text@ == s.subrange(p.0, p.1)
    &&& t.span.start == byte_at(s, p.0)
    &&& t.span.end == byte_at(s, p.1)
}

// ---------------------------------------------------------------------------------------
// Tokenisation
// ---------------------------------------------------------------------------------------

/// Split canonical text into candidate tokens with byte offsets.
pub fn tokens(text: &str) -> (out: Vec<Token<'_>>)
    requires
        utf8_len(text@) <= usize::MAX,
    ensures
        out.len() == token_spans(text@).len(),
        forall|i: int|
            0 <= i < out.len() ==> token_matches(text@, #[trigger] out[i], token_spans(text@)[i]),
{
    let s = chars_of(text);
    let offs = byte_offsets(&s);
    let n = s.len();
    let mut out: Vec<Token<'_>> = Vec::new();
    let mut i: usize = 0;
    let ghost mut acc: Seq<(int, int)> = Seq::empty();

    while i < n
        invariant
            s@ == text@,
            n == s.len(),
            i <= n,
            offs.len() == n + 1,
            forall|k: int| 0 <= k <= n ==> offs[k] == byte_at(s@, k),
            token_spans(s@) == acc + token_spans_from(s@, i as int),
            out.len() == acc.len(),
            forall|j: int| 0 <= j < out.len() ==> token_matches(text@, #[trigger] out[j], acc[j]),
        decreases n - i,
    {
        if char_is_whitespace(s[i]) {
            i = i + 1;
            continue;
        }
        let mut e = i + 1;
        while e < n && !char_is_whitespace(s[e])
            invariant
                i < e <= n,
                n == s.len(),
                ws_run_end(s@, i + 1) == ws_run_end(s@, e as int),
            decreases n - e,
        {
            e = e + 1;
        }
        let mut a = i;
        while a < e && !char_is_alphanumeric(s[a])
            invariant
                i <= a <= e,
                e <= n,
                n == s.len(),
                first_alnum(s@, i as int, e as int) == first_alnum(s@, a as int, e as int),
            decreases e - a,
        {
            a = a + 1;
        }
        let ghost tail = token_spans_from(s@, e as int);
        if a < e {
            let mut b = e;
            while b > a + 1 && !char_is_alphanumeric(s[b - 1])
                invariant
                    a < b <= e,
                    e <= n,
                    n == s.len(),
                    is_alnum(s@[a as int]),
                    i <= a,
                    end_alnum(s@, i as int, e as int) == end_alnum(s@, i as int, b as int),
                decreases b,
            {
                b = b - 1;
            }
            let t = Token {
                text: str_slice(text, offs[a], offs[b], a, b),
                span: Range { start: offs[a], end: offs[b] },
            };
            out.push(t);
            proof {
                assert(end_alnum(s@, i as int, b as int) == b);
                acc = acc.push((a as int, b as int));
                assert(seq![(a as int, b as int)] + tail =~= seq![(a as int, b as int)] + tail);
                assert(acc + tail =~= (acc.drop_last()) + (seq![(a as int, b as int)] + tail));
            }
        }
        i = e;
    }
    out
}

/// The char spans of the tokens of `s`: the same tokens [`tokens`] reports, as positions
/// in the char sequence rather than byte offsets.
pub fn token_char_spans(s: &[char]) -> (out: Vec<(usize, usize)>)
    ensures
        out.len() == token_spans(s@).len(),
        forall|i: int|
            0 <= i < out.len() ==> (#[trigger] out@[i]).0 == token_spans(s@)[i].0 && out@[i].1 == token_spans(s@)[i].1,
{
    let n = s.len();
    let mut out: Vec<(usize, usize)> = Vec::new();
    let mut i: usize = 0;
    let ghost mut acc: Seq<(int, int)> = Seq::empty();

    while i < n
        invariant
            n == s.len(),
            i <= n,
            token_spans(s@) == acc + token_spans_from(s@, i as int),
            out.len() == acc.len(),
            forall|j: int| 0 <= j < out.len() ==> (#[trigger] out@[j]).0 == acc[j].0 && out@[j].1 == acc[j].1,
        decreases n - i,
    {
        if char_is_whitespace(s[i]) {
            i = i + 1;
            continue;
        }
        let mut e = i + 1;
        while e < n && !char_is_whitespace(s[e])
            invariant
                i < e <= n,
                n == s.len(),
                ws_run_end(s@, i + 1) == ws_run_end(s@, e as int),
            decreases n - e,
        {
            e = e + 1;
        }
        let mut a = i;
        while a < e && !char_is_alphanumeric(s[a])
            invariant
                i <= a <= e,
                e <= n,
                n == s.len(),
                first_alnum(s@, i as int, e as int) == first_alnum(s@, a as int, e as int),
            decreases e - a,
        {
            a = a + 1;
        }
        let ghost tail = token_spans_from(s@, e as int);
        if a < e {
            let mut b = e;
            while b > a + 1 && !char_is_alphanumeric(s[b - 1])
                invariant
                    a < b <= e,
                    e <= n,
                    n == s.len(),
                    is_alnum(s@[a as int]),
                    i <= a,
                    end_alnum(s@, i as int, e as int) == end_alnum(s@, i as int, b as int),
                decreases b,
            {
                b = b - 1;
            }
            out.push((a, b));
            proof {
                assert(end_alnum(s@, i as int, b as int) == b);
                acc = acc.push((a as int, b as int));
                assert(seq![(a as int, b as int)] + tail =~= seq![(a as int, b as int)] + tail);
                assert(acc + tail =~= (acc.drop_last()) + (seq![(a as int, b as int)] + tail));
            }
        }
        i = e;
    }
    out
}

// ---------------------------------------------------------------------------------------
// Separator segments
// ---------------------------------------------------------------------------------------

/// Separators that join parts of a single token rather than ending one.
pub open spec fn is_internal_sep(c: char) -> bool {
    c == '-' || c == '_' || c == '/' || c == '.' || c == '+'
}

pub fn char_is_internal_sep(c: char) -> (r: bool)
    ensures
        r == is_internal_sep(c),
{
    c == '-' || c == '_' || c == '/' || c == '.' || c == '+'
}

/// First separator position at or after `k`, or the end of the text.
pub open spec fn sep_run_end(s: Seq<char>, k: int) -> int
    decreases s.len() - k,
{
    if k < 0 || k >= s.len() {
        s.len() as int
    } else if is_internal_sep(s[k]) {
        k
    } else {
        sep_run_end(s, k + 1)
    }
}

pub proof fn lemma_sep_run_end_bounds(s: Seq<char>, k: int)
    requires
        0 <= k <= s.len(),
    ensures
        k <= sep_run_end(s, k) <= s.len(),
        forall|j: int| k <= j < sep_run_end(s, k) ==> !is_internal_sep(#[trigger] s[j]),
        sep_run_end(s, k) < s.len() ==> is_internal_sep(s[sep_run_end(s, k)]),
    decreases s.len() - k,
{
    if k < s.len() && !is_internal_sep(s[k]) {
        lemma_sep_run_end_bounds(s, k + 1);
    }
}

/// The non-empty segments between separators, from position `i` on.
pub open spec fn segments_from(s: Seq<char>, i: int) -> Seq<(int, int)>
    decreases s.len() - i,
{
    if i < 0 || i >= s.len() {
        Seq::empty()
    } else if is_internal_sep(s[i]) {
        segments_from(s, i + 1)
    } else {
        let e = sep_run_end(s, i + 1);
        proof {
            lemma_sep_run_end_bounds(s, i + 1);
        }
        seq![(i, e)] + segments_from(s, e)
    }
}

/// Whether the segment `[a, b)` holds an alphanumeric char.
pub open spec fn has_alnum_in(s: Seq<char>, a: int, b: int) -> bool {
    exists|k: int| a <= k < b && is_alnum(#[trigger] s[k])
}

/// The segment count [`separator_segments`] reports.
pub open spec fn spec_separator_segments(s: Seq<char>) -> nat {
    let segs = segments_from(s, 0);
    if segs.len() > 1 && (forall|j: int|
        0 <= j < segs.len() ==> has_alnum_in(s, #[trigger] segs[j].0, segs[j].1)) {
        segs.len()
    } else {
        1
    }
}

/// Whether a token carries an internal separator joining alphanumeric runs.
///
/// Counts the resulting segments: `DS-2291` is two, `SOP-114/rev3` is three. A token
/// whose separators do not join alphanumeric runs on both sides counts as one.
pub fn separator_segments(text: &str) -> (n: usize)
    ensures
        n == spec_separator_segments(text@),
        n >= 1,
{
    let s = chars_of(text);
    let len = s.len();
    let mut count: usize = 0;
    let mut all_alnum = true;
    let mut i: usize = 0;
    let ghost mut acc: Seq<(int, int)> = Seq::empty();

    while i < len
        invariant
            s@ == text@,
            len == s.len(),
            i <= len,
            segments_from(s@, 0) == acc + segments_from(s@, i as int),
            count == acc.len(),
            count <= i,
            all_alnum == (forall|j: int|
                0 <= j < acc.len() ==> has_alnum_in(s@, #[trigger] acc[j].0, acc[j].1)),
            forall|j: int| 0 <= j < acc.len() ==> 0 <= #[trigger] acc[j].0 <= acc[j].1 <= i,
        decreases len - i,
    {
        if char_is_internal_sep(s[i]) {
            i = i + 1;
            continue;
        }
        let mut e = i + 1;
        let mut found = char_is_alphanumeric(s[i]);
        while e < len && !char_is_internal_sep(s[e])
            invariant
                i < e <= len,
                len == s.len(),
                sep_run_end(s@, i + 1) == sep_run_end(s@, e as int),
                found == has_alnum_in(s@, i as int, e as int),
            decreases len - e,
        {
            if char_is_alphanumeric(s[e]) {
                found = true;
            }
            proof {
                if found {
                    let k = choose|k: int| i <= k < e + 1 && is_alnum(#[trigger] s@[k]);
                    assert(i <= k < e + 1 && is_alnum(s@[k]));
                } else {
                    assert forall|k: int| i <= k < e + 1 implies !is_alnum(#[trigger] s@[k]) by {
                        if k < e {
                            assert(!has_alnum_in(s@, i as int, e as int));
                        }
                    }
                }
            }
            e = e + 1;
        }
        proof {
            lemma_sep_run_end_bounds(s@, i + 1);
            let tail = segments_from(s@, e as int);
            let p = (i as int, e as int);
            assert(segments_from(s@, i as int) == seq![p] + tail);
            assert(acc + (seq![p] + tail) =~= acc.push(p) + tail);
            let old_acc = acc;
            acc = acc.push(p);
            assert(forall|j: int| 0 <= j < old_acc.len() ==> acc[j] == old_acc[j]);
            assert forall|j: int| 0 <= j < acc.len() implies 0 <= #[trigger] acc[j].0 <= acc[j].1 <= e by {
                if j < old_acc.len() {
                    assert(acc[j] == old_acc[j]);
                }
            }
            if all_alnum && found {
                assert forall|j: int| 0 <= j < acc.len() implies has_alnum_in(s@, #[trigger] acc[j].0, acc[j].1) by {
                    if j < old_acc.len() {
                        assert(acc[j] == old_acc[j]);
                    }
                }
            }
            if !found {
                assert(!has_alnum_in(s@, acc[old_acc.len() as int].0, acc[old_acc.len() as int].1));
            }
            if !all_alnum {
                let j = choose|j: int| 0 <= j < old_acc.len() && !has_alnum_in(s@, #[trigger] old_acc[j].0, old_acc[j].1);
                assert(acc[j] == old_acc[j]);
            }
        }
        count = count + 1;
        all_alnum = all_alnum && found;
        i = e;
    }
    proof {
        assert(acc + segments_from(s@, len as int) =~= acc);
    }
    if count > 1 && all_alnum {
        count
    } else {
        1
    }
}

// ---------------------------------------------------------------------------------------
// Sentences
// ---------------------------------------------------------------------------------------

/// First non-whitespace position at or after `k`, or `b` when `[k, b)` is all whitespace.
pub open spec fn first_non_ws(s: Seq<char>, k: int, b: int) -> int
    decreases b - k,
{
    if k >= b {
        b
    } else if !is_ws(s[k]) {
        k
    } else {
        first_non_ws(s, k + 1, b)
    }
}

/// One past the last non-whitespace position in `[a, k)`, or `a` when there is none.
pub open spec fn end_non_ws(s: Seq<char>, a: int, k: int) -> int
    decreases k - a,
{
    if k <= a {
        a
    } else if !is_ws(s[k - 1]) {
        k
    } else {
        end_non_ws(s, a, k - 1)
    }
}

pub proof fn lemma_first_non_ws(s: Seq<char>, k: int, b: int)
    requires
        0 <= k <= b <= s.len(),
    ensures
        k <= first_non_ws(s, k, b) <= b,
        forall|j: int| k <= j < first_non_ws(s, k, b) ==> is_ws(#[trigger] s[j]),
        first_non_ws(s, k, b) < b ==> !is_ws(s[first_non_ws(s, k, b)]),
    decreases b - k,
{
    if k < b && is_ws(s[k]) {
        lemma_first_non_ws(s, k + 1, b);
    }
}

pub proof fn lemma_end_non_ws(s: Seq<char>, a: int, k: int)
    requires
        0 <= a <= k <= s.len(),
    ensures
        a <= end_non_ws(s, a, k) <= k,
        forall|j: int| end_non_ws(s, a, k) <= j < k ==> is_ws(#[trigger] s[j]),
        end_non_ws(s, a, k) > a ==> !is_ws(s[end_non_ws(s, a, k) - 1]),
    decreases k - a,
{
    if k > a && is_ws(s[k - 1]) {
        lemma_end_non_ws(s, a, k - 1);
    }
}

/// Whether `[a, b)` holds more than one byte once surrounding whitespace is trimmed.
pub open spec fn substantive(s: Seq<char>, a: int, b: int) -> bool {
    let ts = first_non_ws(s, a, b);
    let te = end_non_ws(s, ts, b);
    utf8_len(s.subrange(ts, te)) > 1
}

/// Characters that may end a sentence.
pub open spec fn is_terminator(c: char) -> bool {
    c == '.' || c == '!' || c == '?' || c == '\n'
}

/// Whether the terminator at `k` ends a sentence: a newline always does; `.`, `!` and
/// `?` only when followed by whitespace and then an uppercase letter, so a number after
/// an abbreviation, as in `Fig. 4`, makes no boundary.
pub open spec fn ends_sentence(s: Seq<char>, k: int) -> bool {
    &&& is_terminator(s[k])
    &&& (s[k] == '\n' || {
        &&& k + 1 < s.len()
        &&& is_ws(s[k + 1])
        &&& first_non_ws(s, k + 1, s.len() as int) < s.len()
        &&& is_upper(s[first_non_ws(s, k + 1, s.len() as int)])
    })
}

/// The sentence spans that follow once the current sentence began at `start` and
/// positions before `k` have been examined.
pub open spec fn sentences_from(s: Seq<char>, start: int, k: int) -> Seq<(int, int)>
    decreases s.len() - k,
{
    if k < 0 || k >= s.len() {
        if start < s.len() && substantive(s, start, s.len() as int) {
            seq![(start, s.len() as int)]
        } else {
            Seq::empty()
        }
    } else if ends_sentence(s, k) {
        let rest = sentences_from(s, k + 1, k + 1);
        if substantive(s, start, k + 1) {
            seq![(start, k + 1)] + rest
        } else {
            rest
        }
    } else {
        sentences_from(s, start, k + 1)
    }
}

/// The char spans of the sentences of `s`.
pub open spec fn sentence_spans(s: Seq<char>) -> Seq<(int, int)> {
    sentences_from(s, 0, 0)
}

/// A byte span that covers the char span `p` of `s`.
pub open spec fn span_matches(s: Seq<char>, r: Range<usize>, p: (int, int)) -> bool {
    &&& r.start == byte_at(s, p.0)
    &&& r.end == byte_at(s, p.1)
}

/// Whether `[a, b)` is substantive, computed.
fn is_substantive(s: &Vec<char>, offs: &Vec<usize>, a: usize, b: usize) -> (r: bool)
    requires
        a <= b <= s.len(),
        offs.len() == s.len() + 1,
        forall|k: int| 0 <= k <= s.len() ==> offs[k] == byte_at(s@, k),
    ensures
        r == substantive(s@, a as int, b as int),
{
    let mut ts = a;
    while ts < b && char_is_whitespace(s[ts])
        invariant
            a <= ts <= b,
            b <= s.len(),
            first_non_ws(s@, a as int, b as int) == first_non_ws(s@, ts as int, b as int),
        decreases b - ts,
    {
        ts = ts + 1;
    }
    let mut te = b;
    while te > ts && char_is_whitespace(s[te - 1])
        invariant
            ts <= te <= b,
            b <= s.len(),
            end_non_ws(s@, ts as int, b as int) == end_non_ws(s@, ts as int, te as int),
        decreases te,
    {
        te = te - 1;
    }
    proof {
        lemma_utf8_len_subrange(s@, ts as int, te as int);
        lemma_byte_at_mono(s@, ts as int, te as int);
    }
    offs[te] - offs[ts] > 1
}

/// Whether position `k` ends a sentence, computed.
fn ends_sentence_at(s: &Vec<char>, k: usize) -> (r: bool)
    requires
        k < s.len(),
    ensures
        r == ends_sentence(s@, k as int),
{
    let c = s[k];
    if !(c == '.' || c == '!' || c == '?' || c == '\n') {
        return false;
    }
    if c == '\n' {
        return true;
    }
    let n = s.len();
    if k + 1 >= n || !char_is_whitespace(s[k + 1]) {
        return false;
    }
    let mut j = k + 1;
    while j < n && char_is_whitespace(s[j])
        invariant
            k + 1 <= j <= n,
            n == s.len(),
            first_non_ws(s@, k + 1, n as int) == first_non_ws(s@, j as int, n as int),
        decreases n - j,
    {
        j = j + 1;
    }
    j < n && char_is_uppercase(s[j])
}

/// The sentence spans of `s` as char positions.
fn sentence_char_spans(s: &Vec<char>, offs: &Vec<usize>) -> (out: Vec<(usize, usize)>)
    requires
        offs.len() == s.len() + 1,
        forall|j: int| 0 <= j <= s.len() ==> offs[j] == byte_at(s@, j),
    ensures
        out.len() == sentence_spans(s@).len(),
        forall|i: int|
            0 <= i < out.len() ==> (#[trigger] out[i]).0 == sentence_spans(s@)[i].0 && out[i].1
                == sentence_spans(s@)[i].1,
{
    let n = s.len();
    let mut out: Vec<(usize, usize)> = Vec::new();
    let mut start: usize = 0;
    let mut k: usize = 0;
    let ghost mut acc: Seq<(int, int)> = Seq::empty();

    while k < n
        invariant
            n == s.len(),
            start <= k <= n,
            offs.len() == n + 1,
            forall|j: int| 0 <= j <= n ==> offs[j] == byte_at(s@, j),
            sentence_spans(s@) == acc + sentences_from(s@, start as int, k as int),
            out.len() == acc.len(),
            forall|j: int| 0 <= j < out.len() ==> (#[trigger] out[j]).0 == acc[j].0 && out[j].1 == acc[j].1,
        decreases n - k,
    {
        if ends_sentence_at(s, k) {
            let after = k + 1;
            let keep = is_substantive(s, offs, start, after);
            let ghost rest = sentences_from(s@, after as int, after as int);
            if keep {
                out.push((start, after));
                proof {
                    let p = (start as int, after as int);
                    assert(acc + (seq![p] + rest) =~= acc.push(p) + rest);
                    acc = acc.push(p);
                }
            }
            start = after;
        }
        k = k + 1;
    }
    if start < n && is_substantive(s, offs, start, n) {
        out.push((start, n));
        proof {
            let p = (start as int, n as int);
            acc = acc.push(p);
        }
    } else {
        proof {
            assert(acc + Seq::<(int, int)>::empty() =~= acc);
        }
    }
    out
}

/// Split canonical text into sentences.
///
/// Used by the prose heuristic and the Schwartz–Hearst pass. A terminator only ends a
/// sentence when followed by whitespace and an uppercase start, so `v2.14.3` and
/// `Fig. 4` do not fabricate boundaries. A line break always ends one. Spans whose
/// trimmed text is a single byte or less are dropped.
pub fn sentences(text: &str) -> (out: Vec<Range<usize>>)
    requires
        utf8_len(text@) <= usize::MAX,
    ensures
        out.len() == sentence_spans(text@).len(),
        forall|i: int|
            0 <= i < out.len() ==> span_matches(text@, #[trigger] out[i], sentence_spans(text@)[i]),
{
    let s = chars_of(text);
    let offs = byte_offsets(&s);
    let spans = sentence_char_spans(&s, &offs);
    proof {
        lemma_sentence_spans_bounds(s@);
    }
    let mut out: Vec<Range<usize>> = Vec::new();
    let mut i: usize = 0;
    while i < spans.len()
        invariant
            s@ == text@,
            i <= spans.len(),
            spans.len() == sentence_spans(s@).len(),
            forall|j: int|
                0 <= j < spans.len() ==> (#[trigger] spans[j]).0 == sentence_spans(s@)[j].0
                    && spans[j].1 == sentence_spans(s@)[j].1,
            forall|j: int|
                0 <= j < sentence_spans(s@).len() ==> 0 <= #[trigger] sentence_spans(s@)[j].0
                    < sentence_spans(s@)[j].1 <= s.len(),
            offs.len() == s.len() + 1,
            forall|j: int| 0 <= j <= s.len() ==> offs[j] == byte_at(s@, j),
            out.len() == i,
            forall|j: int| 0 <= j < i ==> span_matches(text@, #[trigger] out[j], sentence_spans(text@)[j]),
        decreases spans.len() - i,
    {
        let (a, b) = spans[i];
        out.push(Range { start: offs[a], end: offs[b] });
        i = i + 1;
    }
    out
}

// ---------------------------------------------------------------------------------------
// Clauses
// ---------------------------------------------------------------------------------------

/// Sentence punctuation that ends a clause for good.
pub open spec fn is_clause_end(c: char) -> bool {
    c == '.' || c == '!' || c == '?' || c == ':' || c == ';'
}

/// Whether the span, with trailing whitespace trimmed, ends in sentence punctuation.
pub open spec fn span_ended(s: Seq<char>, p: (int, int)) -> bool {
    let e = end_non_ws(s, p.0, p.1);
    e > p.0 && is_clause_end(s[e - 1])
}

/// Whether the span, with leading whitespace trimmed, begins with a lowercase letter.
pub open spec fn span_continues(s: Seq<char>, p: (int, int)) -> bool {
    let f = first_non_ws(s, p.0, p.1);
    f < p.1 && is_lower(s[f])
}

/// Sentences joined across soft wraps: a sentence is appended to the clause before it
/// when that clause does not end in sentence punctuation and the sentence begins
/// lowercase.
pub open spec fn merge_clauses(s: Seq<char>, sents: Seq<(int, int)>) -> Seq<(int, int)>
    decreases sents.len(),
{
    if sents.len() == 0 {
        Seq::empty()
    } else {
        let prev = merge_clauses(s, sents.drop_last());
        let span = sents.last();
        if prev.len() == 0 {
            seq![span]
        } else if !span_ended(s, prev.last()) && span_continues(s, span) {
            prev.update(prev.len() - 1, (prev.last().0, span.1))
        } else {
            prev.push(span)
        }
    }
}

/// The char spans of the clauses of `s`.
pub open spec fn clause_spans(s: Seq<char>) -> Seq<(int, int)> {
    merge_clauses(s, sentence_spans(s))
}

pub proof fn lemma_first_non_ws_is_first(s: Seq<char>, k: int, b: int, j: int)
    requires
        0 <= k <= j <= b <= s.len(),
        forall|x: int| k <= x < j ==> is_ws(#[trigger] s[x]),
    ensures
        first_non_ws(s, k, b) == first_non_ws(s, j, b),
    decreases j - k,
{
    if k < j {
        lemma_first_non_ws_is_first(s, k + 1, b, j);
    }
}

pub proof fn lemma_end_non_ws_from(s: Seq<char>, a: int, k: int, j: int)
    requires
        0 <= a <= j <= k <= s.len(),
        forall|x: int| j <= x < k ==> is_ws(#[trigger] s[x]),
    ensures
        end_non_ws(s, a, k) == end_non_ws(s, a, j),
    decreases k - j,
{
    if j < k {
        lemma_end_non_ws_from(s, a, k - 1, j);
    }
}

/// Split canonical text into sentences with soft line wraps healed.
///
/// [`sentences`] terminates on every newline, which is right when a line genuinely is its
/// own unit — a spreadsheet row, a slide bullet, a form field — and wrong for wrapped
/// prose. A break is a *soft wrap* when the text before it did not end in sentence
/// punctuation **and** the text after it begins lowercase. Anything else stays a boundary.
pub fn clauses(text: &str) -> (out: Vec<Range<usize>>)
    requires
        utf8_len(text@) <= usize::MAX,
    ensures
        out.len() == clause_spans(text@).len(),
        forall|i: int|
            0 <= i < out.len() ==> span_matches(text@, #[trigger] out[i], clause_spans(text@)[i]),
{
    let s = chars_of(text);
    let offs = byte_offsets(&s);
    let sents = sentence_char_spans(&s, &offs);
    let ghost sp = sentence_spans(text@);
    let mut out: Vec<Range<usize>> = Vec::new();
    let ghost mut acc: Seq<(int, int)> = Seq::empty();
    let mut cs: Vec<usize> = Vec::new();
    let mut ce: Vec<usize> = Vec::new();
    let mut i: usize = 0;
    proof {
        lemma_sentence_spans_bounds(s@);
    }

    while i < sents.len()
        invariant
            s@ == text@,
            sp == sentence_spans(s@),
            sents.len() == sp.len(),
            forall|j: int| 0 <= j < sents.len() ==> (#[trigger] sents[j]).0 == sp[j].0 && sents[j].1 == sp[j].1,
            forall|j: int| 0 <= j < sp.len() ==> 0 <= #[trigger] sp[j].0 < sp[j].1 <= s.len(),
            offs.len() == s.len() + 1,
            forall|k: int| 0 <= k <= s.len() ==> offs[k] == byte_at(s@, k),
            i <= sents.len(),
            acc == merge_clauses(s@, sp.take(i as int)),
            out.len() == acc.len(),
            cs.len() == acc.len(),
            ce.len() == acc.len(),
            forall|j: int| 0 <= j < out.len() ==> span_matches(text@, #[trigger] out[j], acc[j]),
            forall|j: int| 0 <= j < acc.len() ==> cs[j] == acc[j].0 && ce[j] == acc[j].1,
            forall|j: int| 0 <= j < acc.len() ==> 0 <= #[trigger] acc[j].0 <= acc[j].1 <= s.len(),
            forall|j1: int, j2: int| 0 <= j1 < j2 < sp.len() ==> (#[trigger] sp[j1]).1 <= (#[trigger] sp[j2]).0,
            i > 0 ==> acc.len() > 0 && acc.last().1 == sp[i - 1].1,
            i == 0 ==> acc.len() == 0,
        decreases sents.len() - i,
    {
        let ghost span = sp[i as int];
        proof {
            assert(sp.take(i + 1).drop_last() =~= sp.take(i as int));
            assert(sp.take(i + 1).last() == span);
        }
        let (a, b) = sents[i];
        if out.len() == 0 {
            out.push(Range { start: offs[a], end: offs[b] });
            cs.push(a);
            ce.push(b);
            proof {
                acc = seq![span];
            }
        } else {
            let last = out.len() - 1;
            let pa = cs[last];
            let pb = ce[last];
            let ended = span_ends_in_punct(&s, pa, pb);
            let continues = span_begins_lowercase(&s, a, b);
            if !ended && continues {
                let r = Range { start: offs[pa], end: offs[b] };
                out.set(last, r);
                ce.set(last, b);
                proof {
                    let old_acc = acc;
                    assert(sp[i - 1].1 <= sp[i as int].0);
                    acc = acc.update(last as int, (acc.last().0, span.1));
                    assert forall|j: int| 0 <= j < acc.len() implies 0 <= #[trigger] acc[j].0 <= acc[j].1 <= s.len() by {
                        if j < last {
                            assert(acc[j] == old_acc[j]);
                        }
                    }
                }
            } else {
                out.push(Range { start: offs[a], end: offs[b] });
                cs.push(a);
                ce.push(b);
                proof {
                    let old_acc = acc;
                    acc = acc.push(span);
                    assert forall|j: int| 0 <= j < acc.len() implies 0 <= #[trigger] acc[j].0 <= acc[j].1 <= s.len() by {
                        if j < old_acc.len() {
                            assert(acc[j] == old_acc[j]);
                        }
                    }
                }
            }
        }
        i = i + 1;
    }
    proof {
        assert(sp.take(sents.len() as int) =~= sp);
    }
    out
}

/// The char spans of the clauses of `text`.
pub fn clause_char_spans(text: &str) -> (r: Vec<(usize, usize)>)
    requires
        utf8_len(text@) <= usize::MAX,
    ensures
        r.len() == clause_spans(text@).len(),
        forall|i: int|
            0 <= i < r.len() ==> (#[trigger] r@[i]).0 == clause_spans(text@)[i].0 && r@[i].1 == clause_spans(text@)[i].1,
        forall|i: int|
            0 <= i < r.len() ==> 0 <= (#[trigger] r@[i]).0 <= r@[i].1 <= text@.len(),
{
    let s = chars_of(text);
    let offs = byte_offsets(&s);
    let sents = sentence_char_spans(&s, &offs);
    let ghost sp = sentence_spans(text@);
    let mut out: Vec<Range<usize>> = Vec::new();
    let ghost mut acc: Seq<(int, int)> = Seq::empty();
    let mut cs: Vec<usize> = Vec::new();
    let mut ce: Vec<usize> = Vec::new();
    let mut i: usize = 0;
    proof {
        lemma_sentence_spans_bounds(s@);
    }

    while i < sents.len()
        invariant
            s@ == text@,
            sp == sentence_spans(s@),
            sents.len() == sp.len(),
            forall|j: int| 0 <= j < sents.len() ==> (#[trigger] sents[j]).0 == sp[j].0 && sents[j].1 == sp[j].1,
            forall|j: int| 0 <= j < sp.len() ==> 0 <= #[trigger] sp[j].0 < sp[j].1 <= s.len(),
            offs.len() == s.len() + 1,
            forall|k: int| 0 <= k <= s.len() ==> offs[k] == byte_at(s@, k),
            i <= sents.len(),
            acc == merge_clauses(s@, sp.take(i as int)),
            out.len() == acc.len(),
            cs.len() == acc.len(),
            ce.len() == acc.len(),
            forall|j: int| 0 <= j < out.len() ==> span_matches(text@, #[trigger] out[j], acc[j]),
            forall|j: int| 0 <= j < acc.len() ==> cs[j] == acc[j].0 && ce[j] == acc[j].1,
            forall|j: int| 0 <= j < acc.len() ==> 0 <= #[trigger] acc[j].0 <= acc[j].1 <= s.len(),
            forall|j1: int, j2: int| 0 <= j1 < j2 < sp.len() ==> (#[trigger] sp[j1]).1 <= (#[trigger] sp[j2]).0,
            i > 0 ==> acc.len() > 0 && acc.last().1 == sp[i - 1].1,
            i == 0 ==> acc.len() == 0,
        decreases sents.len() - i,
    {
        let ghost span = sp[i as int];
        proof {
            assert(sp.take(i + 1).drop_last() =~= sp.take(i as int));
            assert(sp.take(i + 1).last() == span);
        }
        let (a, b) = sents[i];
        if out.len() == 0 {
            out.push(Range { start: offs[a], end: offs[b] });
            cs.push(a);
            ce.push(b);
            proof {
                acc = seq![span];
            }
        } else {
            let last = out.len() - 1;
            let pa = cs[last];
            let pb = ce[last];
            let ended = span_ends_in_punct(&s, pa, pb);
            let continues = span_begins_lowercase(&s, a, b);
            if !ended && continues {
                let r = Range { start: offs[pa], end: offs[b] };
                out.set(last, r);
                ce.set(last, b);
                proof {
                    let old_acc = acc;
                    assert(sp[i - 1].1 <= sp[i as int].0);
                    acc = acc.update(last as int, (acc.last().0, span.1));
                    assert forall|j: int| 0 <= j < acc.len() implies 0 <= #[trigger] acc[j].0 <= acc[j].1 <= s.len() by {
                        if j < last {
                            assert(acc[j] == old_acc[j]);
                        }
                    }
                }
            } else {
                out.push(Range { start: offs[a], end: offs[b] });
                cs.push(a);
                ce.push(b);
                proof {
                    let old_acc = acc;
                    acc = acc.push(span);
                    assert forall|j: int| 0 <= j < acc.len() implies 0 <= #[trigger] acc[j].0 <= acc[j].1 <= s.len() by {
                        if j < old_acc.len() {
                            assert(acc[j] == old_acc[j]);
                        }
                    }
                }
            }
        }
        i = i + 1;
    }
    proof {
        assert(sp.take(sents.len() as int) =~= sp);
    }
    let mut r: Vec<(usize, usize)> = Vec::new();
    let mut k: usize = 0;
    while k < cs.len()
        invariant
            cs.len() == acc.len(),
            ce.len() == acc.len(),
            acc == clause_spans(text@),
            forall|j: int| 0 <= j < acc.len() ==> cs[j] == acc[j].0 && ce[j] == acc[j].1,
            forall|j: int| 0 <= j < acc.len() ==> 0 <= #[trigger] acc[j].0 <= acc[j].1 <= text@.len(),
            k <= cs.len(),
            r.len() == k,
            forall|j: int| 0 <= j < k ==> (#[trigger] r@[j]).0 == acc[j].0 && r@[j].1 == acc[j].1,
        decreases cs.len() - k,
    {
        r.push((cs[k], ce[k]));
        k = k + 1;
    }
    r
}

/// Every sentence span lies inside the text and is non-empty.
pub proof fn lemma_sentence_spans_bounds(s: Seq<char>)
    ensures
        forall|j: int|
            0 <= j < sentence_spans(s).len() ==> 0 <= #[trigger] sentence_spans(s)[j].0
                < sentence_spans(s)[j].1 <= s.len(),
        forall|j1: int, j2: int|
            0 <= j1 < j2 < sentence_spans(s).len() ==> (#[trigger] sentence_spans(s)[j1]).1
                <= (#[trigger] sentence_spans(s)[j2]).0,
{
    lemma_sentences_from_bounds(s, 0, 0);
}

pub proof fn lemma_sentences_from_bounds(s: Seq<char>, start: int, k: int)
    requires
        0 <= start <= k,
    ensures
        forall|j: int|
            0 <= j < sentences_from(s, start, k).len() ==> start <= #[trigger] sentences_from(
                s,
                start,
                k,
            )[j].0 < sentences_from(s, start, k)[j].1 <= s.len(),
        forall|j1: int, j2: int|
            0 <= j1 < j2 < sentences_from(s, start, k).len() ==> (#[trigger] sentences_from(
                s,
                start,
                k,
            )[j1]).1 <= (#[trigger] sentences_from(s, start, k)[j2]).0,
    decreases s.len() - k,
{
    let r = sentences_from(s, start, k);
    if k < 0 || k >= s.len() {
        if start < s.len() && substantive(s, start, s.len() as int) {
            assert(r == seq![(start, s.len() as int)]);
        } else {
            assert(r.len() == 0);
        }
    } else if ends_sentence(s, k) {
        lemma_sentences_from_bounds(s, k + 1, k + 1);
        let rest = sentences_from(s, k + 1, k + 1);
        if substantive(s, start, k + 1) {
            assert(r == seq![(start, k + 1)] + rest);
            assert forall|j: int| 0 <= j < r.len() implies start <= #[trigger] r[j].0 < r[j].1 <= s.len() by {
                if j > 0 {
                    assert(r[j] == rest[j - 1]);
                }
            }
            assert forall|j1: int, j2: int| 0 <= j1 < j2 < r.len() implies (#[trigger] r[j1]).1 <= (#[trigger] r[j2]).0 by {
                assert(r[j2] == rest[j2 - 1]);
                if j1 > 0 {
                    assert(r[j1] == rest[j1 - 1]);
                }
            }
        } else {
            assert(r == rest);
        }
    } else {
        lemma_sentences_from_bounds(s, start, k + 1);
        assert(r == sentences_from(s, start, k + 1));
    }
}

/// Merging ordered, non-empty spans keeps them ordered and non-empty, and the merged
/// spans end where the last input span ends.
pub proof fn lemma_merge_clauses_bounds(s: Seq<char>, sents: Seq<(int, int)>)
    requires
        forall|j: int| 0 <= j < sents.len() ==> 0 <= #[trigger] sents[j].0 < sents[j].1 <= s.len(),
        forall|j1: int, j2: int|
            0 <= j1 < j2 < sents.len() ==> (#[trigger] sents[j1]).1 <= (#[trigger] sents[j2]).0,
    ensures
        merge_clauses(s, sents).len() <= sents.len(),
        sents.len() > 0 ==> merge_clauses(s, sents).len() > 0
            && merge_clauses(s, sents).last().1 == sents.last().1,
        forall|j: int|
            0 <= j < merge_clauses(s, sents).len() ==> 0 <= #[trigger] merge_clauses(s, sents)[j].0
                < merge_clauses(s, sents)[j].1 <= s.len(),
        forall|j1: int, j2: int|
            0 <= j1 < j2 < merge_clauses(s, sents).len() ==> (#[trigger] merge_clauses(s, sents)[j1]).1
                <= (#[trigger] merge_clauses(s, sents)[j2]).0,
    decreases sents.len(),
{
    if sents.len() > 0 {
        let init = sents.drop_last();
        lemma_merge_clauses_bounds(s, init);
        let prev = merge_clauses(s, init);
        let span = sents.last();
        let r = merge_clauses(s, sents);
        if prev.len() == 0 {
            assert(r == seq![span]);
        } else {
            assert(prev.last().1 == init.last().1);
            assert(init.last() == sents[sents.len() - 2]);
            assert(prev.last().1 <= span.0);
            if !span_ended(s, prev.last()) && span_continues(s, span) {
                assert(r == prev.update(prev.len() - 1, (prev.last().0, span.1)));
                assert forall|j1: int, j2: int| 0 <= j1 < j2 < r.len() implies (#[trigger] r[j1]).1 <= (#[trigger] r[j2]).0 by {
                    if j2 == r.len() - 1 {
                        assert(prev[j1].1 <= prev[j2].0);
                    } else {
                        assert(prev[j1].1 <= prev[j2].0);
                    }
                }
            } else {
                assert(r == prev.push(span));
                assert forall|j1: int, j2: int| 0 <= j1 < j2 < r.len() implies (#[trigger] r[j1]).1 <= (#[trigger] r[j2]).0 by {
                    if j2 == r.len() - 1 {
                        if j1 < prev.len() - 1 {
                            assert(prev[j1].1 <= prev[prev.len() - 1].0);
                        }
                    } else {
                        assert(prev[j1].1 <= prev[j2].0);
                    }
                }
            }
        }
    }
}

/// Every clause span lies inside the text and is non-empty, and the spans come in order
/// without overlapping.
pub proof fn lemma_clause_spans_bounds(s: Seq<char>)
    ensures
        clause_spans(s).len() > 0 ==> clause_spans(s).last().1 <= s.len(),
        forall|j: int|
            0 <= j < clause_spans(s).len() ==> 0 <= #[trigger] clause_spans(s)[j].0
                < clause_spans(s)[j].1 <= s.len(),
        forall|j1: int, j2: int|
            0 <= j1 < j2 < clause_spans(s).len() ==> (#[trigger] clause_spans(s)[j1]).1
                <= (#[trigger] clause_spans(s)[j2]).0,
{
    lemma_sentence_spans_bounds(s);
    lemma_merge_clauses_bounds(s, sentence_spans(s));
}

/// A span holds a non-whitespace char.
pub open spec fn has_word(s: Seq<char>, p: (int, int)) -> bool {
    first_non_ws(s, p.0, p.1) < p.1
}

proof fn lemma_substantive_has_word(s: Seq<char>, a: int, b: int)
    requires
        0 <= a <= b <= s.len(),
        substantive(s, a, b),
    ensures
        has_word(s, (a, b)),
{
    lemma_first_non_ws(s, a, b);
    let ts = first_non_ws(s, a, b);
    lemma_end_non_ws(s, ts, b);
    if ts == b {
        assert(s.subrange(ts, end_non_ws(s, ts, b)) =~= Seq::<char>::empty());
        assert(vstd::utf8::encode_utf8(Seq::<char>::empty()) =~= Seq::<u8>::empty());
    }
}

proof fn lemma_sentences_from_words(s: Seq<char>, start: int, k: int)
    requires
        0 <= start <= k,
    ensures
        forall|j: int|
            0 <= j < sentences_from(s, start, k).len() ==> has_word(s, #[trigger] sentences_from(s, start, k)[j]),
    decreases s.len() - k,
{
    let r = sentences_from(s, start, k);
    lemma_sentences_from_bounds(s, start, k);
    if k < 0 || k >= s.len() {
        if start < s.len() && substantive(s, start, s.len() as int) {
            lemma_substantive_has_word(s, start, s.len() as int);
            assert(r == seq![(start, s.len() as int)]);
        } else {
            assert(r.len() == 0);
        }
    } else if ends_sentence(s, k) {
        lemma_sentences_from_words(s, k + 1, k + 1);
        let rest = sentences_from(s, k + 1, k + 1);
        if substantive(s, start, k + 1) {
            lemma_substantive_has_word(s, start, k + 1);
            assert(r == seq![(start, k + 1)] + rest);
            assert forall|j: int| 0 <= j < r.len() implies has_word(s, #[trigger] r[j]) by {
                if j > 0 {
                    assert(r[j] == rest[j - 1]);
                }
            }
        } else {
            assert(r == rest);
        }
    } else {
        lemma_sentences_from_words(s, start, k + 1);
        assert(r == sentences_from(s, start, k + 1));
    }
}

proof fn lemma_first_non_ws_extend(s: Seq<char>, k: int, b: int, b2: int)
    requires
        0 <= k <= b <= b2 <= s.len(),
        first_non_ws(s, k, b) < b,
    ensures
        first_non_ws(s, k, b2) == first_non_ws(s, k, b),
    decreases b - k,
{
    if k < b && is_ws(s[k]) {
        lemma_first_non_ws_extend(s, k + 1, b, b2);
    }
}

/// Merged spans hold a word each, and between two of them lies a hard boundary: the
/// earlier ends in sentence punctuation or the later does not begin lowercase.
proof fn lemma_merge_clauses_grouping(s: Seq<char>, sents: Seq<(int, int)>)
    requires
        forall|j: int| 0 <= j < sents.len() ==> has_word(s, #[trigger] sents[j]),
        forall|j: int| 0 <= j < sents.len() ==> 0 <= (#[trigger] sents[j]).0 <= sents[j].1 <= s.len(),
        forall|j1: int, j2: int| 0 <= j1 < j2 < sents.len() ==> (#[trigger] sents[j1]).1 <= (#[trigger] sents[j2]).0,
    ensures
        ({
            let c = merge_clauses(s, sents);
            &&& forall|j: int| 0 <= j < c.len() ==> has_word(s, #[trigger] c[j])
            &&& forall|j: int| 0 <= j < c.len() ==> 0 <= (#[trigger] c[j]).0 <= c[j].1 <= s.len()
            &&& c.len() > 0 ==> c.last().1 == sents.last().1
            &&& forall|j: int| 0 <= j < c.len() - 1 ==> span_ended(s, #[trigger] c[j]) || !span_continues(s, c[j + 1])
        }),
    decreases sents.len(),
{
    if sents.len() > 0 {
        let init = sents.drop_last();
        assert forall|j1: int, j2: int| 0 <= j1 < j2 < init.len() implies (#[trigger] init[j1]).1 <= (#[trigger] init[j2]).0 by {
            assert(init[j1] == sents[j1] && init[j2] == sents[j2]);
        }
        lemma_merge_clauses_grouping(s, init);
        let prev = merge_clauses(s, init);
        let span = sents.last();
        let c = merge_clauses(s, sents);
        assert(has_word(s, span));
        if prev.len() == 0 {
            assert(c == seq![span]);
        } else if !span_ended(s, prev.last()) && span_continues(s, span) {
            let n = prev.len() - 1;
            let ext = (prev.last().0, span.1);
            assert(c == prev.update(n, ext));
            assert(init.len() > 0);
            assert(prev.last().1 == init.last().1);
            assert(init.last() == sents[sents.len() - 2]);
            assert(prev.last().1 <= span.0);
            assert(has_word(s, prev[n]));
            lemma_first_non_ws_extend(s, prev.last().0, prev.last().1, span.1);
            assert(first_non_ws(s, ext.0, ext.1) == first_non_ws(s, prev[n].0, prev[n].1));
            assert(span_continues(s, ext) == span_continues(s, prev[n]));
            assert forall|j: int| 0 <= j < c.len() - 1 implies span_ended(s, #[trigger] c[j]) || !span_continues(s, c[j + 1]) by {
                assert(c[j] == prev[j]);
                if j + 1 < n {
                    assert(c[j + 1] == prev[j + 1]);
                } else {
                    assert(c[j + 1] == ext);
                    assert(span_ended(s, prev[j]) || !span_continues(s, prev[j + 1]));
                }
            }
            assert forall|j: int| 0 <= j < c.len() implies has_word(s, #[trigger] c[j]) by {
                if j < n {
                    assert(c[j] == prev[j]);
                }
            }
        } else {
            assert(c == prev.push(span));
            assert forall|j: int| 0 <= j < c.len() - 1 implies span_ended(s, #[trigger] c[j]) || !span_continues(s, c[j + 1]) by {
                assert(c[j] == prev[j]);
                if j + 1 < prev.len() {
                    assert(c[j + 1] == prev[j + 1]);
                } else {
                    assert(c[j + 1] == span);
                }
            }
            assert forall|j: int| 0 <= j < c.len() implies has_word(s, #[trigger] c[j]) by {
                if j < prev.len() {
                    assert(c[j] == prev[j]);
                }
            }
        }
    }
}

/// Whether sentence `b` continues the clause of the sentence `a` before it: `a` does not
/// end in sentence punctuation and `b` begins with a lowercase letter.
pub open spec fn sentence_joins(s: Seq<char>, a: (int, int), b: (int, int)) -> bool {
    !span_ended(s, a) && span_continues(s, b)
}

/// Clauses `c` are the sentences `sents` grouped into maximal runs, `b` holding the index
/// of each run's first sentence: runs cover the sentences in order, each clause spans
/// from its first sentence's start to its last sentence's end, and two neighbouring
/// sentences share a run exactly when the later continues the earlier.
pub open spec fn grouped(s: Seq<char>, sents: Seq<(int, int)>, c: Seq<(int, int)>, b: Seq<int>) -> bool {
    &&& b.len() == c.len()
    &&& (sents.len() == 0 <==> c.len() == 0)
    &&& c.len() > 0 ==> b[0] == 0
    &&& forall|j: int| 0 <= j < b.len() ==> 0 <= #[trigger] b[j] < sents.len()
    &&& forall|j: int| 0 <= j < b.len() - 1 ==> #[trigger] b[j] < b[j + 1]
    &&& forall|j: int|
        0 <= j < c.len() ==> #[trigger] c[j] == (sents[b[j]].0, sents[if j + 1 < b.len() {
            b[j + 1] - 1
        } else {
            sents.len() - 1
        }].1)
    &&& forall|k: int| 0 <= k < sents.len() - 1 ==> (#[trigger] sentence_joins(s, sents[k], sents[k + 1]) <==> !b.contains(k + 1))
}

proof fn lemma_ended_same_end(s: Seq<char>, a: int, a2: int, e: int)
    requires
        0 <= a <= a2 <= e <= s.len(),
        first_non_ws(s, a2, e) < e,
    ensures
        span_ended(s, (a, e)) == span_ended(s, (a2, e)),
{
    lemma_first_non_ws(s, a2, e);
    lemma_end_non_ws(s, a2, e);
    let f = first_non_ws(s, a2, e);
    assert(!is_ws(s[f]));
    assert(end_non_ws(s, a2, e) > a2);
    lemma_end_non_ws_base_tok(s, a, a2, e);
}

proof fn lemma_end_non_ws_base_tok(s: Seq<char>, a: int, a2: int, k: int)
    requires
        0 <= a <= a2 <= k <= s.len(),
        end_non_ws(s, a2, k) > a2,
    ensures
        end_non_ws(s, a, k) == end_non_ws(s, a2, k),
    decreases k,
{
    if k > a2 && is_ws(s[k - 1]) {
        lemma_end_non_ws_base_tok(s, a, a2, k - 1);
    }
}

/// One more sentence that continues the last run extends it.
#[verifier::rlimit(30)]
proof fn lemma_runs_join(s: Seq<char>, sents: Seq<(int, int)>, prev: Seq<(int, int)>, b0: Seq<int>)
    requires
        sents.len() >= 2,
        prev.len() > 0,
        grouped(s, sents.drop_last(), prev, b0),
        sentence_joins(s, sents[sents.len() - 2], sents.last()),
    ensures
        grouped(s, sents, prev.update(prev.len() - 1, (prev.last().0, sents.last().1)), b0),
{
    let n = sents.len() as int;
    let init = sents.drop_last();
    let m = prev.len() - 1;
    let c = prev.update(m, (prev.last().0, sents.last().1));
    let b = b0;
    assert forall|j: int| 0 <= j < c.len() implies #[trigger] c[j] == (sents[b[j]].0, sents[if j + 1 < b.len() {
        b[j + 1] - 1
    } else {
        sents.len() - 1
    }].1) by {
        assert(prev[j] == (init[b0[j]].0, init[if j + 1 < b0.len() {
            b0[j + 1] - 1
        } else {
            init.len() - 1
        }].1));
        assert(init[b0[j]] == sents[b0[j]]);
        if j + 1 < b.len() {
            assert(init[b0[j + 1] - 1] == sents[b0[j + 1] - 1]);
        }
    }
    assert forall|k: int| 0 <= k < sents.len() - 1 implies (#[trigger] sentence_joins(s, sents[k], sents[k + 1]) <==> !b.contains(k + 1)) by {
        if k < n - 2 {
            assert(init[k] == sents[k] && init[k + 1] == sents[k + 1]);
            assert(sentence_joins(s, init[k], init[k + 1]) <==> !b0.contains(k + 1));
        } else {
            assert(!b.contains(n - 1));
        }
    }
}

/// One more sentence that does not continue the last run starts a run of its own.
#[verifier::rlimit(30)]
proof fn lemma_runs_push(s: Seq<char>, sents: Seq<(int, int)>, prev: Seq<(int, int)>, b0: Seq<int>)
    requires
        sents.len() >= 2,
        prev.len() > 0,
        grouped(s, sents.drop_last(), prev, b0),
        !sentence_joins(s, sents[sents.len() - 2], sents.last()),
    ensures
        grouped(s, sents, prev.push(sents.last()), b0.push(sents.len() - 1)),
{
    let n = sents.len() as int;
    let init = sents.drop_last();
    let m = prev.len() - 1;
    let c = prev.push(sents.last());
    let b = b0.push(n - 1);
    assert forall|j: int| 0 <= j < c.len() implies #[trigger] c[j] == (sents[b[j]].0, sents[if j + 1 < b.len() {
        b[j + 1] - 1
    } else {
        sents.len() - 1
    }].1) by {
        if j < m + 1 {
            assert(b[j] == b0[j]);
            assert(c[j] == prev[j]);
            assert(prev[j] == (init[b0[j]].0, init[if j + 1 < b0.len() {
                b0[j + 1] - 1
            } else {
                init.len() - 1
            }].1));
            assert(init[b0[j]] == sents[b0[j]]);
            if j + 1 < b0.len() {
                assert(b[j + 1] == b0[j + 1]);
                assert(init[b0[j + 1] - 1] == sents[b0[j + 1] - 1]);
            } else {
                assert(b[j + 1] == n - 1);
                assert(init[init.len() - 1] == sents[n - 2]);
            }
        } else {
            assert(c[j] == sents.last());
        }
    }
    assert forall|k: int| 0 <= k < sents.len() - 1 implies (#[trigger] sentence_joins(s, sents[k], sents[k + 1]) <==> !b.contains(k + 1)) by {
        if k < n - 2 {
            assert(init[k] == sents[k] && init[k + 1] == sents[k + 1]);
            assert(sentence_joins(s, init[k], init[k + 1]) <==> !b0.contains(k + 1));
            if b.contains(k + 1) {
                let i = choose|i: int| 0 <= i < b.len() && b[i] == k + 1;
                if i < b0.len() {
                    assert(b0[i] == k + 1);
                }
            }
            if b0.contains(k + 1) {
                let i = choose|i: int| 0 <= i < b0.len() && b0[i] == k + 1;
                assert(b[i] == k + 1);
            }
        } else {
            assert(b[b.len() - 1] == n - 1);
        }
    }
    assert forall|j: int| 0 <= j < b.len() - 1 implies #[trigger] b[j] < b[j + 1] by {
        if j + 1 < b0.len() {
            assert(b[j] == b0[j] && b[j + 1] == b0[j + 1]);
        } else {
            assert(b[j] == b0[j]);
        }
    }
    assert forall|j: int| 0 <= j < b.len() implies 0 <= #[trigger] b[j] < sents.len() by {
        if j < b0.len() {
            assert(b[j] == b0[j]);
        }
    }
}

/// Merging sentences groups them into maximal runs.
proof fn lemma_merge_runs(s: Seq<char>, sents: Seq<(int, int)>) -> (b: Seq<int>)
    requires
        forall|j: int| 0 <= j < sents.len() ==> has_word(s, #[trigger] sents[j]),
        forall|j: int| 0 <= j < sents.len() ==> 0 <= (#[trigger] sents[j]).0 <= sents[j].1 <= s.len(),
        forall|j1: int, j2: int| 0 <= j1 < j2 < sents.len() ==> (#[trigger] sents[j1]).1 <= (#[trigger] sents[j2]).0,
    ensures
        grouped(s, sents, merge_clauses(s, sents), b),
    decreases sents.len(),
{
    if sents.len() == 0 {
        Seq::empty()
    } else {
        let n = sents.len() as int;
        let init = sents.drop_last();
        assert forall|j1: int, j2: int| 0 <= j1 < j2 < init.len() implies (#[trigger] init[j1]).1 <= (#[trigger] init[j2]).0 by {
            assert(init[j1] == sents[j1] && init[j2] == sents[j2]);
        }
        let b0 = lemma_merge_runs(s, init);
        let prev = merge_clauses(s, init);
        let span = sents.last();
        let c = merge_clauses(s, sents);
        if prev.len() == 0 {
            assert(c == seq![span]);
            assert(init.len() == 0);
            assert(c[0] == (sents[0].0, sents[0].1));
            seq![0int]
        } else {
            let m = prev.len() - 1;
            assert(prev[m] == (init[b0[m]].0, init[init.len() - 1].1));
            assert(init[init.len() - 1] == sents[n - 2]);
            let i0 = b0[m];
            assert(init[i0] == sents[i0]);
            if i0 < n - 2 {
                assert(sents[i0].1 <= sents[n - 2].0);
            }
            assert(has_word(s, sents[n - 2]));
            lemma_ended_same_end(s, sents[i0].0, sents[n - 2].0, sents[n - 2].1);
            if !span_ended(s, prev.last()) && span_continues(s, span) {
                lemma_runs_join(s, sents, prev, b0);
                b0
            } else {
                lemma_runs_push(s, sents, prev, b0);
                b0.push(n - 1)
            }
        }
    }
}

/// Clauses are the sentences grouped into maximal runs: neighbouring sentences share a
/// clause exactly when the earlier does not end in `.`, `!`, `?`, `:` or `;` and the
/// later begins with a lowercase letter; each clause runs from its first sentence's start
/// to its last sentence's end.
pub proof fn lemma_clauses_are_sentence_runs(s: Seq<char>)
    ensures
        exists|b: Seq<int>| grouped(s, sentence_spans(s), clause_spans(s), b),
{
    lemma_sentence_spans_bounds(s);
    lemma_sentences_from_words(s, 0, 0);
    lemma_sentences_from_bounds(s, 0, 0);
    let b = lemma_merge_runs(s, sentence_spans(s));
    assert(grouped(s, sentence_spans(s), clause_spans(s), b));
}

/// Clauses group sentences only across soft wraps: each clause holds a word, and where
/// one clause ends and the next begins, the earlier ends in sentence punctuation (`.`,
/// `!`, `?`, `:` or `;`) or the later does not begin with a lowercase letter.
pub proof fn lemma_clause_grouping(s: Seq<char>)
    ensures
        forall|j: int| 0 <= j < clause_spans(s).len() ==> has_word(s, #[trigger] clause_spans(s)[j]),
        forall|j: int|
            0 <= j < clause_spans(s).len() - 1 ==> span_ended(s, #[trigger] clause_spans(s)[j])
                || !span_continues(s, clause_spans(s)[j + 1]),
{
    lemma_sentence_spans_bounds(s);
    lemma_sentences_from_words(s, 0, 0);
    lemma_sentences_from_bounds(s, 0, 0);
    lemma_merge_clauses_grouping(s, sentence_spans(s));
}

/// Token `j` starts at position `j` or later.
pub proof fn lemma_token_start_at_least_index(s: Seq<char>, j: int)
    requires
        0 <= j < token_spans(s).len(),
    ensures
        j <= token_spans(s)[j].0,
    decreases j,
{
    lemma_token_spans_bounds(s, 0);
    let t = token_spans(s);
    if j > 0 {
        lemma_token_start_at_least_index(s, j - 1);
        assert(t[j - 1].1 <= t[j].0);
    }
}

/// A text has no more tokens than chars.
pub proof fn lemma_token_count_le_len(s: Seq<char>)
    ensures
        token_spans(s).len() <= s.len(),
{
    lemma_token_spans_bounds(s, 0);
    let n = token_spans(s).len() as int;
    if n > 0 {
        lemma_token_start_at_least_index(s, n - 1);
    }
}

/// Whether `[a, b)`, trailing whitespace trimmed, ends in sentence punctuation.
fn span_ends_in_punct(s: &Vec<char>, a: usize, b: usize) -> (r: bool)
    requires
        a <= b <= s.len(),
    ensures
        r == span_ended(s@, (a as int, b as int)),
{
    let mut e = b;
    while e > a && char_is_whitespace(s[e - 1])
        invariant
            a <= e <= b,
            b <= s.len(),
            end_non_ws(s@, a as int, b as int) == end_non_ws(s@, a as int, e as int),
        decreases e,
    {
        e = e - 1;
    }
    if e > a {
        let c = s[e - 1];
        c == '.' || c == '!' || c == '?' || c == ':' || c == ';'
    } else {
        false
    }
}

/// Whether `[a, b)`, leading whitespace trimmed, begins with a lowercase letter.
fn span_begins_lowercase(s: &Vec<char>, a: usize, b: usize) -> (r: bool)
    requires
        a <= b <= s.len(),
    ensures
        r == span_continues(s@, (a as int, b as int)),
{
    let mut f = a;
    while f < b && char_is_whitespace(s[f])
        invariant
            a <= f <= b,
            b <= s.len(),
            first_non_ws(s@, a as int, b as int) == first_non_ws(s@, f as int, b as int),
        decreases b - f,
    {
        f = f + 1;
    }
    f < b && char_is_lowercase(s[f])
}

} // verus!

verus! {

/// Every token span lies inside the text, is non-empty, starts and ends on an
/// alphanumeric char, and the spans come in order without overlapping.
pub proof fn lemma_token_spans_bounds(s: Seq<char>, i: int)
    requires
        0 <= i,
    ensures
        forall|j: int|
            0 <= j < token_spans_from(s, i).len() ==> i <= #[trigger] token_spans_from(s, i)[j].0
                < token_spans_from(s, i)[j].1 <= s.len(),
        forall|j: int|
            0 <= j < token_spans_from(s, i).len() ==> is_alnum(s[#[trigger] token_spans_from(s, i)[j].0])
                && is_alnum(s[token_spans_from(s, i)[j].1 - 1]),
        forall|j1: int, j2: int|
            0 <= j1 < j2 < token_spans_from(s, i).len() ==> (#[trigger] token_spans_from(s, i)[j1]).1
                <= (#[trigger] token_spans_from(s, i)[j2]).0,
    decreases s.len() - i,
{
    let r = token_spans_from(s, i);
    if i >= s.len() {
        assert(r.len() == 0);
    } else if is_ws(s[i]) {
        lemma_token_spans_bounds(s, i + 1);
        let rest = token_spans_from(s, i + 1);
        assert(r == rest);
        assert forall|j: int| 0 <= j < r.len() implies i <= #[trigger] r[j].0 < r[j].1 <= s.len() by {
            assert(r[j] == rest[j]);
        }
        assert forall|j: int| 0 <= j < r.len() implies is_alnum(s[#[trigger] r[j].0]) && is_alnum(s[r[j].1 - 1]) by {
            assert(r[j] == rest[j]);
        }
    } else {
        let e = ws_run_end(s, i + 1);
        lemma_ws_run_end_bounds(s, i + 1);
        lemma_token_spans_bounds(s, e);
        let a = first_alnum(s, i, e);
        lemma_first_alnum(s, i, e);
        let rest = token_spans_from(s, e);
        if a < e {
            let b = end_alnum(s, i, e);
            lemma_end_alnum(s, i, e);
            assert(b > i);
            assert(r == seq![(a, b)] + rest);
            assert(a < b) by {
                if b <= a {
                    assert(!is_alnum(s[a]));
                }
            }
            assert forall|j: int| 0 <= j < r.len() implies i <= #[trigger] r[j].0 < r[j].1 <= s.len() by {
                if j > 0 {
                    assert(r[j] == rest[j - 1]);
                }
            }
            assert forall|j: int| 0 <= j < r.len() implies is_alnum(s[#[trigger] r[j].0]) && is_alnum(s[r[j].1 - 1]) by {
                if j > 0 {
                    assert(r[j] == rest[j - 1]);
                }
            }
            assert forall|j1: int, j2: int| 0 <= j1 < j2 < r.len() implies (#[trigger] r[j1]).1 <= (#[trigger] r[j2]).0 by {
                assert(r[j2] == rest[j2 - 1]);
                if j1 > 0 {
                    assert(r[j1] == rest[j1 - 1]);
                }
            }
        } else {
            assert(r == rest);
            assert forall|j: int| 0 <= j < r.len() implies i <= #[trigger] r[j].0 < r[j].1 <= s.len() by {
                assert(r[j] == rest[j]);
            }
            assert forall|j: int| 0 <= j < r.len() implies is_alnum(s[#[trigger] r[j].0]) && is_alnum(s[r[j].1 - 1]) by {
                assert(r[j] == rest[j]);
            }
        }
    }
}

} // verus!
