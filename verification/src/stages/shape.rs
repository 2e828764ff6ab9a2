//! Stage 1 — shape and wordlist. The priority arm.
//!
//! Finds identifiers and technical vocabulary from orthography alone, with no curated
//! list of schemes: recall must not be capped by a gazetteer. This module decides which
//! tokens and short phrases are candidates, groups every occurrence of one normalised
//! form into one candidate, and records the discrete evidence each candidate's score is
//! built from — internal capitals, digits among letters, separator segments, length,
//! absence from the wordlist, short all-caps, occurrences. Scoring is a weighted sum of
//! that evidence, computed by the caller.

use vstd::prelude::*;

use crate::resources::{spec_is_common, folded, Resources};
use crate::text::{
    byte_at, byte_offsets, char_is_alphabetic, char_is_ascii_digit, char_is_lowercase,
    char_is_uppercase, chars_of, is_alpha, is_digit, is_lower, is_upper, lowercase, str_to_lowercase,
    string_from_chars, utf8_len,
};
use crate::tokenize::{
    lemma_token_spans_bounds, separator_segments, spec_separator_segments, token_char_spans,
    token_spans, token_spans_from,
};
use crate::types::Kind;

verus! {

// ---------------------------------------------------------------------------------------
// Orthography
// ---------------------------------------------------------------------------------------

/// Every letter is uppercase, and there is at least one letter.
pub open spec fn is_all_caps(s: Seq<char>) -> bool {
    &&& forall|i: int| 0 <= i < s.len() ==> is_upper(#[trigger] s[i]) || !is_alpha(s[i])
    &&& exists|i: int| 0 <= i < s.len() && is_alpha(#[trigger] s[i])
}

/// Short runs of capitals are acronyms — `SOP`, `HPLC`, `PO`.
pub open spec fn is_short_all_caps(s: Seq<char>) -> bool {
    2 <= s.len() <= 6 && is_all_caps(s)
}

/// Longer runs are usually shouting or a heading, not a term.
pub open spec fn is_long_all_caps(s: Seq<char>) -> bool {
    s.len() > 6 && is_all_caps(s)
}

/// An uppercase and a lowercase letter after the first char: `MabSelect`, `HEK293T` no.
pub open spec fn has_internal_caps(s: Seq<char>) -> bool {
    &&& exists|i: int| 1 <= i < s.len() && is_upper(#[trigger] s[i])
    &&& exists|i: int| 1 <= i < s.len() && is_lower(#[trigger] s[i])
}

/// An ASCII digit somewhere.
pub open spec fn has_digit(s: Seq<char>) -> bool {
    exists|i: int| 0 <= i < s.len() && is_digit(#[trigger] s[i])
}

/// A letter somewhere.
pub open spec fn has_alpha(s: Seq<char>) -> bool {
    exists|i: int| 0 <= i < s.len() && is_alpha(#[trigger] s[i])
}

/// The orthographic facts about a token, gathered in one pass.
pub struct Profile {
    pub len: usize,
    pub all_caps: bool,
    pub internal_caps: bool,
    pub digit: bool,
    pub alpha: bool,
}

pub open spec fn profile_of(p: Profile, s: Seq<char>) -> bool {
    &&& p.len == s.len()
    &&& p.all_caps == is_all_caps(s)
    &&& p.internal_caps == has_internal_caps(s)
    &&& p.digit == has_digit(s)
    &&& p.alpha == has_alpha(s)
}

pub fn profile(s: &[char]) -> (p: Profile)
    ensures
        profile_of(p, s@),
{
    let mut upper_or_other = true;
    let mut alpha = false;
    let mut digit = false;
    let mut upper_later = false;
    let mut lower_later = false;
    let mut i: usize = 0;
    while i < s.len()
        invariant
            i <= s.len(),
            upper_or_other == forall|k: int| 0 <= k < i ==> is_upper(#[trigger] s@[k]) || !is_alpha(s@[k]),
            alpha == exists|k: int| 0 <= k < i && is_alpha(#[trigger] s@[k]),
            digit == exists|k: int| 0 <= k < i && is_digit(#[trigger] s@[k]),
            upper_later == exists|k: int| 1 <= k < i && is_upper(#[trigger] s@[k]),
            lower_later == exists|k: int| 1 <= k < i && is_lower(#[trigger] s@[k]),
        decreases s.len() - i,
    {
        let c = s[i];
        let up = char_is_uppercase(c);
        let al = char_is_alphabetic(c);
        let lo = char_is_lowercase(c);
        let dg = char_is_ascii_digit(c);
        if !(up || !al) {
            upper_or_other = false;
        }
        if al {
            alpha = true;
        }
        if dg {
            digit = true;
        }
        if i >= 1 && up {
            upper_later = true;
        }
        if i >= 1 && lo {
            lower_later = true;
        }
        proof {
            assert(s@[i as int] == c);
        }
        i = i + 1;
    }
    Profile {
        len: s.len(),
        all_caps: upper_or_other && alpha,
        internal_caps: upper_later && lower_later,
        digit,
        alpha,
    }
}

// ---------------------------------------------------------------------------------------
// Acronyms versus shouting
// ---------------------------------------------------------------------------------------

/// A token that is all caps, short or long.
pub open spec fn caps_token(t: Seq<char>) -> bool {
    is_short_all_caps(t) || is_long_all_caps(t)
}

/// How many consecutive caps tokens end at `j`.
pub open spec fn caps_left(ts: Seq<Seq<char>>, j: int) -> nat
    decreases j + 1,
{
    if j < 0 || j >= ts.len() || !caps_token(ts[j]) {
        0
    } else {
        1 + caps_left(ts, j - 1)
    }
}

/// How many consecutive caps tokens start at `j`.
pub open spec fn caps_right(ts: Seq<Seq<char>>, j: int) -> nat
    decreases ts.len() - j,
{
    if j < 0 || j >= ts.len() || !caps_token(ts[j]) {
        0
    } else {
        1 + caps_right(ts, j + 1)
    }
}

/// A short all-caps token outside any run of three or more consecutive caps tokens: an
/// acronym among ordinary text rather than a word of a shouted heading.
pub open spec fn is_acronym_at(ts: Seq<Seq<char>>, j: int) -> bool {
    &&& caps_token(ts[j])
    &&& caps_left(ts, j) + caps_right(ts, j) - 1 < 3
    &&& is_short_all_caps(ts[j])
}

/// Distinguish acronyms from shouting.
///
/// The wordlist is lowercase general English, so a case-blind membership test suppresses
/// `SOP` because "sop" is an ordinary word, while treating every all-caps token as absent
/// admits every word of a shouted heading. A genuine acronym appears among lowercase
/// prose, while shouting comes in runs: a token is an acronym only when it is short,
/// all-caps, and not part of a run of three or more consecutive all-caps tokens.
pub fn acronym_flags(ts: &Vec<Vec<char>>) -> (r: Vec<bool>)
    ensures
        r.len() == ts.len(),
        forall|j: int| 0 <= j < ts.len() ==> r@[j] == is_acronym_at(crate::resources::char_vecs(ts@), j),
{
    let ghost v = crate::resources::char_vecs(ts@);
    let n = ts.len();
    let mut caps: Vec<bool> = Vec::new();
    let mut short: Vec<bool> = Vec::new();
    let mut i: usize = 0;
    while i < n
        invariant
            n == ts.len(),
            v == crate::resources::char_vecs(ts@),
            i <= n,
            caps.len() == i,
            short.len() == i,
            forall|k: int| 0 <= k < i ==> caps@[k] == caps_token(v[k]) && short@[k] == is_short_all_caps(v[k]),
        decreases n - i,
    {
        let p = profile(ts[i].as_slice());
        proof {
            assert(v[i as int] == ts@[i as int]@);
        }
        let sh = 2 <= p.len && p.len <= 6 && p.all_caps;
        let lg = p.len > 6 && p.all_caps;
        caps.push(sh || lg);
        short.push(sh);
        i = i + 1;
    }
    let mut left: Vec<usize> = Vec::new();
    let mut j: usize = 0;
    while j < n
        invariant
            n == ts.len(),
            v.len() == n,
            caps.len() == n,
            forall|k: int| 0 <= k < n ==> caps@[k] == caps_token(v[k]),
            j <= n,
            left.len() == j,
            forall|k: int| 0 <= k < j ==> left@[k] == caps_left(v, k),
            forall|k: int| 0 <= k < j ==> left@[k] <= k + 1,
            v == crate::resources::char_vecs(ts@),
            short.len() == n,
            forall|k: int| 0 <= k < n ==> short@[k] == is_short_all_caps(v[k]),
        decreases n - j,
    {
        proof {
            if j > 0 {
                assert(left@[j - 1] == caps_left(v, j - 1));
                assert(left@[j - 1] <= j);
            }
            assert(caps_left(v, j as int) == if !caps_token(v[j as int]) {
                0
            } else {
                1 + caps_left(v, j - 1)
            });
            if caps@[j as int] && j == 0 {
                assert(caps_left(v, -1) == 0);
            }
        }
        let l = if !caps[j] {
            0
        } else if j == 0 {
            1
        } else {
            left[j - 1] + 1
        };
        left.push(l);
        proof {
            assert(left@[j as int] == caps_left(v, j as int));
        }
        j = j + 1;
    }
    let mut right: Vec<usize> = Vec::new();
    let mut k: usize = n;
    let mut rev: Vec<usize> = Vec::new();
    while k > 0
        invariant
            n == ts.len(),
            v.len() == n,
            caps.len() == n,
            forall|t: int| 0 <= t < n ==> caps@[t] == caps_token(v[t]),
            k <= n,
            rev.len() == n - k,
            forall|t: int| 0 <= t < n - k ==> rev@[t] == caps_right(v, n - 1 - t) && rev@[t] <= t + 1,
            v == crate::resources::char_vecs(ts@),
            short.len() == n,
            forall|q: int| 0 <= q < n ==> short@[q] == is_short_all_caps(v[q]),
            left.len() == n,
            forall|q: int| 0 <= q < n ==> left@[q] == caps_left(v, q) && left@[q] <= q + 1,
        decreases k,
    {
        let idx = k - 1;
        let r = if !caps[idx] {
            0
        } else if idx + 1 == n {
            1
        } else {
            rev[n - k - 1] + 1
        };
        proof {
            if idx + 1 < n {
                assert(rev@[n - k - 1] == caps_right(v, n - 1 - (n - k - 1)));
                assert(rev@[n - k - 1] <= n - k);
            }
            assert(caps_right(v, idx as int) == if !caps_token(v[idx as int]) {
                0
            } else {
                1 + caps_right(v, idx + 1)
            });
            if caps@[idx as int] && idx + 1 == n {
                assert(caps_right(v, n as int) == 0);
            }
        }
        rev.push(r);
        k = k - 1;
    }
    let mut out: Vec<bool> = Vec::new();
    let mut t: usize = 0;
    while t < n
        invariant
            n == ts.len(),
            v == crate::resources::char_vecs(ts@),
            caps.len() == n,
            short.len() == n,
            left.len() == n,
            rev.len() == n,
            forall|q: int| 0 <= q < n ==> caps@[q] == caps_token(v[q]) && short@[q] == is_short_all_caps(v[q]),
            forall|q: int| 0 <= q < n ==> left@[q] == caps_left(v, q) && left@[q] <= q + 1,
            forall|q: int| 0 <= q < n ==> rev@[q] == caps_right(v, n - 1 - q) && rev@[q] <= q + 1,
            t <= n,
            out.len() == t,
            forall|q: int| 0 <= q < t ==> out@[q] == is_acronym_at(v, q),
        decreases n - t,
    {
        let run_ok = caps[t] && left[t] < 4 && rev[n - 1 - t] < 4 - left[t];
        out.push(run_ok && short[t]);
        t = t + 1;
    }
    out
}

// ---------------------------------------------------------------------------------------
// Grouping occurrences
// ---------------------------------------------------------------------------------------

/// A candidate as the specification sees it: its first surface, its normalised form,
/// the byte span of every occurrence, and whether any occurrence was an acronym.
pub type CandView = (Seq<char>, Seq<char>, Seq<(int, int)>, bool);

/// The index of the candidate whose normalised form is `key`, or -1.
pub open spec fn find_form(acc: Seq<CandView>, key: Seq<char>) -> int
    decreases acc.len(),
{
    if acc.len() == 0 {
        -1
    } else if acc.last().1 == key {
        acc.len() - 1
    } else {
        find_form(acc.drop_last(), key)
    }
}

/// Record one occurrence: a new candidate for a new normalised form, another offset for
/// a known one. One unshouted occurrence is enough to call a form an acronym.
pub open spec fn add_occurrence(
    acc: Seq<CandView>,
    surface: Seq<char>,
    key: Seq<char>,
    span: (int, int),
    acronym: bool,
) -> Seq<CandView> {
    let k = find_form(acc, key);
    if k < 0 {
        acc.push((surface, key, seq![span], acronym))
    } else {
        acc.update(k, (acc[k].0, acc[k].1, acc[k].2.push(span), acc[k].3 || acronym))
    }
}

pub proof fn lemma_find_form(acc: Seq<CandView>, key: Seq<char>)
    ensures
        -1 <= find_form(acc, key) < acc.len(),
        find_form(acc, key) >= 0 ==> acc[find_form(acc, key)].1 == key,
        find_form(acc, key) < 0 ==> forall|i: int| 0 <= i < acc.len() ==> (#[trigger] acc[i]).1 != key,
    decreases acc.len(),
{
    if acc.len() > 0 && acc.last().1 != key {
        lemma_find_form(acc.drop_last(), key);
        assert forall|i: int| 0 <= i < acc.len() - 1 implies (#[trigger] acc[i]) == acc.drop_last()[i] by {}
    }
}

/// A candidate while it is being gathered.
pub struct Gathered {
    pub surface: Vec<char>,
    pub key: Vec<char>,
    pub spans: Vec<(usize, usize)>,
    pub acronym: bool,
}

pub open spec fn gathered_view(g: Gathered) -> CandView {
    (g.surface@, g.key@, g.spans@.map_values(|p: (usize, usize)| (p.0 as int, p.1 as int)), g.acronym)
}

pub open spec fn gathered_views(v: Seq<Gathered>) -> Seq<CandView> {
    v.map_values(|g: Gathered| gathered_view(g))
}

fn same_chars(a: &[char], b: &[char]) -> (r: bool)
    ensures
        r == (a@ == b@),
{
    if a.len() != b.len() {
        return false;
    }
    let mut i: usize = 0;
    while i < a.len()
        invariant
            a.len() == b.len(),
            i <= a.len(),
            forall|k: int| 0 <= k < i ==> a@[k] == b@[k],
        decreases a.len() - i,
    {
        if a[i] != b[i] {
            return false;
        }
        i = i + 1;
    }
    proof {
        assert(a@ =~= b@);
    }
    true
}

fn find_key(acc: &Vec<Gathered>, key: &[char]) -> (r: Option<usize>)
    ensures
        match r {
            Some(k) => k as int == find_form(gathered_views(acc@), key@),
            None => find_form(gathered_views(acc@), key@) < 0,
        },
{
    let ghost v = gathered_views(acc@);
    let mut i: usize = acc.len();
    proof {
        assert(v.take(acc.len() as int) =~= v);
    }
    while i > 0
        invariant
            v == gathered_views(acc@),
            i <= acc.len(),
            find_form(v, key@) == find_form(v.take(i as int), key@),
        decreases i,
    {
        proof {
            assert(v.take(i as int).drop_last() =~= v.take(i - 1));
            assert(v.take(i as int).last() == gathered_view(acc@[i - 1]));
        }
        if same_chars(acc[i - 1].key.as_slice(), key) {
            return Some(i - 1);
        }
        i = i - 1;
    }
    None
}

/// Record one occurrence in the gathered candidates.
fn record(acc: &mut Vec<Gathered>, surface: &[char], key: &[char], span: (usize, usize), acronym: bool)
    ensures
        gathered_views(final(acc)@) == add_occurrence(
            gathered_views(old(acc)@),
            surface@,
            key@,
            (span.0 as int, span.1 as int),
            acronym,
        ),
{
    let ghost v = gathered_views(acc@);
    match find_key(acc, key) {
        None => {
            let mut spans: Vec<(usize, usize)> = Vec::new();
            spans.push(span);
            let g = Gathered {
                surface: crate::canonical::copy_range(surface, 0, surface.len()),
                key: crate::canonical::copy_range(key, 0, key.len()),
                spans,
                acronym,
            };
            proof {
                assert(surface@.subrange(0, surface@.len() as int) =~= surface@);
                assert(key@.subrange(0, key@.len() as int) =~= key@);
                assert(gathered_view(g).2 =~= seq![(span.0 as int, span.1 as int)]);
            }
            acc.push(g);
            proof {
                assert(gathered_views(acc@) =~= v.push(gathered_view(g)));
            }
        },
        Some(k) => {
            proof {
                lemma_find_form(v, key@);
            }
            let mut g = acc.remove(k);
            let ghost old_spans = gathered_view(g).2;
            g.spans.push(span);
            g.acronym = g.acronym || acronym;
            proof {
                assert(gathered_view(g).2 =~= old_spans.push((span.0 as int, span.1 as int)));
            }
            acc.insert(k, g);
            proof {
                assert(gathered_views(acc@) =~= v.update(
                    k as int,
                    (v[k as int].0, v[k as int].1, v[k as int].2.push((span.0 as int, span.1 as int)), v[k as int].3
                        || acronym),
                ));
            }
        },
    }
}

// ---------------------------------------------------------------------------------------
// Candidates
// ---------------------------------------------------------------------------------------

/// A stopword, looked up as [`Resources::is_stopword`] does.
pub open spec fn spec_stop(res: Resources, lower: Seq<char>) -> bool {
    res.stopword_set().contains(folded(lower))
}

/// Ordinary English, looked up as [`Resources::is_common_word`] does.
pub open spec fn spec_common(res: Resources, lower: Seq<char>) -> bool {
    spec_is_common(res.common_words(), res.lemma_table(), lower)
}

/// Whether a token is worth scoring at all: at least two chars, not a stopword, holds a
/// letter, and — unless it is an acronym — is not ordinary English without any
/// orthographic signal. Bare numbers carry no identifying power on their own.
pub open spec fn spec_is_candidate(res: Resources, text: Seq<char>, lower: Seq<char>, acronym: bool) -> bool {
    &&& text.len() >= 2
    &&& !spec_stop(res, lower)
    &&& has_alpha(text)
    &&& (acronym || !(spec_common(res, lower) && !has_internal_caps(text) && !has_digit(text)
        && spec_separator_segments(text) == 1 && !is_short_all_caps(text)))
}

/// The texts of the tokens of `s`.
pub open spec fn token_texts(s: Seq<char>) -> Seq<Seq<char>> {
    Seq::new(token_spans(s).len(), |j: int| s.subrange(token_spans(s)[j].0, token_spans(s)[j].1))
}

/// The byte span of token `j` of `s`.
pub open spec fn token_byte_span(s: Seq<char>, j: int) -> (int, int) {
    (byte_at(s, token_spans(s)[j].0) as int, byte_at(s, token_spans(s)[j].1) as int)
}

/// The single-token candidates among the first `k` tokens, grouped by lowercase form in
/// order of first occurrence.
pub open spec fn unigram_cands(res: Resources, s: Seq<char>, k: int) -> Seq<CandView>
    decreases k,
{
    if k <= 0 || k > token_spans(s).len() {
        Seq::empty()
    } else {
        let acc = unigram_cands(res, s, k - 1);
        let j = k - 1;
        let t = token_texts(s)[j];
        let lo = lowercase(t);
        let acr = is_acronym_at(token_texts(s), j);
        if spec_is_candidate(res, t, lo, acr) {
            add_occurrence(acc, t, lo, token_byte_span(s, j), acr)
        } else {
            acc
        }
    }
}

/// A phrase head must be name-like, not a code: no digits, at least two chars, starts
/// with an uppercase letter, and carries internal capitals or is absent from the
/// wordlist.
pub open spec fn spec_phrase_head(res: Resources, t: Seq<char>) -> bool {
    &&& !has_digit(t)
    &&& t.len() >= 2
    &&& is_alpha(t[0])
    &&& (has_internal_caps(t) || !spec_common(res, lowercase(t)))
    &&& is_upper(t[0])
}

/// A continuation may be a single capital letter — `Capto S` ends in one.
pub open spec fn spec_phrase_tail(res: Resources, t: Seq<char>) -> bool {
    &&& !has_digit(t)
    &&& t.len() >= 1
    &&& is_upper(t[0])
    &&& (has_internal_caps(t) || !spec_common(res, lowercase(t)))
}

/// Whether exactly one space separates tokens `l` and `r`: they sit on the same line of
/// canonical text with nothing between them but the space a name's words are written
/// with.
pub open spec fn spec_same_line(s: Seq<char>, l: int, r: int) -> bool {
    s.subrange(token_spans(s)[l].1, token_spans(s)[r].0) == seq![' ']
}

/// Where a phrase starting at token `i` ends: continuations are added, up to three
/// tokens in all, while a single space separates each from the one before.
pub open spec fn run_end(res: Resources, s: Seq<char>, i: int, end: int) -> int
    decreases token_spans(s).len() - end,
{
    if end < token_spans(s).len() && end - i < 3 && end >= 1 && spec_phrase_tail(res, token_texts(s)[end])
        && spec_same_line(s, end - 1, end) {
        run_end(res, s, i, end + 1)
    } else {
        end
    }
}

pub proof fn lemma_run_end(res: Resources, s: Seq<char>, i: int, end: int)
    ensures
        run_end(res, s, i, end) >= end,
        end <= token_spans(s).len() ==> run_end(res, s, i, end) <= token_spans(s).len(),
        end >= i ==> run_end(res, s, i, end) <= if end > i + 3 { end } else { i + 3 },
    decreases token_spans(s).len() - end,
{
    if end < token_spans(s).len() && end - i < 3 && end >= 1 && spec_phrase_tail(res, token_texts(s)[end])
        && spec_same_line(s, end - 1, end) {
        lemma_run_end(res, s, i, end + 1);
    }
}

/// Every continuation a phrase takes is one space after the token before it.
pub proof fn lemma_run_end_spaced(res: Resources, s: Seq<char>, i: int, end: int)
    requires
        end >= 1,
    ensures
        forall|j: int| end <= j < run_end(res, s, i, end) ==> s.subrange(token_spans(s)[j - 1].1, #[trigger] token_spans(s)[j].0) == seq![' '],
    decreases token_spans(s).len() - end,
{
    if end < token_spans(s).len() && end - i < 3 && end >= 1 && spec_phrase_tail(res, token_texts(s)[end])
        && spec_same_line(s, end - 1, end) {
        lemma_run_end_spaced(res, s, i, end + 1);
    }
}

/// Words joined by single spaces.
pub open spec fn join_space(ws: Seq<Seq<char>>) -> Seq<char>
    decreases ws.len(),
{
    if ws.len() == 0 {
        Seq::empty()
    } else if ws.len() == 1 {
        ws[0]
    } else {
        join_space(ws.drop_last()) + seq![' '] + ws.last()
    }
}

/// Whether any of tokens `i..e` carries internal capitals.
pub open spec fn any_internal_caps(ts: Seq<Seq<char>>, i: int, e: int) -> bool {
    exists|k: int| i <= k < e && has_internal_caps(#[trigger] ts[k])
}

/// Multi-token candidates from token `i` on, added to `acc`: a name-like head, one or two
/// continuations on the same line, and internal capitals somewhere in the phrase. A
/// title-case heading of ordinary words never qualifies.
pub open spec fn phrase_cands(res: Resources, s: Seq<char>, i: int, acc: Seq<CandView>) -> Seq<CandView>
    decreases token_spans(s).len() - i,
{
    if i < 0 || i >= token_spans(s).len() {
        acc
    } else if !spec_phrase_head(res, token_texts(s)[i]) {
        phrase_cands(res, s, i + 1, acc)
    } else {
        let e = run_end(res, s, i, i + 1);
        proof {
            lemma_run_end(res, s, i, i + 1);
        }
        if e == i + 1 || !any_internal_caps(token_texts(s), i, e) {
            phrase_cands(res, s, i + 1, acc)
        } else {
            let surface = join_space(token_texts(s).subrange(i, e));
            let span = (byte_at(s, token_spans(s)[i].0) as int, byte_at(s, token_spans(s)[e - 1].1) as int);
            phrase_cands(res, s, e, add_occurrence(acc, surface, lowercase(surface), span, false))
        }
    }
}

/// Every Stage 1 candidate of the text: single tokens grouped by lowercase form, then
/// merged multi-token names grouped the same way.
pub open spec fn spec_shape_groups(res: Resources, s: Seq<char>) -> Seq<CandView> {
    unigram_cands(res, s, token_spans(s).len() as int) + phrase_cands(res, s, 0, Seq::empty())
}

// ---------------------------------------------------------------------------------------
// Where every occurrence points
// ---------------------------------------------------------------------------------------

/// Whether a single space, and nothing else, separates each pair of neighbouring tokens
/// among tokens `i..e`.
pub open spec fn words_single_spaced(s: Seq<char>, i: int, e: int) -> bool {
    forall|j: int| i < j < e ==> s.subrange(token_spans(s)[j - 1].1, #[trigger] token_spans(s)[j].0) == seq![' ']
}

/// Whether a byte span runs from the start of some token `i` to the end of some later
/// token `e - 1`, single spaces separating the tokens, and whose chars lowercase to
/// `key`.
pub open spec fn shape_resolves(s: Seq<char>, key: Seq<char>, span: (int, int)) -> bool {
    exists|i: int, e: int|
        0 <= i < e <= token_spans(s).len() && span == (
            byte_at(s, token_spans(s)[i].0) as int,
            byte_at(s, token_spans(s)[e - 1].1) as int,
        ) && words_single_spaced(s, i, e) && lowercase(
            #[trigger] s.subrange(token_spans(s)[i].0, token_spans(s)[e - 1].1),
        ) == key
}

pub open spec fn cand_resolves(s: Seq<char>, v: CandView) -> bool {
    forall|k: int| 0 <= k < v.2.len() ==> shape_resolves(s, v.1, #[trigger] v.2[k])
}

pub open spec fn all_cands_resolve(s: Seq<char>, acc: Seq<CandView>) -> bool {
    forall|i: int| 0 <= i < acc.len() ==> cand_resolves(s, #[trigger] acc[i])
}

/// Tokens `i..e`, single-spaced, are their texts joined by single spaces.
proof fn lemma_words_chars(s: Seq<char>, i: int, e: int)
    requires
        0 <= i < e <= token_spans(s).len(),
        words_single_spaced(s, i, e),
    ensures
        s.subrange(token_spans(s)[i].0, token_spans(s)[e - 1].1) == join_space(token_texts(s).subrange(i, e)),
    decreases e - i,
{
    let t = token_spans(s);
    lemma_token_spans_bounds(s, 0);
    let ws = token_texts(s).subrange(i, e);
    assert(ws.len() == e - i);
    assert(ws[e - i - 1] == s.subrange(t[e - 1].0, t[e - 1].1));
    if e - i == 1 {
        assert(join_space(ws) == ws[0]);
    } else {
        assert(words_single_spaced(s, i, e - 1));
        lemma_words_chars(s, i, e - 1);
        assert(ws.drop_last() =~= token_texts(s).subrange(i, e - 1));
        assert(s.subrange(t[e - 2].1, t[e - 1].0) == seq![' ']);
        assert(t[i].0 < t[i].1);
        if i < e - 2 {
            assert(t[i].1 <= t[e - 2].0);
        }
        assert(t[e - 2].1 <= t[e - 1].0);
        assert(s.subrange(t[i].0, t[e - 1].1) =~= s.subrange(t[i].0, t[e - 2].1) + s.subrange(t[e - 2].1, t[e - 1].0)
            + s.subrange(t[e - 1].0, t[e - 1].1));
    }
}

/// Recording an occurrence that resolves keeps every candidate resolving.
proof fn lemma_add_occurrence_resolves(
    s: Seq<char>,
    acc: Seq<CandView>,
    surface: Seq<char>,
    key: Seq<char>,
    span: (int, int),
    acronym: bool,
)
    requires
        all_cands_resolve(s, acc),
        shape_resolves(s, key, span),
    ensures
        all_cands_resolve(s, add_occurrence(acc, surface, key, span, acronym)),
{
    let k = find_form(acc, key);
    lemma_find_form(acc, key);
    let r = add_occurrence(acc, surface, key, span, acronym);
    if k < 0 {
        assert forall|i: int| 0 <= i < r.len() implies cand_resolves(s, #[trigger] r[i]) by {
            if i < acc.len() {
                assert(r[i] == acc[i]);
            } else {
                assert(r[i].2 =~= seq![span]);
            }
        }
    } else {
        let old = acc[k];
        assert(cand_resolves(s, old));
        assert forall|i: int| 0 <= i < r.len() implies cand_resolves(s, #[trigger] r[i]) by {
            if i != k {
                assert(r[i] == acc[i]);
            } else {
                assert forall|j: int| 0 <= j < r[i].2.len() implies shape_resolves(s, r[i].1, #[trigger] r[i].2[j]) by {
                    if j < old.2.len() {
                        assert(r[i].2[j] == old.2[j]);
                    }
                }
            }
        }
    }
}

proof fn lemma_unigram_cands_resolve(res: Resources, s: Seq<char>, k: int)
    ensures
        all_cands_resolve(s, unigram_cands(res, s, k)),
    decreases k,
{
    if !(k <= 0 || k > token_spans(s).len()) {
        lemma_unigram_cands_resolve(res, s, k - 1);
        let j = k - 1;
        let t = token_texts(s)[j];
        let lo = lowercase(t);
        let acr = is_acronym_at(token_texts(s), j);
        if spec_is_candidate(res, t, lo, acr) {
            let sp = token_spans(s);
            assert(t == s.subrange(sp[j].0, sp[j].1));
            assert(words_single_spaced(s, j, j + 1));
            assert(lowercase(s.subrange(sp[j].0, sp[j + 1 - 1].1)) == lo);
            assert(shape_resolves(s, lo, token_byte_span(s, j)));
            lemma_add_occurrence_resolves(s, unigram_cands(res, s, k - 1), t, lo, token_byte_span(s, j), acr);
        }
    }
}

proof fn lemma_phrase_cands_resolve(res: Resources, s: Seq<char>, i: int, acc: Seq<CandView>)
    requires
        all_cands_resolve(s, acc),
    ensures
        all_cands_resolve(s, phrase_cands(res, s, i, acc)),
    decreases token_spans(s).len() - i,
{
    if i < 0 || i >= token_spans(s).len() {
    } else if !spec_phrase_head(res, token_texts(s)[i]) {
        lemma_phrase_cands_resolve(res, s, i + 1, acc);
    } else {
        let e = run_end(res, s, i, i + 1);
        lemma_run_end(res, s, i, i + 1);
        if e == i + 1 || !any_internal_caps(token_texts(s), i, e) {
            lemma_phrase_cands_resolve(res, s, i + 1, acc);
        } else {
            let surface = join_space(token_texts(s).subrange(i, e));
            let span = (byte_at(s, token_spans(s)[i].0) as int, byte_at(s, token_spans(s)[e - 1].1) as int);
            assert(shape_resolves(s, lowercase(surface), span)) by {
                lemma_run_end_spaced(res, s, i, i + 1);
                assert(words_single_spaced(s, i, e));
                lemma_words_chars(s, i, e);
                assert(lowercase(s.subrange(token_spans(s)[i].0, token_spans(s)[e - 1].1)) == lowercase(surface));
            }
            lemma_add_occurrence_resolves(s, acc, surface, lowercase(surface), span, false);
            lemma_phrase_cands_resolve(res, s, e, add_occurrence(acc, surface, lowercase(surface), span, false));
        }
    }
}

/// Every offset of every Stage 1 candidate resolves: it runs from the start of one
/// token to the end of another, single spaces separate the tokens, and the text there,
/// lowercased, is the candidate's lowercase form.
/// It need not be the candidate's surface: one candidate covers every case variant.
pub proof fn lemma_shape_offsets_resolve(res: Resources, s: Seq<char>, i: int, k: int)
    requires
        0 <= i < spec_shape_groups(res, s).len(),
        0 <= k < spec_shape_groups(res, s)[i].2.len(),
    ensures
        shape_resolves(s, spec_shape_groups(res, s)[i].1, spec_shape_groups(res, s)[i].2[k]),
{
    let u = unigram_cands(res, s, token_spans(s).len() as int);
    let p = phrase_cands(res, s, 0, Seq::empty());
    lemma_unigram_cands_resolve(res, s, token_spans(s).len() as int);
    lemma_phrase_cands_resolve(res, s, 0, Seq::empty());
    let g = spec_shape_groups(res, s);
    assert(g == u + p);
    if i < u.len() {
        assert(g[i] == u[i]);
        assert(cand_resolves(s, u[i]));
    } else {
        assert(g[i] == p[i - u.len()]);
        assert(cand_resolves(s, p[i - u.len()]));
    }
}

/// The lowercase form of a token's chars.
pub fn lower_chars(t: &[char]) -> (r: Vec<char>)
    ensures
        r@ == lowercase(t@),
{
    let st = string_from_chars(t);
    let lo = str_to_lowercase(st.as_str());
    chars_of(lo.as_str())
}

fn is_candidate(res: &Resources, text: &[char], lower: &[char], acronym: bool) -> (r: bool)
    requires
        res.wf(),
    ensures
        r == spec_is_candidate(*res, text@, lower@, acronym),
{
    let p = profile(text);
    let lo = string_from_chars(lower);
    if p.len < 2 || res.is_stopword(lo.as_str()) {
        return false;
    }
    if !p.alpha {
        return false;
    }
    if acronym {
        return true;
    }
    let st = string_from_chars(text);
    let short_caps = 2 <= p.len && p.len <= 6 && p.all_caps;
    if res.is_common_word(lo.as_str()) && !p.internal_caps && !p.digit && separator_segments(
        st.as_str(),
    ) == 1 && !short_caps {
        return false;
    }
    true
}

/// The token texts and char spans of `s`.
fn token_pieces(s: &Vec<char>) -> (r: (Vec<(usize, usize)>, Vec<Vec<char>>))
    ensures
        r.0.len() == token_spans(s@).len(),
        r.1.len() == token_spans(s@).len(),
        forall|j: int| 0 <= j < r.0.len() ==> (#[trigger] r.0@[j]).0 == token_spans(s@)[j].0 && r.0@[j].1 == token_spans(s@)[j].1,
        crate::resources::char_vecs(r.1@) == token_texts(s@),
{
    let spans = token_char_spans(s.as_slice());
    proof {
        lemma_token_spans_bounds(s@, 0);
    }
    let mut texts: Vec<Vec<char>> = Vec::new();
    let mut j: usize = 0;
    while j < spans.len()
        invariant
            spans.len() == token_spans(s@).len(),
            forall|q: int| 0 <= q < spans.len() ==> (#[trigger] spans@[q]).0 == token_spans(s@)[q].0 && spans@[q].1 == token_spans(s@)[q].1,
            forall|q: int| 0 <= q < token_spans(s@).len() ==> 0 <= #[trigger] token_spans(s@)[q].0 < token_spans(s@)[q].1 <= s.len(),
            j <= spans.len(),
            texts.len() == j,
            forall|q: int| 0 <= q < j ==> (#[trigger] texts@[q])@ == token_texts(s@)[q],
        decreases spans.len() - j,
    {
        let (a, b) = spans[j];
        texts.push(crate::canonical::copy_range(s.as_slice(), a, b));
        j = j + 1;
    }
    proof {
        assert(crate::resources::char_vecs(texts@) =~= token_texts(s@));
    }
    (spans, texts)
}

fn collect_unigrams(
    res: &Resources,
    s: &Vec<char>,
    spans: &Vec<(usize, usize)>,
    offs: &Vec<usize>,
    texts: &Vec<Vec<char>>,
    acr: &Vec<bool>,
) -> (r: Vec<Gathered>)
    requires
        res.wf(),
        spans.len() == token_spans(s@).len(),
        forall|j: int| 0 <= j < spans.len() ==> (#[trigger] spans@[j]).0 == token_spans(s@)[j].0 && spans@[j].1 == token_spans(s@)[j].1,
        crate::resources::char_vecs(texts@) == token_texts(s@),
        acr.len() == spans.len(),
        forall|j: int| 0 <= j < acr.len() ==> acr@[j] == is_acronym_at(token_texts(s@), j),
        offs.len() == s.len() + 1,
        forall|k: int| 0 <= k <= s.len() ==> offs@[k] == byte_at(s@, k),
    ensures
        gathered_views(r@) == unigram_cands(*res, s@, token_spans(s@).len() as int),
{
    proof {
        lemma_token_spans_bounds(s@, 0);
    }
    let mut acc: Vec<Gathered> = Vec::new();
    let mut j: usize = 0;
    proof {
        assert(gathered_views(acc@) =~= Seq::<CandView>::empty());
        assert(crate::resources::char_vecs(texts@).len() == texts@.len());
        assert(token_texts(s@).len() == token_spans(s@).len());
    }
    while j < spans.len()
        invariant
            res.wf(),
            spans.len() == token_spans(s@).len(),
            texts.len() == spans.len(),
            forall|q: int| 0 <= q < spans.len() ==> (#[trigger] spans@[q]).0 == token_spans(s@)[q].0 && spans@[q].1 == token_spans(s@)[q].1,
            forall|q: int| 0 <= q < token_spans(s@).len() ==> 0 <= #[trigger] token_spans(s@)[q].0 < token_spans(s@)[q].1 <= s.len(),
            crate::resources::char_vecs(texts@) == token_texts(s@),
            acr.len() == spans.len(),
            forall|q: int| 0 <= q < acr.len() ==> acr@[q] == is_acronym_at(token_texts(s@), q),
            offs.len() == s.len() + 1,
            forall|k: int| 0 <= k <= s.len() ==> offs@[k] == byte_at(s@, k),
            j <= spans.len(),
            gathered_views(acc@) == unigram_cands(*res, s@, j as int),
        decreases spans.len() - j,
    {
        let t = &texts[j];
        proof {
            assert(t@ == token_texts(s@)[j as int]);
        }
        let lo = lower_chars(t.as_slice());
        let a = acr[j];
        if is_candidate(res, t.as_slice(), lo.as_slice(), a) {
            let (x, y) = spans[j];
            record(&mut acc, t.as_slice(), lo.as_slice(), (offs[x], offs[y]), a);
        }
        j = j + 1;
    }
    acc
}

fn tail_ok(res: &Resources, t: &[char]) -> (r: bool)
    requires
        res.wf(),
    ensures
        r == spec_phrase_tail(*res, t@),
{
    let p = profile(t);
    if p.digit || p.len < 1 || !char_is_uppercase(t[0]) {
        return false;
    }
    if p.internal_caps {
        return true;
    }
    let lo = string_from_chars(lower_chars(t).as_slice());
    !res.is_common_word(lo.as_str())
}

fn head_ok(res: &Resources, t: &[char]) -> (r: bool)
    requires
        res.wf(),
    ensures
        r == spec_phrase_head(*res, t@),
{
    let p = profile(t);
    if p.digit || p.len < 2 || !char_is_alphabetic(t[0]) || !char_is_uppercase(t[0]) {
        return false;
    }
    if p.internal_caps {
        return true;
    }
    let lo = string_from_chars(lower_chars(t).as_slice());
    !res.is_common_word(lo.as_str())
}

/// Whether two adjacent tokens are on the same line of canonical text, separated by the
/// single space a name's words are written with.
///
/// Adjacency in the token vector is not adjacency in the document: spreadsheet rows,
/// slide bullets and table cells all become separate lines, and merging across the gap
/// would splice unrelated cells into a phantom term. Nor does a name run across
/// punctuation: the merged name is its words joined by single spaces, and its offsets
/// must cover exactly that text.
fn same_line(s: &Vec<char>, from: usize, to: usize) -> (r: bool)
    requires
        from <= to <= s.len(),
    ensures
        r == (s@.subrange(from as int, to as int) == seq![' ']),
{
    if to > from && to - from == 1 && s[from] == ' ' {
        proof {
            assert(s@.subrange(from as int, to as int) =~= seq![' ']);
        }
        true
    } else {
        proof {
            if s@.subrange(from as int, to as int) == seq![' '] {
                assert(s@.subrange(from as int, to as int).len() == 1);
                assert(s@.subrange(from as int, to as int)[0] == s@[from as int]);
            }
        }
        false
    }
}

/// Merge adjacent distinctive tokens into multi-word technical terms.
///
/// `MabSelect SuRe` and `Capto S` are single names split across tokens; emitting only the
/// parts loses the entity. The merge is deliberately narrow — at least one component must
/// carry internal capitalisation — because a looser rule turns every title-case heading
/// into a spurious term.
fn collect_phrases(
    res: &Resources,
    s: &Vec<char>,
    spans: &Vec<(usize, usize)>,
    offs: &Vec<usize>,
    texts: &Vec<Vec<char>>,
) -> (r: Vec<Gathered>)
    requires
        res.wf(),
        spans.len() == token_spans(s@).len(),
        forall|j: int| 0 <= j < spans.len() ==> (#[trigger] spans@[j]).0 == token_spans(s@)[j].0 && spans@[j].1 == token_spans(s@)[j].1,
        crate::resources::char_vecs(texts@) == token_texts(s@),
        offs.len() == s.len() + 1,
        forall|k: int| 0 <= k <= s.len() ==> offs@[k] == byte_at(s@, k),
    ensures
        gathered_views(r@) == phrase_cands(*res, s@, 0, Seq::empty()),
{
    proof {
        lemma_token_spans_bounds(s@, 0);
    }
    let ghost ts = token_texts(s@);
    let n = spans.len();
    let mut acc: Vec<Gathered> = Vec::new();
    let mut i: usize = 0;
    proof {
        assert(gathered_views(acc@) =~= Seq::<CandView>::empty());
        assert(crate::resources::char_vecs(texts@).len() == texts@.len());
        assert(token_texts(s@).len() == token_spans(s@).len());
    }
    while i < n
        invariant
            res.wf(),
            n == spans.len(),
            n == token_spans(s@).len(),
            ts == token_texts(s@),
            texts.len() == n,
            forall|q: int| 0 <= q < n ==> (#[trigger] spans@[q]).0 == token_spans(s@)[q].0 && spans@[q].1 == token_spans(s@)[q].1,
            forall|q: int| 0 <= q < n ==> 0 <= #[trigger] token_spans(s@)[q].0 < token_spans(s@)[q].1 <= s.len(),
            forall|j1: int, j2: int| 0 <= j1 < j2 < n ==> (#[trigger] token_spans(s@)[j1]).1 <= (#[trigger] token_spans(s@)[j2]).0,
            crate::resources::char_vecs(texts@) == ts,
            offs.len() == s.len() + 1,
            forall|k: int| 0 <= k <= s.len() ==> offs@[k] == byte_at(s@, k),
            i <= n,
            phrase_cands(*res, s@, i as int, gathered_views(acc@)) == phrase_cands(*res, s@, 0, Seq::empty()),
        decreases n - i,
    {
        proof {
            assert(texts@[i as int]@ == ts[i as int]);
        }
        if !head_ok(res, texts[i].as_slice()) {
            i = i + 1;
            continue;
        }
        let mut end = i + 1;
        proof {
            lemma_run_end(*res, s@, i as int, i + 1);
        }
        while end < n && end - i < 3 && tail_ok(res, texts[end].as_slice()) && same_line(
            s,
            spans[end - 1].1,
            spans[end].0,
        )
            invariant
                res.wf(),
                n == spans.len(),
                n == token_spans(s@).len(),
                ts == token_texts(s@),
                texts.len() == n,
                crate::resources::char_vecs(texts@) == ts,
                forall|q: int| 0 <= q < n ==> (#[trigger] spans@[q]).0 == token_spans(s@)[q].0 && spans@[q].1 == token_spans(s@)[q].1,
                forall|q: int| 0 <= q < n ==> 0 <= #[trigger] token_spans(s@)[q].0 < token_spans(s@)[q].1 <= s.len(),
                forall|j1: int, j2: int| 0 <= j1 < j2 < n ==> (#[trigger] token_spans(s@)[j1]).1 <= (#[trigger] token_spans(s@)[j2]).0,
                i < end <= n,
                run_end(*res, s@, i as int, i + 1) == run_end(*res, s@, i as int, end as int),
            decreases n - end,
        {
            proof {
                assert(texts@[end as int]@ == ts[end as int]);
                assert(spans@[end - 1].1 <= spans@[end as int].0);
            }
            end = end + 1;
        }
        proof {
            if end < n {
                assert(texts@[end as int]@ == ts[end as int]);
            }
            lemma_run_end(*res, s@, i as int, i + 1);
        }
        if end == i + 1 {
            i = i + 1;
            continue;
        }
        let mut any = false;
        let mut k = i;
        while k < end
            invariant
                i <= k <= end <= n,
                texts.len() == n,
                crate::resources::char_vecs(texts@) == ts,
                any == exists|q: int| i <= q < k && has_internal_caps(#[trigger] ts[q]),
            decreases end - k,
        {
            let p = profile(texts[k].as_slice());
            proof {
                assert(texts@[k as int]@ == ts[k as int]);
            }
            if p.internal_caps {
                any = true;
            }
            k = k + 1;
        }
        if !any {
            i = i + 1;
            continue;
        }
        let mut surface: Vec<char> = Vec::new();
        let mut w = i;
        while w < end
            invariant
                i <= w <= end <= n,
                texts.len() == n,
                crate::resources::char_vecs(texts@) == ts,
                w > i ==> surface@ == join_space(ts.subrange(i as int, w as int)),
                w == i ==> surface@.len() == 0,
            decreases end - w,
        {
            proof {
                assert(ts.subrange(i as int, w + 1).drop_last() =~= ts.subrange(i as int, w as int));
                assert(ts.subrange(i as int, w + 1).last() == texts@[w as int]@);
                if w == i {
                    assert(ts.subrange(i as int, w + 1).len() == 1);
                }
            }
            if w > i {
                surface.push(' ');
            }
            crate::canonical::append_all(&mut surface, texts[w].as_slice());
            proof {
                if w == i {
                    assert(surface@ =~= texts@[w as int]@);
                }
            }
            w = w + 1;
        }
        let lo = lower_chars(surface.as_slice());
        let start = offs[spans[i].0];
        let stop = offs[spans[end - 1].1];
        record(&mut acc, surface.as_slice(), lo.as_slice(), (start, stop), false);
        i = end;
    }
    acc
}

/// The discrete evidence behind a Stage 1 score. Every feature of the weighted sum is a
/// function of these facts.
#[derive(Debug, Clone, Copy, PartialEq, Eq, Structural)]
pub struct ShapeEvidence {
    /// Internal capitals: `MabSelect`.
    pub internal_caps: bool,
    /// Digits among letters: `HEK293T`.
    pub digit_letter_mix: bool,
    /// Separator segments: `DS-2291` is two, `SOP-114/rev3` three.
    pub separator_segments: usize,
    /// Length in chars. English word lengths cluster between 2 and 12.
    pub length: usize,
    /// Absent from the general English wordlist — or a confirmed acronym, which is not the
    /// lowercase word it spells.
    pub absent_from_wordlist: bool,
    /// Two to six chars, all capitals.
    pub short_all_caps: bool,
    /// How often the form occurs in the document.
    pub occurrences: usize,
}

/// The evidence for a candidate with this surface, occurrence count and acronym flag.
pub open spec fn spec_evidence(res: Resources, surface: Seq<char>, occurrences: nat, acronym: bool) -> ShapeEvidence {
    ShapeEvidence {
        internal_caps: has_internal_caps(surface),
        digit_letter_mix: has_digit(surface) && has_alpha(surface),
        separator_segments: spec_separator_segments(surface) as usize,
        length: surface.len() as usize,
        absent_from_wordlist: acronym || !spec_common(res, lowercase(surface)),
        short_all_caps: is_short_all_caps(surface),
        occurrences: occurrences as usize,
    }
}

/// Identifier versus technical term: digit-bearing tokens with letters, or numeric codes
/// with separators, are identifiers — the exact-matchable arm. Everything else that
/// survives scoring is technical vocabulary.
pub open spec fn spec_classify(surface: Seq<char>) -> Kind {
    if has_digit(surface) && has_alpha(surface) {
        Kind::Identifier
    } else if has_digit(surface) && spec_separator_segments(surface) > 1 {
        Kind::Identifier
    } else {
        Kind::Technical
    }
}

/// How a surface is classified: one that holds both an ASCII digit and a letter is an
/// identifier whatever its separators (`HEK293T`, `DS-2291`, `v2`), and one with no digit
/// at all is a technical term; only a digit-bearing surface without a letter depends on
/// its separators (`2291-04` is an identifier, `2291` is not).
pub proof fn lemma_classification(surface: Seq<char>)
    ensures
        (exists|i: int| 0 <= i < surface.len() && is_digit(#[trigger] surface[i])) && (exists|j: int|
            0 <= j < surface.len() && is_alpha(#[trigger] surface[j])) ==> spec_classify(surface) == Kind::Identifier,
        (forall|i: int| 0 <= i < surface.len() ==> !is_digit(#[trigger] surface[i])) ==> spec_classify(surface)
            == Kind::Technical,
{
}

/// Identifier versus technical term.
pub fn classify(surface: &str) -> (k: Kind)
    ensures
        k == spec_classify(surface@),
        (exists|i: int| 0 <= i < surface@.len() && is_digit(#[trigger] surface@[i])) && (exists|j: int|
            0 <= j < surface@.len() && is_alpha(#[trigger] surface@[j])) ==> k == Kind::Identifier,
        (forall|i: int| 0 <= i < surface@.len() ==> !is_digit(#[trigger] surface@[i])) ==> k == Kind::Technical,
{
    proof {
        lemma_classification(surface@);
    }
    let cs = chars_of(surface);
    let p = profile(cs.as_slice());
    if p.digit && p.alpha {
        return Kind::Identifier;
    }
    if p.digit && separator_segments(surface) > 1 {
        return Kind::Identifier;
    }
    Kind::Technical
}

/// A Stage 1 candidate, before scoring.
#[derive(Debug, Clone, PartialEq, Eq)]
pub struct ShapeCandidate {
    /// The first variant seen, as it appears in the canonical text.
    pub surface: String,
    /// The lowercase form every occurrence shares.
    pub normalised: String,
    /// Byte offsets of every occurrence into the canonical text.
    pub offsets: Vec<core::ops::Range<usize>>,
    pub evidence: ShapeEvidence,
    pub kind: Kind,
}

/// Whether a candidate as computed matches its specification.
pub open spec fn candidate_matches(res: Resources, c: ShapeCandidate, v: CandView) -> bool {
    &&& c.surface@ == v.0
    &&& c.normalised@ == v.1
    &&& c.offsets@.len() == v.2.len()
    &&& forall|k: int|
        0 <= k < v.2.len() ==> (#[trigger] c.offsets@[k]).start == v.2[k].0 && c.offsets@[k].end == v.2[k].1
    &&& c.evidence == spec_evidence(res, v.0, v.2.len(), v.3)
    &&& c.kind == spec_classify(v.0)
}

fn evidence_for(res: &Resources, surface: &[char], occurrences: usize, acronym: bool) -> (e: ShapeEvidence)
    requires
        res.wf(),
    ensures
        e == spec_evidence(*res, surface@, occurrences as nat, acronym),
{
    let p = profile(surface);
    let st = string_from_chars(surface);
    let lo = str_to_lowercase(st.as_str());
    let absent = acronym || !res.is_common_word(lo.as_str());
    ShapeEvidence {
        internal_caps: p.internal_caps,
        digit_letter_mix: p.digit && p.alpha,
        separator_segments: separator_segments(st.as_str()),
        length: p.len,
        absent_from_wordlist: absent,
        short_all_caps: 2 <= p.len && p.len <= 6 && p.all_caps,
        occurrences,
    }
}

/// Every Stage 1 candidate of the canonical text with its evidence and kind: single
/// tokens first, grouped by lowercase form in order of first occurrence, then merged
/// multi-token names.
///
/// One candidate covers one distinct normalised form, so a document containing both
/// `Chromatography` and `chromatography` yields one candidate with every offset — they
/// are one finding. Its surface is the first variant seen.
pub fn shape_candidates(text: &str, res: &Resources) -> (out: Vec<ShapeCandidate>)
    requires
        res.wf(),
        utf8_len(text@) <= usize::MAX,
    ensures
        out.len() == spec_shape_groups(*res, text@).len(),
        forall|i: int| 0 <= i < out.len() ==> candidate_matches(*res, #[trigger] out@[i], spec_shape_groups(*res, text@)[i]),
{
    let s = chars_of(text);
    let offs = byte_offsets(s.as_slice());
    let (spans, texts) = token_pieces(&s);
    let acr = acronym_flags(&texts);
    let uni = collect_unigrams(res, &s, &spans, &offs, &texts, &acr);
    let phr = collect_phrases(res, &s, &spans, &offs, &texts);
    let ghost all = gathered_views(uni@) + gathered_views(phr@);
    let mut groups = uni;
    let mut phr = phr;
    groups.append(&mut phr);
    proof {
        assert(gathered_views(groups@) =~= all);
    }
    let mut out: Vec<ShapeCandidate> = Vec::new();
    let mut i: usize = 0;
    while i < groups.len()
        invariant
            res.wf(),
            gathered_views(groups@) == spec_shape_groups(*res, text@),
            i <= groups.len(),
            out.len() == i,
            forall|k: int| 0 <= k < i ==> candidate_matches(*res, #[trigger] out@[k], spec_shape_groups(*res, text@)[k]),
        decreases groups.len() - i,
    {
        let g = &groups[i];
        let ghost v = gathered_view(*g);
        proof {
            assert(gathered_views(groups@)[i as int] == v);
        }
        let mut offsets: Vec<core::ops::Range<usize>> = Vec::new();
        let mut k: usize = 0;
        while k < g.spans.len()
            invariant
                v == gathered_view(*g),
                k <= g.spans.len(),
                offsets.len() == k,
                forall|q: int| 0 <= q < k ==> (#[trigger] offsets@[q]).start == v.2[q].0 && offsets@[q].end == v.2[q].1,
            decreases g.spans.len() - k,
        {
            let (a, b) = g.spans[k];
            offsets.push(core::ops::Range { start: a, end: b });
            k = k + 1;
        }
        let surface = string_from_chars(g.surface.as_slice());
        let evidence = evidence_for(res, g.surface.as_slice(), g.spans.len(), g.acronym);
        let kind = classify(surface.as_str());
        let c = ShapeCandidate {
            surface,
            normalised: string_from_chars(g.key.as_slice()),
            offsets,
            evidence,
            kind,
        };
        proof {
            assert(candidate_matches(*res, c, v));
        }
        out.push(c);
        i = i + 1;
    }
    out
}

} // verus!
