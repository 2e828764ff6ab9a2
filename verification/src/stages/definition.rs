//! Stage 2 — Schwartz–Hearst abbreviation definitions (Schwartz & Hearst, 2003).
//!
//! Implemented directly from the paper rather than pulled from a crate, so behaviour pins
//! to the version stamp. Stage 1 decides what a term is from its orthography; a document
//! that writes `Standard Operating Procedure (SOP)` has *told* us, and evidence beats
//! inference. It also yields the canonical expansion, which nothing else here can.
//!
//! Offsets record the **definition site**, not every occurrence of the term.

use vstd::prelude::*;

use crate::render::{squeeze, squeezed};
use crate::resources::{folded, Resources};
use crate::stages::shape::{lower_chars, spec_stop};
use crate::text::{
    byte_at, byte_offsets, char_is_alphabetic, char_is_alphanumeric, char_is_whitespace, chars_of,
    is_alnum, is_alpha, is_ws, lowercase, split_ws, split_ws_chars, string_from_chars, utf8_len,
};
use crate::canonical::copy_range;
use crate::types::{Kind, Origin};
use crate::tokenize::{
    clause_char_spans, clause_spans, end_non_ws, first_non_ws, lemma_end_non_ws,
    lemma_first_non_ws, lemma_token_spans_bounds, token_char_spans, token_spans,
};

verus! {

/// The first char of a char's full lowercase mapping.
pub uninterp spec fn lower_first(c: char) -> char;

/// `char::to_lowercase` followed by `next`: the first char of the lowercase mapping,
/// which is never empty.
#[verifier::external_body]
fn char_lower(c: char) -> (r: char)
    ensures
        r == lower_first(c),
{
    c.to_lowercase().next().unwrap_or(c)
}

/// Schwartz–Hearst bounds on a short form: two to ten chars, at most two words.
pub open spec fn min_short() -> nat {
    2
}

/// The expansion window the paper specifies: `min(|SF| + 5, |SF| * 2)` words.
pub open spec fn spec_window_words(short: Seq<char>) -> nat {
    let n = short.len();
    if n + 5 <= n * 2 {
        n + 5
    } else {
        n * 2
    }
}

fn window_words(short: &[char]) -> (r: usize)
    requires
        short.len() < usize::MAX / 2,
    ensures
        r == spec_window_words(short@),
{
    let n = short.len();
    if n + 5 <= n * 2 {
        n + 5
    } else {
        n * 2
    }
}

/// A plausible short form: two to ten chars, at most two words, starting with an
/// alphanumeric char, holding a letter — a parenthetical with no letters is a date, a
/// figure number or a measurement — and not a stopword.
pub open spec fn spec_short_form_candidate(res: Resources, s: Seq<char>) -> bool {
    &&& 2 <= s.len() <= 10
    &&& split_ws(s).len() <= 2
    &&& s.len() > 0 && is_alnum(s[0])
    &&& exists|i: int| 0 <= i < s.len() && is_alpha(#[trigger] s[i])
    &&& !spec_stop(res, lowercase(s))
}

fn is_short_form_candidate(res: &Resources, s: &[char]) -> (r: bool)
    requires
        res.wf(),
    ensures
        r == spec_short_form_candidate(*res, s@),
{
    if s.len() < 2 || s.len() > 10 {
        return false;
    }
    let words = split_ws_chars(s);
    if words.len() > 2 {
        return false;
    }
    if !char_is_alphanumeric(s[0]) {
        return false;
    }
    let mut alpha = false;
    let mut i: usize = 0;
    while i < s.len()
        invariant
            i <= s.len(),
            alpha == exists|k: int| 0 <= k < i && is_alpha(#[trigger] s@[k]),
        decreases s.len() - i,
    {
        if char_is_alphabetic(s[i]) {
            alpha = true;
        }
        i = i + 1;
    }
    if !alpha {
        return false;
    }
    let lo = string_from_chars(lower_chars(s).as_slice());
    !res.is_stopword(lo.as_str())
}

// ---------------------------------------------------------------------------------------
// The matching rule
// ---------------------------------------------------------------------------------------

/// Schwartz–Hearst's matching rule, right to left, from short-form position `si` and
/// long-form position `li`: every alphanumeric char of the short form must appear in the
/// long form in order, and the short form's *first* char must land at the start of a
/// word. Gives the position of the long-form char the first short-form char matched.
pub open spec fn match_from(s: Seq<char>, l: Seq<char>, si: int, li: int) -> Option<int>
    decreases si + li + 2,
{
    if si < 0 {
        Some(li + 1)
    } else if si >= s.len() || li >= l.len() || li < -1 {
        None
    } else if !is_alnum(lower_first(s[si])) {
        match_from(s, l, si - 1, li)
    } else if li < 0 {
        None
    } else if lower_first(l[li]) == lower_first(s[si]) && !(si == 0 && li > 0 && is_alnum(l[li - 1])) {
        match_from(s, l, si - 1, li - 1)
    } else {
        match_from(s, l, si, li - 1)
    }
}

/// One past the last whitespace char before position `m`, or 0.
pub open spec fn word_start(l: Seq<char>, m: int) -> int
    decreases m,
{
    if m <= 0 {
        0
    } else if is_ws(l[m - 1]) {
        m
    } else {
        word_start(l, m - 1)
    }
}

/// Where the expansion of `s` begins in `l`: the start of the word holding the char the
/// short form's first char matched. `None` when either is empty or there is no match.
pub open spec fn spec_best_long_form(s: Seq<char>, l: Seq<char>) -> Option<int> {
    if s.len() == 0 || l.len() == 0 {
        None
    } else {
        match match_from(s, l, s.len() - 1, l.len() - 1) {
            None => None,
            Some(m) => Some(word_start(l, if m < 0 { 0 } else { m })),
        }
    }
}

pub proof fn lemma_match_from(s: Seq<char>, l: Seq<char>, si: int, li: int)
    requires
        -1 <= li < l.len(),
        si < s.len(),
    ensures
        match_from(s, l, si, li) matches Some(m) ==> 0 <= m <= l.len() && m <= li + 1,
    decreases si + li + 2,
{
    if si < 0 {
    } else if !is_alnum(lower_first(s[si])) {
        lemma_match_from(s, l, si - 1, li);
    } else if li < 0 {
    } else if lower_first(l[li]) == lower_first(s[si]) && !(si == 0 && li > 0 && is_alnum(l[li - 1])) {
        lemma_match_from(s, l, si - 1, li - 1);
    } else {
        lemma_match_from(s, l, si, li - 1);
    }
}

pub proof fn lemma_word_start(l: Seq<char>, m: int)
    requires
        0 <= m <= l.len(),
    ensures
        0 <= word_start(l, m) <= m,
    decreases m,
{
    if m > 0 && !is_ws(l[m - 1]) {
        lemma_word_start(l, m - 1);
    }
}

/// `pos` places the short form's chars `0..=si` in the long form at positions `0..=li`:
/// each alphanumeric short-form char at a long-form char equal to it once lowercased,
/// in order, and — only for the short form's first char — at the start of a word (at
/// position 0 or after a char that is not alphanumeric). The other chars may land
/// anywhere, the middle of a word included.
pub open spec fn embeds(s: Seq<char>, l: Seq<char>, pos: Seq<int>, si: int, li: int) -> bool {
    &&& pos.len() == s.len()
    &&& forall|i: int|
        0 <= i <= si && is_alnum(lower_first(s[i])) ==> 0 <= #[trigger] pos[i] <= li && pos[i] < l.len()
            && lower_first(l[pos[i]]) == lower_first(s[i])
    &&& forall|i: int, j: int|
        0 <= i < j <= si && is_alnum(lower_first(s[i])) && is_alnum(lower_first(s[j])) ==> #[trigger] pos[i]
            < #[trigger] pos[j]
    &&& (0 <= si && s.len() > 0 && is_alnum(lower_first(s[0]))) ==> (pos[0] == 0 || !is_alnum(l[pos[0] - 1]))
}

proof fn lemma_match_from_complete(s: Seq<char>, l: Seq<char>, pos: Seq<int>, si: int, li: int)
    requires
        -1 <= si < s.len(),
        -1 <= li < l.len(),
        embeds(s, l, pos, si, li),
    ensures
        match_from(s, l, si, li) is Some,
    decreases si + li + 2,
{
    if si < 0 {
    } else if !is_alnum(lower_first(s[si])) {
        lemma_match_from_complete(s, l, pos, si - 1, li);
    } else {
        assert(0 <= pos[si] <= li);
        if lower_first(l[li]) == lower_first(s[si]) && !(si == 0 && li > 0 && is_alnum(l[li - 1])) {
            assert forall|i: int| 0 <= i <= si - 1 && is_alnum(lower_first(s[i])) implies #[trigger] pos[i] <= li - 1 by {
                assert(pos[i] < pos[si]);
            }
            lemma_match_from_complete(s, l, pos, si - 1, li - 1);
        } else {
            assert(pos[si] != li);
            assert forall|i: int| 0 <= i <= si && is_alnum(lower_first(s[i])) implies #[trigger] pos[i] <= li - 1 by {
                if i < si {
                    assert(pos[i] < pos[si]);
                }
            }
            lemma_match_from_complete(s, l, pos, si, li - 1);
        }
    }
}

/// Schwartz–Hearst completeness: whenever the short form's alphanumeric chars can be
/// found in the window in order, case aside, with only the first one required to start a
/// word, a long form is found. (`DNA` in "We extracted deoxyribonucleic acid" finds
/// "deoxyribonucleic acid", though its `N` falls mid-word.)
pub proof fn lemma_best_long_form_complete(s: Seq<char>, l: Seq<char>, pos: Seq<int>)
    requires
        s.len() > 0,
        l.len() > 0,
        embeds(s, l, pos, s.len() - 1, l.len() - 1),
    ensures
        spec_best_long_form(s, l) is Some,
{
    lemma_match_from_complete(s, l, pos, s.len() - 1, l.len() - 1);
}

/// Schwartz–Hearst's matching rule: the char position in `l` where the expansion of the
/// short form `s` begins.
///
/// The first-char condition is what stops `SOP` matching the tail of "workshops".
pub fn best_long_form(s: &[char], l: &[char]) -> (r: Option<usize>)
    ensures
        match spec_best_long_form(s@, l@) {
            None => r is None,
            Some(k) => 0 <= k <= l.len() && r == Some(k as usize),
        },
        s.len() > 0 && l.len() > 0 && (exists|pos: Seq<int>| #[trigger] embeds(s@, l@, pos, s.len() - 1, l.len() - 1))
            ==> r is Some,
{
    proof {
        if s.len() > 0 && l.len() > 0 && (exists|pos: Seq<int>| #[trigger] embeds(s@, l@, pos, s.len() - 1, l.len() - 1)) {
            let pos = choose|pos: Seq<int>| #[trigger] embeds(s@, l@, pos, s.len() - 1, l.len() - 1);
            lemma_best_long_form_complete(s@, l@, pos);
        }
    }
    if s.len() == 0 || l.len() == 0 {
        return None;
    }
    let mut si: usize = s.len();
    let mut li: usize = l.len();
    // `si` and `li` hold one past the positions the rule is at.
    while si > 0
        invariant
            si <= s.len(),
            li <= l.len(),
            s.len() > 0,
            l.len() > 0,
            match_from(s@, l@, s.len() - 1, l.len() - 1) == match_from(s@, l@, si - 1, li - 1),
        decreases si + li,
    {
        let curr = char_lower(s[si - 1]);
        if !char_is_alphanumeric(curr) {
            si = si - 1;
            continue;
        }
        let ghost li0 = li;
        while li > 0 && !matches_at_position(s, l, si, li, curr)
            invariant
                li <= li0,
                0 < si <= s.len(),
                li <= l.len(),
                is_alnum(lower_first(s@[si - 1])),
                curr == lower_first(s@[si - 1]),
                match_from(s@, l@, s.len() - 1, l.len() - 1) == match_from(s@, l@, si - 1, li - 1),
            decreases li,
        {
            li = li - 1;
        }
        if li == 0 {
            proof {
                assert(match_from(s@, l@, si - 1, -1) is None);
                if exists|pos: Seq<int>| #[trigger] embeds(s@, l@, pos, s.len() - 1, l.len() - 1) {
                    let pos = choose|pos: Seq<int>| #[trigger] embeds(s@, l@, pos, s.len() - 1, l.len() - 1);
                    lemma_best_long_form_complete(s@, l@, pos);
                }
            }
            return None;
        }
        li = li - 1;
        si = si - 1;
    }
    proof {
        lemma_match_from(s@, l@, s.len() - 1, l.len() - 1);
        lemma_word_start(l@, li as int);
    }
    let m = li;
    let mut w = m;
    while w > 0 && !char_is_whitespace(l[w - 1])
        invariant
            w <= m <= l.len(),
            word_start(l@, m as int) == word_start(l@, w as int),
        decreases w,
    {
        w = w - 1;
    }
    Some(w)
}

/// Whether the short-form char before `si` matches the long-form char before `li`: the
/// same lowercase char, and not in the middle of a word when it is the first short-form
/// char.
fn matches_at_position(s: &[char], l: &[char], si: usize, li: usize, curr: char) -> (r: bool)
    requires
        0 < si <= s.len(),
        0 < li <= l.len(),
    ensures
        r == (lower_first(l@[li - 1]) == curr && !(si - 1 == 0 && li - 1 > 0 && is_alnum(l@[li - 2]))),
{
    let lc = char_lower(l[li - 1]);
    let mid_word = si == 1 && li > 1 && char_is_alphanumeric(l[li - 2]);
    lc == curr && !mid_word
}

/// Whether `a` and `b` are equal once ASCII letters are lowercased.
pub open spec fn eq_ignore_ascii_case(a: Seq<char>, b: Seq<char>) -> bool {
    a.len() == b.len() && forall|i: int| 0 <= i < a.len() ==> #[trigger] ascii_fold(a[i]) == ascii_fold(b[i])
}

pub open spec fn ascii_fold(c: char) -> char {
    if 'A' <= c && c <= 'Z' {
        (((c as u32) + 32) as u8) as char
    } else {
        c
    }
}

fn ascii_fold_char(c: char) -> (r: char)
    ensures
        r == ascii_fold(c),
{
    if 'A' <= c && c <= 'Z' {
        ((c as u32) + 32) as u8 as char
    } else {
        c
    }
}

fn equal_ignoring_ascii_case(a: &[char], b: &[char]) -> (r: bool)
    ensures
        r == eq_ignore_ascii_case(a@, b@),
{
    if a.len() != b.len() {
        return false;
    }
    let mut i: usize = 0;
    while i < a.len()
        invariant
            a.len() == b.len(),
            i <= a.len(),
            forall|k: int| 0 <= k < i ==> #[trigger] ascii_fold(a@[k]) == ascii_fold(b@[k]),
        decreases a.len() - i,
    {
        if ascii_fold_char(a[i]) != ascii_fold_char(b[i]) {
            return false;
        }
        i = i + 1;
    }
    true
}

/// A match that is technically valid but says nothing is rejected: the expansion must
/// hold at least one and at most a window's worth of words, none of them the short form
/// itself (`X (X)` is a restatement), and be longer than the short form.
pub open spec fn spec_plausible_expansion(short: Seq<char>, long: Seq<char>) -> bool {
    let words = split_ws(long);
    &&& words.len() > 0
    &&& words.len() <= spec_window_words(short)
    &&& forall|i: int| 0 <= i < words.len() ==> !eq_ignore_ascii_case(#[trigger] words[i], short)
    &&& long.len() > short.len()
}

fn is_plausible_expansion(short: &[char], long: &[char]) -> (r: bool)
    requires
        short.len() < usize::MAX / 2,
    ensures
        r == spec_plausible_expansion(short@, long@),
{
    let words = split_ws_chars(long);
    if words.len() == 0 || words.len() > window_words(short) {
        return false;
    }
    let mut i: usize = 0;
    while i < words.len()
        invariant
            i <= words.len(),
            words@.len() == split_ws(long@).len(),
            forall|k: int| 0 <= k < words.len() ==> (#[trigger] words@[k])@ == split_ws(long@)[k],
            forall|k: int| 0 <= k < i ==> !eq_ignore_ascii_case(#[trigger] split_ws(long@)[k], short@),
        decreases words.len() - i,
    {
        if equal_ignoring_ascii_case(words[i].as_slice(), short) {
            return false;
        }
        i = i + 1;
    }
    long.len() > short.len()
}

// ---------------------------------------------------------------------------------------
// Finding definitions in a clause
// ---------------------------------------------------------------------------------------

/// The first position in `[from, to)` holding `ch`, or `to`.
pub open spec fn find_char(s: Seq<char>, from: int, to: int, ch: char) -> int
    decreases to - from,
{
    if from >= to {
        to
    } else if s[from] == ch {
        from
    } else {
        find_char(s, from + 1, to, ch)
    }
}

pub proof fn lemma_find_char(s: Seq<char>, from: int, to: int, ch: char)
    requires
        from <= to,
    ensures
        from <= find_char(s, from, to, ch) <= to,
    decreases to - from,
{
    if from < to && s[from] != ch {
        lemma_find_char(s, from + 1, to, ch);
    }
}

fn find_char_exec(s: &Vec<char>, from: usize, to: usize, ch: char) -> (r: usize)
    requires
        from <= to <= s.len(),
    ensures
        r == find_char(s@, from as int, to as int, ch),
        from <= r <= to,
{
    let mut k = from;
    while k < to && s[k] != ch
        invariant
            from <= k <= to <= s.len(),
            find_char(s@, from as int, to as int, ch) == find_char(s@, k as int, to as int, ch),
        decreases to - k,
    {
        k = k + 1;
    }
    k
}

/// `[a, b)` with surrounding whitespace removed.
pub open spec fn trimmed_span(s: Seq<char>, a: int, b: int) -> (int, int) {
    let f = first_non_ws(s, a, b);
    (f, end_non_ws(s, f, b))
}

fn trimmed(s: &Vec<char>, a: usize, b: usize) -> (r: (usize, usize))
    requires
        a <= b <= s.len(),
    ensures
        r.0 == trimmed_span(s@, a as int, b as int).0,
        r.1 == trimmed_span(s@, a as int, b as int).1,
        a <= r.0 <= r.1 <= b,
{
    let mut f = a;
    while f < b && char_is_whitespace(s[f])
        invariant
            a <= f <= b <= s.len(),
            first_non_ws(s@, a as int, b as int) == first_non_ws(s@, f as int, b as int),
        decreases b - f,
    {
        f = f + 1;
    }
    let mut e = b;
    while e > f && char_is_whitespace(s[e - 1])
        invariant
            f <= e <= b <= s.len(),
            end_non_ws(s@, f as int, b as int) == end_non_ws(s@, f as int, e as int),
        decreases e,
    {
        e = e - 1;
    }
    (f, e)
}

/// The span of the last token of `s[a..b]`, if it has one.
pub open spec fn spec_last_word(s: Seq<char>, a: int, b: int) -> Option<(int, int)> {
    let ts = token_spans(s.subrange(a, b));
    if ts.len() == 0 {
        None
    } else {
        Some((a + ts.last().0, a + ts.last().1))
    }
}

/// The span of the expansion before a parenthesis at `open`, looked for in the window of
/// words preceding it in the clause that starts at `a`.
///
/// The window is bounded exactly as the paper specifies — `min(|SF| + 5, |SF| * 2)`
/// words. Unbounded search would let a three-letter acronym reach back across a whole
/// clause and assemble an expansion out of unrelated words.
pub open spec fn spec_long_form_before(s: Seq<char>, a: int, open: int, short: Seq<char>) -> Option<(int, int)> {
    let ts = token_spans(s.subrange(a, open));
    if ts.len() == 0 {
        None
    } else {
        let limit = spec_window_words(short);
        let first = if limit <= ts.len() {
            ts.len() - limit
        } else {
            0
        };
        let start = a + ts[first].0;
        let wend = start + end_non_ws(s.subrange(start, open), 0, open - start);
        if wend == start {
            None
        } else {
            match spec_best_long_form(short, s.subrange(start, wend)) {
                None => None,
                Some(o) => if spec_plausible_expansion(short, s.subrange(start + o, wend)) {
                    Some((start + o, wend))
                } else {
                    None
                },
            }
        }
    }
}

/// A definition found in a clause: the char spans of the short form and of its
/// expansion.
pub type PairView = ((int, int), (int, int));

/// The definitions in the clause `[cs, ce)` from position `search` on: each parenthesis
/// either holds a short form whose expansion precedes it — `long form (short form)`, the
/// common case — or follows a short form and holds its expansion — `short form (long
/// form)`.
///
/// Clause scope is the point: a parenthetical takes its meaning from the clause it sits
/// in, and a window that ran past a full stop would define an acronym out of the previous
/// sentence's words.
pub open spec fn pairs_from(res: Resources, s: Seq<char>, cs: int, ce: int, search: int) -> Seq<PairView>
    decreases ce - search,
{
    if search >= ce {
        Seq::empty()
    } else {
        let open = find_char(s, search, ce, '(');
        if open >= ce {
            Seq::empty()
        } else {
            proof {
                lemma_find_char(s, search, ce, '(');
                lemma_find_char(s, open + 1, ce, ')');
            }
            let close = find_char(s, open + 1, ce, ')');
            if close >= ce {
                Seq::empty()
            } else {
                let rest = pairs_from(res, s, cs, ce, close + 1);
                let inner = trimmed_span(s, open + 1, close);
                let inner_text = s.subrange(inner.0, inner.1);
                if inner.0 >= inner.1 {
                    rest
                } else if spec_short_form_candidate(res, inner_text) && spec_long_form_before(
                    s,
                    cs,
                    open,
                    inner_text,
                ) is Some {
                    seq![(inner, spec_long_form_before(s, cs, open, inner_text)->0)] + rest
                } else {
                    match spec_last_word(s, cs, open) {
                        None => rest,
                        Some(sw) => {
                            let short_text = s.subrange(sw.0, sw.1);
                            if spec_short_form_candidate(res, short_text) && split_ws(inner_text).len() > 2 {
                                match spec_best_long_form(short_text, inner_text) {
                                    None => rest,
                                    Some(o) => if spec_plausible_expansion(
                                        short_text,
                                        s.subrange(inner.0 + o, inner.1),
                                    ) {
                                        seq![(sw, (inner.0 + o, inner.1))] + rest
                                    } else {
                                        rest
                                    },
                                }
                            } else {
                                rest
                            }
                        },
                    }
                }
            }
        }
    }
}

fn last_word(s: &Vec<char>, a: usize, b: usize) -> (r: Option<(usize, usize)>)
    requires
        a <= b <= s.len(),
    ensures
        match spec_last_word(s@, a as int, b as int) {
            None => r is None,
            Some(w) => r is Some && (r->0).0 == w.0 && (r->0).1 == w.1 && a <= w.0 < w.1 <= b,
        },
{
    let sub = copy_range(s.as_slice(), a, b);
    let ts = token_char_spans(sub.as_slice());
    proof {
        lemma_token_spans_bounds(sub@, 0);
    }
    if ts.len() == 0 {
        return None;
    }
    let (x, y) = ts[ts.len() - 1];
    Some((a + x, a + y))
}

fn long_form_before(s: &Vec<char>, a: usize, open: usize, short: &[char]) -> (r: Option<(usize, usize)>)
    requires
        a <= open <= s.len(),
        2 <= short.len() <= 10,
    ensures
        match spec_long_form_before(s@, a as int, open as int, short@) {
            None => r is None,
            Some(l) => r is Some && (r->0).0 == l.0 && (r->0).1 == l.1 && a <= l.0 <= l.1 <= open,
        },
{
    let sub = copy_range(s.as_slice(), a, open);
    let ts = token_char_spans(sub.as_slice());
    proof {
        lemma_token_spans_bounds(sub@, 0);
    }
    if ts.len() == 0 {
        return None;
    }
    let limit = window_words(short);
    let first = if limit <= ts.len() {
        ts.len() - limit
    } else {
        0
    };
    proof {
        assert(first < ts.len());
        assert(0 <= token_spans(sub@)[first as int].0 < token_spans(sub@)[first as int].1 <= sub@.len());
    }
    let start = a + ts[first].0;
    let win = copy_range(s.as_slice(), start, open);
    let mut e = win.len();
    while e > 0 && char_is_whitespace(win[e - 1])
        invariant
            e <= win.len(),
            end_non_ws(win@, 0, win.len() as int) == end_non_ws(win@, 0, e as int),
        decreases e,
    {
        e = e - 1;
    }
    if e == 0 {
        return None;
    }
    let wend = start + e;
    let window = copy_range(s.as_slice(), start, wend);
    proof {
        assert(window@ =~= s@.subrange(start as int, wend as int));
    }
    match best_long_form(short, window.as_slice()) {
        None => None,
        Some(o) => {
            proof {
                assert(spec_best_long_form(short@, window@) is Some);
                assert(o <= window.len());
            }
            let cand = copy_range(s.as_slice(), start + o, wend);
            if is_plausible_expansion(short, cand.as_slice()) {
                Some((start + o, wend))
            } else {
                None
            }
        },
    }
}

fn is_short_form_at(res: &Resources, s: &Vec<char>, a: usize, b: usize) -> (r: bool)
    requires
        res.wf(),
        a <= b <= s.len(),
    ensures
        r == spec_short_form_candidate(*res, s@.subrange(a as int, b as int)),
        r ==> b - a <= 10,
{
    let t = copy_range(s.as_slice(), a, b);
    is_short_form_candidate(res, t.as_slice())
}

/// Find `long form (short form)` and `short form (long form)` within one clause.
fn collect_pairs(res: &Resources, s: &Vec<char>, cs: usize, ce: usize, out: &mut Vec<((usize, usize), (usize, usize))>)
    requires
        res.wf(),
        cs <= ce <= s.len(),
        forall|k: int| 0 <= k < old(out)@.len() ==> pair_in_bounds(#[trigger] old(out)@[k], s@.len()),
    ensures
        pair_views(final(out)@) == pair_views(old(out)@) + pairs_from(*res, s@, cs as int, ce as int, cs as int),
        forall|k: int| 0 <= k < final(out)@.len() ==> pair_in_bounds(#[trigger] final(out)@[k], s@.len()),
{
    let ghost start = pair_views(out@);
    let ghost old_len = out@.len();
    let mut search = cs;
    while search < ce
        invariant
            res.wf(),
            cs <= search,
            cs <= ce <= s.len(),
            out@.len() >= old_len,
            pair_views(out@) + pairs_from(*res, s@, cs as int, ce as int, search as int) == start + pairs_from(
                *res,
                s@,
                cs as int,
                ce as int,
                cs as int,
            ),
            forall|k: int| 0 <= k < out@.len() ==> pair_in_bounds(#[trigger] out@[k], s@.len()),
        decreases ce - search,
    {
        let open = find_char_exec(s, search, ce, '(');
        if open >= ce {
            proof {
                assert(pairs_from(*res, s@, cs as int, ce as int, search as int) =~= Seq::<PairView>::empty());
                assert(pair_views(out@) + Seq::<PairView>::empty() =~= pair_views(out@));
            }
            search = ce;
            proof {
                assert(pairs_from(*res, s@, cs as int, ce as int, search as int) =~= Seq::<PairView>::empty());
            }
            continue;
        }
        let close = find_char_exec(s, open + 1, ce, ')');
        if close >= ce {
            proof {
                assert(pairs_from(*res, s@, cs as int, ce as int, search as int) =~= Seq::<PairView>::empty());
            }
            search = ce;
            proof {
                assert(pair_views(out@) + Seq::<PairView>::empty() =~= pair_views(out@));
            }
            continue;
        }
        let ghost rest = pairs_from(*res, s@, cs as int, ce as int, close + 1);
        let (ia, ib) = trimmed(s, open + 1, close);
        let ghost before_out = pair_views(out@);
        if ia >= ib {
            search = close + 1;
            continue;
        }
        let mut done = false;
        if is_short_form_at(res, s, ia, ib) {
            let inner = copy_range(s.as_slice(), ia, ib);
            proof {
                assert(inner@.len() >= 2);
            }
            match long_form_before(s, cs, open, inner.as_slice()) {
                Some(long) => {
                    out.push(((ia, ib), long));
                    proof {
                        assert(pair_views(out@) =~= before_out.push(((ia as int, ib as int), (long.0 as int, long.1 as int))));
                        assert(before_out + (seq![((ia as int, ib as int), (long.0 as int, long.1 as int))] + rest) =~= pair_views(out@) + rest);
                    }
                    done = true;
                },
                None => {},
            }
        }
        if !done {
            match last_word(s, cs, open) {
                None => {},
                Some(sw) => {
                    if is_short_form_at(res, s, sw.0, sw.1) {
                        let inner = copy_range(s.as_slice(), ia, ib);
                        let words = split_ws_chars(inner.as_slice());
                        if words.len() > 2 {
                            let short = copy_range(s.as_slice(), sw.0, sw.1);
                            match best_long_form(short.as_slice(), inner.as_slice()) {
                                None => {},
                                Some(o) => {
                                    proof {
                                        assert(spec_best_long_form(short@, inner@) is Some);
                                        assert(o <= inner.len());
                                    }
                                    let cand = copy_range(s.as_slice(), ia + o, ib);
                                    if is_plausible_expansion(short.as_slice(), cand.as_slice()) {
                                        out.push((sw, (ia + o, ib)));
                                        proof {
                                            assert(pair_views(out@) =~= before_out.push(((sw.0 as int, sw.1 as int), ((ia + o) as int, ib as int))));
                                            assert(before_out + (seq![((sw.0 as int, sw.1 as int), ((ia + o) as int, ib as int))] + rest) =~= pair_views(out@) + rest);
                                        }
                                    }
                                },
                            }
                        }
                    }
                },
            }
        }
        search = close + 1;
    }
}

pub open spec fn pair_views(v: Seq<((usize, usize), (usize, usize))>) -> Seq<PairView> {
    v.map_values(|p: ((usize, usize), (usize, usize))| (((p.0).0 as int, (p.0).1 as int), ((p.1).0 as int, (p.1).1 as int)))
}

pub open spec fn pair_in_bounds(p: ((usize, usize), (usize, usize)), n: nat) -> bool {
    (p.0).0 <= (p.0).1 <= n && (p.1).0 <= (p.1).1 <= n
}

// ---------------------------------------------------------------------------------------
// Records
// ---------------------------------------------------------------------------------------

/// Every definition in the text, clause by clause, in order.
pub open spec fn pairs_of_clauses(res: Resources, s: Seq<char>, cl: Seq<(int, int)>) -> Seq<PairView>
    decreases cl.len(),
{
    if cl.len() == 0 {
        Seq::empty()
    } else {
        pairs_of_clauses(res, s, cl.drop_last()) + pairs_from(res, s, cl.last().0, cl.last().1, cl.last().0)
    }
}

pub open spec fn spec_pairs(res: Resources, s: Seq<char>) -> Seq<PairView> {
    pairs_of_clauses(res, s, clause_spans(s))
}

/// A definition record as the specification sees it: the first surface seen, the
/// normalised form, the byte span of every definition site, and the expansion.
pub type DefView = (Seq<char>, Seq<char>, Seq<(int, int)>, Seq<char>);

pub open spec fn find_def(acc: Seq<DefView>, key: Seq<char>) -> int
    decreases acc.len(),
{
    if acc.len() == 0 {
        -1
    } else if acc.last().1 == key {
        acc.len() - 1
    } else {
        find_def(acc.drop_last(), key)
    }
}

pub proof fn lemma_find_def(acc: Seq<DefView>, key: Seq<char>)
    ensures
        -1 <= find_def(acc, key) < acc.len(),
    decreases acc.len(),
{
    if acc.len() > 0 && acc.last().1 != key {
        lemma_find_def(acc.drop_last(), key);
    }
}

/// Record one site of a defined term: one record per distinct normalised form, whose
/// expansion is that of the definition that first produced it, and whose sites are
/// listed once each.
pub open spec fn add_def(acc: Seq<DefView>, surface: Seq<char>, span: (int, int), exp: Seq<char>) -> Seq<DefView> {
    let key = squeezed(lowercase(surface));
    let k = find_def(acc, key);
    if k < 0 {
        acc.push((surface, key, seq![span], exp))
    } else if acc[k].2.contains(span) {
        acc
    } else {
        acc.update(k, (acc[k].0, acc[k].1, acc[k].2.push(span), acc[k].3))
    }
}

/// The byte span of the char span `p`.
pub open spec fn bytes_of(s: Seq<char>, p: (int, int)) -> (int, int) {
    (byte_at(s, p.0) as int, byte_at(s, p.1) as int)
}

/// The records of the first `k` definitions: each yields its short form, then its long
/// form, both carrying the long form's words joined by single spaces as the expansion.
pub open spec fn defs_upto(s: Seq<char>, pairs: Seq<PairView>, k: int) -> Seq<DefView>
    decreases k,
{
    if k <= 0 || k > pairs.len() {
        Seq::empty()
    } else {
        let acc = defs_upto(s, pairs, k - 1);
        let p = pairs[k - 1];
        let short = s.subrange(p.0.0, p.0.1);
        let long = s.subrange(p.1.0, p.1.1);
        let exp = squeezed(long);
        add_def(add_def(acc, short, bytes_of(s, p.0), exp), long, bytes_of(s, p.1), exp)
    }
}

/// Every Stage 2 record of the canonical text.
pub open spec fn spec_definitions(res: Resources, s: Seq<char>) -> Seq<DefView> {
    defs_upto(s, spec_pairs(res, s), spec_pairs(res, s).len() as int)
}

/// Whether a byte span is where some chars of the text sit that, lowercased and with
/// internal whitespace collapsed, are `key`.
pub open spec fn site_resolves(s: Seq<char>, key: Seq<char>, span: (int, int)) -> bool {
    exists|a: int, b: int| span == (byte_at(s, a) as int, byte_at(s, b) as int) && squeezed(lowercase(#[trigger] s.subrange(a, b))) == key
}

pub open spec fn all_sites_resolve(s: Seq<char>, acc: Seq<DefView>) -> bool {
    forall|i: int, k: int| 0 <= i < acc.len() && 0 <= k < acc[i].2.len() ==> site_resolves(s, acc[i].1, #[trigger] acc[i].2[k])
}

proof fn lemma_add_def_resolves(s: Seq<char>, acc: Seq<DefView>, p: (int, int), exp: Seq<char>)
    requires
        all_sites_resolve(s, acc),
    ensures
        all_sites_resolve(s, add_def(acc, s.subrange(p.0, p.1), bytes_of(s, p), exp)),
{
    let surface = s.subrange(p.0, p.1);
    let key = squeezed(lowercase(surface));
    let span = bytes_of(s, p);
    assert(site_resolves(s, key, span));
    let k = find_def(acc, key);
    lemma_find_def(acc, key);
    let r = add_def(acc, surface, span, exp);
    if k < 0 {
        assert forall|i: int, j: int| 0 <= i < r.len() && 0 <= j < r[i].2.len() implies site_resolves(s, r[i].1, #[trigger] r[i].2[j]) by {
            if i < acc.len() {
                assert(r[i] == acc[i]);
            } else {
                assert(r[i].2 =~= seq![span]);
            }
        }
    } else if !acc[k].2.contains(span) {
        assert(acc[k].1 == key) by {
            lemma_find_def_key(acc, key);
        }
        assert forall|i: int, j: int| 0 <= i < r.len() && 0 <= j < r[i].2.len() implies site_resolves(s, r[i].1, #[trigger] r[i].2[j]) by {
            if i != k {
                assert(r[i] == acc[i]);
            } else if j < acc[k].2.len() {
                assert(r[i].2[j] == acc[k].2[j]);
            }
        }
    }
}

proof fn lemma_find_def_key(acc: Seq<DefView>, key: Seq<char>)
    ensures
        find_def(acc, key) >= 0 ==> acc[find_def(acc, key)].1 == key,
    decreases acc.len(),
{
    if acc.len() > 0 && acc.last().1 != key {
        lemma_find_def_key(acc.drop_last(), key);
        lemma_find_def(acc.drop_last(), key);
        let j = find_def(acc.drop_last(), key);
        if j >= 0 {
            assert(acc[j] == acc.drop_last()[j]);
        }
    }
}

proof fn lemma_defs_upto_resolve(s: Seq<char>, pairs: Seq<PairView>, k: int)
    ensures
        all_sites_resolve(s, defs_upto(s, pairs, k)),
    decreases k,
{
    if !(k <= 0 || k > pairs.len()) {
        lemma_defs_upto_resolve(s, pairs, k - 1);
        let acc = defs_upto(s, pairs, k - 1);
        let p = pairs[k - 1];
        let exp = squeezed(s.subrange(p.1.0, p.1.1));
        lemma_add_def_resolves(s, acc, p.0, exp);
        lemma_add_def_resolves(s, add_def(acc, s.subrange(p.0.0, p.0.1), bytes_of(s, p.0), exp), p.1, exp);
    }
}

/// Every definition site of every Stage 2 record resolves: its byte span is where the
/// text holds chars that, lowercased and with the whitespace a line wrap leaves behind
/// collapsed, are the record's normalised form.
pub proof fn lemma_definition_sites_resolve(res: Resources, s: Seq<char>, i: int, k: int)
    requires
        0 <= i < spec_definitions(res, s).len(),
        0 <= k < spec_definitions(res, s)[i].2.len(),
    ensures
        site_resolves(s, spec_definitions(res, s)[i].1, spec_definitions(res, s)[i].2[k]),
{
    lemma_defs_upto_resolve(s, spec_pairs(res, s), spec_pairs(res, s).len() as int);
}

/// A term the document defined, with where it did so and what it expands to.
#[derive(Debug, Clone, PartialEq, Eq)]
pub struct DefinitionRecord {
    /// The form as it appears in the canonical text, line wrap and all, so its offsets
    /// resolve.
    pub original_keyword: String,
    /// Lowercased, internal whitespace collapsed to single spaces.
    pub normalised: String,
    /// Byte offsets of each definition site.
    pub offsets: Vec<core::ops::Range<usize>>,
    /// The canonical one-line expansion.
    pub expansion: String,
    /// A defined term is technical vocabulary, whatever its shape.
    pub kind: Kind,
    pub origin: Origin,
}

pub open spec fn record_matches(r: DefinitionRecord, v: DefView) -> bool {
    &&& r.original_keyword@ == v.0
    &&& r.normalised@ == v.1
    &&& r.offsets@.len() == v.2.len()
    &&& forall|k: int| 0 <= k < v.2.len() ==> (#[trigger] r.offsets@[k]).start == v.2[k].0 && r.offsets@[k].end == v.2[k].1
    &&& r.expansion@ == v.3
    &&& r.kind == Kind::Technical
    &&& r.origin == Origin::Definition
}

struct DefGathered {
    surface: Vec<char>,
    key: Vec<char>,
    spans: Vec<(usize, usize)>,
    exp: Vec<char>,
}

spec fn def_view(g: DefGathered) -> DefView {
    (g.surface@, g.key@, g.spans@.map_values(|p: (usize, usize)| (p.0 as int, p.1 as int)), g.exp@)
}

spec fn def_views(v: Seq<DefGathered>) -> Seq<DefView> {
    v.map_values(|g: DefGathered| def_view(g))
}

fn same_chars(a: &[char], b: &[char]) -> (r: bool)
    ensures
        r == (a@ == b@),
{
    if a.len() != b.len() {
        return false;
    }
    let mut i: usize = 0;
    while i < a.len()
        invariant
            a.len() == b.len(),
            i <= a.len(),
            forall|k: int| 0 <= k < i ==> a@[k] == b@[k],
        decreases a.len() - i,
    {
        if a[i] != b[i] {
            return false;
        }
        i = i + 1;
    }
    proof {
        assert(a@ =~= b@);
    }
    true
}

fn record_def(acc: &mut Vec<DefGathered>, surface: &[char], span: (usize, usize), exp: &[char])
    ensures
        def_views(final(acc)@) == add_def(def_views(old(acc)@), surface@, (span.0 as int, span.1 as int), exp@),
{
    let ghost v = def_views(acc@);
    let lo = lower_chars(surface);
    let key = squeeze(lo.as_slice());
    let mut i: usize = acc.len();
    proof {
        assert(v.take(acc.len() as int) =~= v);
    }
    while i > 0 && !same_chars(acc[i - 1].key.as_slice(), key.as_slice())
        invariant
            v == def_views(acc@),
            i <= acc.len(),
            find_def(v, key@) == find_def(v.take(i as int), key@),
        decreases i,
    {
        proof {
            assert(v.take(i as int).drop_last() =~= v.take(i - 1));
            assert(v.take(i as int).last() == def_view(acc@[i - 1]));
        }
        i = i - 1;
    }
    proof {
        if i > 0 {
            assert(v.take(i as int).last() == def_view(acc@[i - 1]));
        }
    }
    let found = i > 0;
    if !found {
        proof {
            assert(i == 0);
            assert(v.take(0) =~= Seq::<DefView>::empty());
        }
        let mut spans: Vec<(usize, usize)> = Vec::new();
        spans.push(span);
        let g = DefGathered {
            surface: copy_range(surface, 0, surface.len()),
            key,
            spans,
            exp: copy_range(exp, 0, exp.len()),
        };
        proof {
            assert(surface@.subrange(0, surface@.len() as int) =~= surface@);
            assert(exp@.subrange(0, exp@.len() as int) =~= exp@);
            assert(def_view(g).2 =~= seq![(span.0 as int, span.1 as int)]);
        }
        acc.push(g);
        proof {
            assert(def_views(acc@) =~= v.push(def_view(g)));
        }
    } else {
        let k = i - 1;
        proof {
            assert(find_def(v.take(i as int), key@) == k);
        }
        let mut present = false;
        let mut j: usize = 0;
        while j < acc[k].spans.len()
            invariant
                k < acc.len(),
                v == def_views(acc@),
                j <= acc@[k as int].spans.len(),
                present == exists|q: int| 0 <= q < j && acc@[k as int].spans@[q] == span,
            decreases acc@[k as int].spans.len() - j,
        {
            if acc[k].spans[j].0 == span.0 && acc[k].spans[j].1 == span.1 {
                present = true;
            }
            j = j + 1;
        }
        let ghost sp = v[k as int].2;
        proof {
            assert(sp == acc@[k as int].spans@.map_values(|p: (usize, usize)| (p.0 as int, p.1 as int)));
            if present {
                let q = choose|q: int| 0 <= q < acc@[k as int].spans@.len() && acc@[k as int].spans@[q] == span;
                assert(sp[q] == (span.0 as int, span.1 as int));
            } else {
                assert forall|q: int| 0 <= q < sp.len() implies sp[q] != (span.0 as int, span.1 as int) by {
                    assert(acc@[k as int].spans@[q] != span);
                }
            }
        }
        if !present {
            let mut g = acc.remove(k);
            let ghost old_spans = def_view(g).2;
            g.spans.push(span);
            proof {
                assert(def_view(g).2 =~= old_spans.push((span.0 as int, span.1 as int)));
            }
            acc.insert(k, g);
            proof {
                assert(def_views(acc@) =~= v.update(k as int, (v[k as int].0, v[k as int].1, v[k as int].2.push((span.0 as int, span.1 as int)), v[k as int].3)));
            }
        }
    }
}

/// Every term the canonical text defines, with both halves of each definition.
///
/// One record per distinct normalised form, unioning the sites that produced it: a term
/// defined twice in one document is one term with two pieces of evidence. Records come in
/// the order their forms were first defined.
pub fn extract_definitions(text: &str, res: &Resources) -> (out: Vec<DefinitionRecord>)
    requires
        res.wf(),
        utf8_len(text@) <= usize::MAX,
    ensures
        out.len() == spec_definitions(*res, text@).len(),
        forall|i: int| 0 <= i < out.len() ==> record_matches(#[trigger] out@[i], spec_definitions(*res, text@)[i]),
{
    let s = chars_of(text);
    let offs = byte_offsets(s.as_slice());
    let cl = clause_char_spans(text);
    let ghost cls = clause_spans(text@);
    let mut pairs: Vec<((usize, usize), (usize, usize))> = Vec::new();
    let mut c: usize = 0;
    proof {
        assert(cls.take(0) =~= Seq::<(int, int)>::empty());
        assert(pair_views(pairs@) =~= Seq::<PairView>::empty());
    }
    while c < cl.len()
        invariant
            res.wf(),
            s@ == text@,
            cls == clause_spans(text@),
            cl.len() == cls.len(),
            forall|i: int| 0 <= i < cl.len() ==> (#[trigger] cl@[i]).0 == cls[i].0 && cl@[i].1 == cls[i].1,
            forall|i: int| 0 <= i < cl.len() ==> 0 <= (#[trigger] cl@[i]).0 <= cl@[i].1 <= text@.len(),
            c <= cl.len(),
            pair_views(pairs@) == pairs_of_clauses(*res, s@, cls.take(c as int)),
            forall|k: int| 0 <= k < pairs@.len() ==> pair_in_bounds(#[trigger] pairs@[k], s@.len()),
        decreases cl.len() - c,
    {
        let (cs, ce) = cl[c];
        proof {
            assert(cls.take(c + 1).drop_last() =~= cls.take(c as int));
            assert(cls.take(c + 1).last() == (cs as int, ce as int));
        }
        collect_pairs(res, &s, cs, ce, &mut pairs);
        c = c + 1;
    }
    proof {
        assert(cls.take(cl.len() as int) =~= cls);
    }
    let ghost ps = pair_views(pairs@);
    let mut acc: Vec<DefGathered> = Vec::new();
    let mut k: usize = 0;
    proof {
        assert(def_views(acc@) =~= Seq::<DefView>::empty());
    }
    while k < pairs.len()
        invariant
            s@ == text@,
            ps == pair_views(pairs@),
            ps == spec_pairs(*res, text@),
            forall|q: int| 0 <= q < pairs@.len() ==> pair_in_bounds(#[trigger] pairs@[q], s@.len()),
            offs.len() == s.len() + 1,
            forall|q: int| 0 <= q <= s.len() ==> offs@[q] == byte_at(s@, q),
            k <= pairs.len(),
            def_views(acc@) == defs_upto(s@, ps, k as int),
        decreases pairs.len() - k,
    {
        let ((sa, sb), (la, lb)) = pairs[k];
        proof {
            assert(pair_in_bounds(pairs@[k as int], s@.len()));
        }
        let short = copy_range(s.as_slice(), sa, sb);
        let long = copy_range(s.as_slice(), la, lb);
        let exp = squeeze(long.as_slice());
        record_def(&mut acc, short.as_slice(), (offs[sa], offs[sb]), exp.as_slice());
        record_def(&mut acc, long.as_slice(), (offs[la], offs[lb]), exp.as_slice());
        k = k + 1;
    }
    let mut out: Vec<DefinitionRecord> = Vec::new();
    let mut i: usize = 0;
    while i < acc.len()
        invariant
            def_views(acc@) == spec_definitions(*res, text@),
            i <= acc.len(),
            out.len() == i,
            forall|q: int| 0 <= q < i ==> record_matches(#[trigger] out@[q], spec_definitions(*res, text@)[q]),
        decreases acc.len() - i,
    {
        let g = &acc[i];
        let ghost v = def_view(*g);
        proof {
            assert(def_views(acc@)[i as int] == v);
        }
        let mut offsets: Vec<core::ops::Range<usize>> = Vec::new();
        let mut q: usize = 0;
        while q < g.spans.len()
            invariant
                v == def_view(*g),
                q <= g.spans.len(),
                offsets.len() == q,
                forall|t: int| 0 <= t < q ==> (#[trigger] offsets@[t]).start == v.2[t].0 && offsets@[t].end == v.2[t].1,
            decreases g.spans.len() - q,
        {
            let (a, b) = g.spans[q];
            offsets.push(core::ops::Range { start: a, end: b });
            q = q + 1;
        }
        let r = DefinitionRecord {
            original_keyword: string_from_chars(g.surface.as_slice()),
            normalised: string_from_chars(g.key.as_slice()),
            offsets,
            expansion: string_from_chars(g.exp.as_slice()),
            kind: Kind::Technical,
            origin: Origin::Definition,
        };
        out.push(r);
        i = i + 1;
    }
    out
}

} // verus!
