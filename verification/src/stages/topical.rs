//! Stage 3 — YAKE topical keyphrase extraction (Campos et al., 2020).
//!
//! YAKE is corpus-blind by construction — every feature is computed from the single
//! document. This module holds the stage's discrete part: which tokens count, which
//! n-grams are candidates, and every occurrence statistic the five term features are
//! built from. The features themselves are real-valued and are combined by the caller.

use vstd::prelude::*;

use crate::canonical::{append_all, copy_range};
use crate::config::Config;
use crate::resources::{folded, Resources};
use crate::stages::shape::{has_alpha, join_space, lower_chars, spec_stop};
use crate::text::{
    byte_at, byte_offsets, char_is_alphabetic, char_is_lowercase, char_is_uppercase, chars_of,
    is_alpha, is_lower, is_upper, lemma_len_le_utf8_len, lowercase, string_from_chars, utf8_len,
};
use crate::tokenize::{
    clause_char_spans, clause_spans, lemma_clause_spans_bounds, lemma_token_count_le_len,
    lemma_token_spans_bounds, token_char_spans, token_spans,
};

verus! {

/// The edit distance between `a` and `b`: the fewest single-char insertions, deletions
/// and substitutions that turn one into the other.
pub open spec fn edit_distance(a: Seq<char>, b: Seq<char>) -> nat
    decreases a.len() + b.len(),
{
    if a.len() == 0 {
        b.len()
    } else if b.len() == 0 {
        a.len()
    } else {
        let sub = edit_distance(a.drop_last(), b.drop_last()) + if a.last() == b.last() {
            0nat
        } else {
            1nat
        };
        let del = edit_distance(a.drop_last(), b) + 1;
        let ins = edit_distance(a, b.drop_last()) + 1;
        if sub <= del && sub <= ins {
            sub
        } else if del <= ins {
            del
        } else {
            ins
        }
    }
}

/// The edit distance never exceeds the two lengths together.
pub proof fn lemma_edit_distance_bound(a: Seq<char>, b: Seq<char>)
    ensures
        edit_distance(a, b) <= a.len() + b.len(),
    decreases a.len() + b.len(),
{
    if a.len() > 0 && b.len() > 0 {
        lemma_edit_distance_bound(a.drop_last(), b);
    }
}

/// Two-row Levenshtein distance. Inline rather than a dependency: a crate that changed
/// its tie-breaking would move the version stamp for no reason.
pub fn levenshtein(a: &str, b: &str) -> (d: usize)
    requires
        a@.len() + b@.len() < usize::MAX,
    ensures
        d == edit_distance(a@, b@),
{
    let x = chars_of(a);
    let y = chars_of(b);
    let n = x.len();
    let m = y.len();
    let mut previous: Vec<usize> = Vec::new();
    let mut j: usize = 0;
    while j <= m
        invariant
            j <= m + 1,
            m == y.len(),
            n + m < usize::MAX,
            previous.len() == j,
            forall|k: int| 0 <= k < j ==> previous@[k] == edit_distance(x@.take(0), y@.take(k)),
        decreases m + 1 - j,
    {
        proof {
            assert(x@.take(0).len() == 0);
        }
        previous.push(j);
        j = j + 1;
    }
    let mut i: usize = 0;
    while i < n
        invariant
            i <= n,
            n == x.len(),
            m == y.len(),
            n + m < usize::MAX,
            previous.len() == m + 1,
            forall|k: int| 0 <= k <= m ==> previous@[k] == edit_distance(x@.take(i as int), y@.take(k)),
        decreases n - i,
    {
        let mut current: Vec<usize> = Vec::new();
        proof {
            assert(y@.take(0).len() == 0);
            assert(x@.take(i + 1).len() == i + 1);
        }
        current.push(i + 1);
        let mut k: usize = 0;
        while k < m
            invariant
                i < n,
                n == x.len(),
                m == y.len(),
                n + m < usize::MAX,
                k <= m,
                previous.len() == m + 1,
                forall|t: int| 0 <= t <= m ==> previous@[t] == edit_distance(x@.take(i as int), y@.take(t)),
                current.len() == k + 1,
                forall|t: int| 0 <= t <= k ==> current@[t] == edit_distance(x@.take(i + 1), y@.take(t)),
            decreases m - k,
        {
            let cost: usize = if x[i] == y[k] {
                0
            } else {
                1
            };
            proof {
                let xa = x@.take(i + 1);
                let yb = y@.take(k + 1);
                assert(xa.drop_last() =~= x@.take(i as int));
                assert(yb.drop_last() =~= y@.take(k as int));
                assert(xa.last() == x@[i as int]);
                assert(yb.last() == y@[k as int]);
                lemma_edit_distance_bound(x@.take(i as int), y@.take(k as int));
                lemma_edit_distance_bound(x@.take(i as int), yb);
                lemma_edit_distance_bound(xa, y@.take(k as int));
            }
            let sub = previous[k] + cost;
            let del = previous[k + 1] + 1;
            let ins = current[k] + 1;
            let best = if sub <= del && sub <= ins {
                sub
            } else if del <= ins {
                del
            } else {
                ins
            };
            current.push(best);
            k = k + 1;
        }
        previous = current;
        i = i + 1;
    }
    proof {
        assert(x@.take(n as int) =~= x@);
        assert(y@.take(m as int) =~= y@);
    }
    previous[m]
}

// ---------------------------------------------------------------------------------------
// Which tokens count
// ---------------------------------------------------------------------------------------

/// Whether a token participates in topical scoring at all: at least two chars, not a
/// stopword, and holding a letter. Stopwords, punctuation and bare numerals are the
/// vocabulary of every document and so distinguish none of them.
pub open spec fn spec_is_countable(res: Resources, surface: Seq<char>, lower: Seq<char>) -> bool {
    surface.len() >= 2 && !spec_stop(res, lower) && has_alpha(surface)
}

pub fn is_countable(res: &Resources, surface: &[char], lower: &[char]) -> (r: bool)
    requires
        res.wf(),
    ensures
        r == spec_is_countable(*res, surface@, lower@),
{
    if surface.len() < 2 {
        return false;
    }
    let lo = string_from_chars(lower);
    if res.is_stopword(lo.as_str()) {
        return false;
    }
    let mut k: usize = 0;
    while k < surface.len()
        invariant
            k <= surface.len(),
            surface.len() >= 2,
            !spec_stop(*res, lower@),
            forall|q: int| 0 <= q < k ==> !is_alpha(#[trigger] surface@[q]),
        decreases surface.len() - k,
    {
        if char_is_alphabetic(surface[k]) {
            proof {
                assert(is_alpha(surface@[k as int]));
                assert(has_alpha(surface@));
            }
            return true;
        }
        k = k + 1;
    }
    false
}

// ---------------------------------------------------------------------------------------
// Clause tokens
// ---------------------------------------------------------------------------------------

/// The token spans of a clause, relative to its start.
pub open spec fn clause_toks(s: Seq<char>, cs: int, ce: int) -> Seq<(int, int)> {
    token_spans(s.subrange(cs, ce))
}

/// The text of token `j` of the clause `[cs, ce)`.
pub open spec fn clause_tok(s: Seq<char>, cs: int, ce: int, j: int) -> Seq<char> {
    s.subrange(cs + clause_toks(s, cs, ce)[j].0, cs + clause_toks(s, cs, ce)[j].1)
}

/// `xs` with `x` appended unless it is already there.
pub open spec fn push_distinct<T>(xs: Seq<T>, x: T) -> Seq<T> {
    if xs.contains(x) {
        xs
    } else {
        xs.push(x)
    }
}

// ---------------------------------------------------------------------------------------
// Term statistics
// ---------------------------------------------------------------------------------------

/// One term's occurrence statistics: its lowercase form, how often it occurs, how often
/// capitalised other than at the start of a clause, how often written entirely in
/// capitals, the clauses it occurs in (each once), the clause of every occurrence, and
/// its distinct left and right neighbours.
pub type TermView = (Seq<char>, nat, nat, nat, Seq<int>, Seq<int>, Seq<Seq<char>>, Seq<Seq<char>>);

pub open spec fn find_term(acc: Seq<TermView>, key: Seq<char>) -> int
    decreases acc.len(),
{
    if acc.len() == 0 {
        -1
    } else if acc.last().0 == key {
        acc.len() - 1
    } else {
        find_term(acc.drop_last(), key)
    }
}

pub proof fn lemma_find_term(acc: Seq<TermView>, key: Seq<char>)
    ensures
        -1 <= find_term(acc, key) < acc.len(),
        find_term(acc, key) >= 0 ==> acc[find_term(acc, key)].0 == key,
    decreases acc.len(),
{
    if acc.len() > 0 && acc.last().0 != key {
        lemma_find_term(acc.drop_last(), key);
    }
}

/// Written entirely in capitals: longer than one char, no lowercase letter, some letter.
pub open spec fn shouted(t: Seq<char>) -> bool {
    t.len() > 1 && (forall|i: int| 0 <= i < t.len() ==> !is_lower(#[trigger] t[i])) && has_alpha(t)
}

/// Record occurrence `j` of clause `c`.
pub open spec fn add_term_occurrence(
    acc: Seq<TermView>,
    s: Seq<char>,
    cs: int,
    ce: int,
    c: int,
    j: int,
) -> Seq<TermView> {
    let t = clause_tok(s, cs, ce, j);
    let lo = lowercase(t);
    let n = clause_toks(s, cs, ce).len();
    let k = find_term(acc, lo);
    let rec: TermView = if k < 0 {
        (lo, 0, 0, 0, Seq::empty(), Seq::empty(), Seq::empty(), Seq::empty())
    } else {
        acc[k]
    };
    let upd: TermView = (
        lo,
        rec.1 + 1,
        rec.2 + if j > 0 && t.len() > 0 && is_upper(t[0]) {
            1nat
        } else {
            0nat
        },
        rec.3 + if shouted(t) {
            1nat
        } else {
            0nat
        },
        push_distinct(rec.4, c),
        rec.5.push(c),
        if j > 0 {
            push_distinct(rec.6, lowercase(clause_tok(s, cs, ce, j - 1)))
        } else {
            rec.6
        },
        if j + 1 < n {
            push_distinct(rec.7, lowercase(clause_tok(s, cs, ce, j + 1)))
        } else {
            rec.7
        },
    );
    if k < 0 {
        acc.push(upd)
    } else {
        acc.update(k, upd)
    }
}

/// The statistics after the first `k` tokens of clause `c`, starting from `acc`.
pub open spec fn terms_in_clause(
    res: Resources,
    s: Seq<char>,
    cs: int,
    ce: int,
    c: int,
    acc: Seq<TermView>,
    k: int,
) -> Seq<TermView>
    decreases k,
{
    if k <= 0 {
        acc
    } else {
        let prev = terms_in_clause(res, s, cs, ce, c, acc, k - 1);
        let t = clause_tok(s, cs, ce, k - 1);
        if spec_is_countable(res, t, lowercase(t)) {
            add_term_occurrence(prev, s, cs, ce, c, k - 1)
        } else {
            prev
        }
    }
}

/// The statistics of every countable term in the first `c` clauses, in order of first
/// occurrence.
pub open spec fn terms_upto(res: Resources, s: Seq<char>, cl: Seq<(int, int)>, c: int) -> Seq<TermView>
    decreases c,
{
    if c <= 0 || c > cl.len() {
        Seq::empty()
    } else {
        let (cs, ce) = cl[c - 1];
        terms_in_clause(res, s, cs, ce, c - 1, terms_upto(res, s, cl, c - 1), clause_toks(s, cs, ce).len() as int)
    }
}

pub open spec fn spec_term_stats(res: Resources, s: Seq<char>) -> Seq<TermView> {
    terms_upto(res, s, clause_spans(s), clause_spans(s).len() as int)
}

/// A term's statistics, as gathered.
#[derive(Debug, Clone, PartialEq, Eq)]
pub struct TermStats {
    pub term: Vec<char>,
    pub frequency: usize,
    pub uppercase: usize,
    pub acronym: usize,
    pub sentences: Vec<usize>,
    pub positions: Vec<usize>,
    pub left: Vec<Vec<char>>,
    pub right: Vec<Vec<char>>,
}

pub open spec fn usizes(v: Seq<usize>) -> Seq<int> {
    v.map_values(|x: usize| x as int)
}

pub open spec fn term_view(t: TermStats) -> TermView {
    (
        t.term@,
        t.frequency as nat,
        t.uppercase as nat,
        t.acronym as nat,
        usizes(t.sentences@),
        usizes(t.positions@),
        crate::resources::char_vecs(t.left@),
        crate::resources::char_vecs(t.right@),
    )
}

pub open spec fn term_views(v: Seq<TermStats>) -> Seq<TermView> {
    v.map_values(|t: TermStats| term_view(t))
}

fn same_chars(a: &[char], b: &[char]) -> (r: bool)
    ensures
        r == (a@ == b@),
{
    if a.len() != b.len() {
        return false;
    }
    let mut i: usize = 0;
    while i < a.len()
        invariant
            a.len() == b.len(),
            i <= a.len(),
            forall|k: int| 0 <= k < i ==> a@[k] == b@[k],
        decreases a.len() - i,
    {
        if a[i] != b[i] {
            return false;
        }
        i = i + 1;
    }
    proof {
        assert(a@ =~= b@);
    }
    true
}

fn push_distinct_index(v: &mut Vec<usize>, x: usize)
    ensures
        usizes(final(v)@) == push_distinct(usizes(old(v)@), x as int),
{
    let ghost old_v = usizes(v@);
    let mut i: usize = 0;
    while i < v.len()
        invariant
            old_v == usizes(v@),
            i <= v.len(),
            forall|k: int| 0 <= k < i ==> v@[k] != x,
        decreases v.len() - i,
    {
        if v[i] == x {
            proof {
                assert(old_v[i as int] == x as int);
            }
            return;
        }
        i = i + 1;
    }
    proof {
        assert(!old_v.contains(x as int)) by {
            if old_v.contains(x as int) {
                let k = choose|k: int| 0 <= k < old_v.len() && old_v[k] == x as int;
                assert(v@[k] == x);
            }
        }
    }
    v.push(x);
    proof {
        assert(usizes(v@) =~= old_v.push(x as int));
    }
}

fn push_distinct_word(v: &mut Vec<Vec<char>>, w: Vec<char>)
    ensures
        crate::resources::char_vecs(final(v)@) == push_distinct(crate::resources::char_vecs(old(v)@), w@),
{
    let ghost old_v = crate::resources::char_vecs(v@);
    let mut i: usize = 0;
    while i < v.len()
        invariant
            old_v == crate::resources::char_vecs(v@),
            i <= v.len(),
            forall|k: int| 0 <= k < i ==> (#[trigger] v@[k])@ != w@,
        decreases v.len() - i,
    {
        if same_chars(v[i].as_slice(), w.as_slice()) {
            proof {
                assert(old_v[i as int] == w@);
            }
            return;
        }
        i = i + 1;
    }
    proof {
        assert(!old_v.contains(w@)) by {
            if old_v.contains(w@) {
                let k = choose|k: int| 0 <= k < old_v.len() && old_v[k] == w@;
                assert(v@[k]@ == w@);
            }
        }
    }
    let ghost wv = w@;
    v.push(w);
    proof {
        assert(crate::resources::char_vecs(v@) =~= old_v.push(wv));
    }
}

/// The token texts of a clause, in order.
pub open spec fn clause_texts(s: Seq<char>, cs: int, ce: int) -> Seq<Seq<char>> {
    Seq::new(clause_toks(s, cs, ce).len(), |q: int| clause_tok(s, cs, ce, q))
}

/// Every count of a term's statistics is at most `n`.
pub open spec fn counts_within(t: TermStats, n: nat) -> bool {
    t.frequency <= n && t.uppercase <= n && t.acronym <= n
}

fn shouted_exec(t: &[char]) -> (r: bool)
    ensures
        r == shouted(t@),
{
    if t.len() <= 1 {
        return false;
    }
    let mut alpha = false;
    let mut k: usize = 0;
    while k < t.len()
        invariant
            k <= t.len(),
            t.len() > 1,
            forall|q: int| 0 <= q < k ==> !is_lower(#[trigger] t@[q]),
            alpha == exists|q: int| 0 <= q < k && is_alpha(#[trigger] t@[q]),
        decreases t.len() - k,
    {
        if char_is_lowercase(t[k]) {
            return false;
        }
        if char_is_alphabetic(t[k]) {
            alpha = true;
        }
        k = k + 1;
    }
    alpha
}

fn record_term(
    acc: &mut Vec<TermStats>,
    texts: &Vec<Vec<char>>,
    lowers: &Vec<Vec<char>>,
    c: usize,
    j: usize,
    Ghost(s): Ghost<Seq<char>>,
    Ghost(cs): Ghost<int>,
    Ghost(ce): Ghost<int>,
    Ghost(count): Ghost<nat>,
)
    requires
        count < usize::MAX,
        forall|q: int| 0 <= q < old(acc)@.len() ==> counts_within(#[trigger] old(acc)@[q], count),
        crate::resources::char_vecs(texts@) == clause_texts(s, cs, ce),
        lowers.len() == texts.len(),
        forall|q: int| 0 <= q < lowers.len() ==> (#[trigger] lowers@[q])@ == lowercase(texts@[q]@),
        j < texts.len(),
    ensures
        term_views(final(acc)@) == add_term_occurrence(term_views(old(acc)@), s, cs, ce, c as int, j as int),
        forall|q: int| 0 <= q < final(acc)@.len() ==> counts_within(#[trigger] final(acc)@[q], count + 1),
{
    let ghost v = term_views(acc@);
    let t = &texts[j];
    let lo = &lowers[j];
    proof {
        assert(crate::resources::char_vecs(texts@).len() == texts.len());
        assert(clause_texts(s, cs, ce).len() == texts.len());
        assert(crate::resources::char_vecs(texts@)[j as int] == texts@[j as int]@);
        assert(t@ == clause_tok(s, cs, ce, j as int));
    }
    let mut i: usize = acc.len();
    proof {
        assert(v.take(acc.len() as int) =~= v);
    }
    while i > 0 && !same_chars(acc[i - 1].term.as_slice(), lo.as_slice())
        invariant
            v == term_views(acc@),
            i <= acc.len(),
            find_term(v, lo@) == find_term(v.take(i as int), lo@),
        decreases i,
    {
        proof {
            assert(v.take(i as int).drop_last() =~= v.take(i - 1));
            assert(v.take(i as int).last() == term_view(acc@[i - 1]));
        }
        i = i - 1;
    }
    proof {
        if i > 0 {
            assert(v.take(i as int).last() == term_view(acc@[i - 1]));
            assert(find_term(v, lo@) == i - 1);
        } else {
            assert(v.take(0) =~= Seq::<TermView>::empty());
        }
    }
    let mut rec = if i > 0 {
        acc.remove(i - 1)
    } else {
        TermStats {
            term: copy_range(lo.as_slice(), 0, lo.len()),
            frequency: 0,
            uppercase: 0,
            acronym: 0,
            sentences: Vec::new(),
            positions: Vec::new(),
            left: Vec::new(),
            right: Vec::new(),
        }
    };
    proof {
        assert(lo@.subrange(0, lo@.len() as int) =~= lo@);
        if i == 0 {
            assert(usizes(rec.sentences@) =~= Seq::<int>::empty());
            assert(usizes(rec.positions@) =~= Seq::<int>::empty());
            assert(crate::resources::char_vecs(rec.left@) =~= Seq::<Seq<char>>::empty());
            assert(crate::resources::char_vecs(rec.right@) =~= Seq::<Seq<char>>::empty());
        } else {
            assert(rec.term@ == lo@);
        }
    }
    proof {
        if i > 0 {
            assert(counts_within(rec, count));
        }
    }
    let ghost r0 = term_view(rec);
    let ghost k = find_term(v, lo@);
    proof {
        lemma_find_term(v, lo@);
        if i > 0 {
            assert(r0 == v[k]);
        } else {
            assert(r0 == (lo@, 0nat, 0nat, 0nat, Seq::<int>::empty(), Seq::<int>::empty(), Seq::<Seq<char>>::empty(), Seq::<Seq<char>>::empty()));
        }
    }
    let ghost n = clause_toks(s, cs, ce).len();
    proof {
        assert(n == texts.len());
    }
    rec.frequency = rec.frequency + 1;
    let ghost up: nat = if j > 0 && t@.len() > 0 && is_upper(t@[0]) {
        1nat
    } else {
        0nat
    };
    if j > 0 && t.len() > 0 && char_is_uppercase(t[0]) {
        rec.uppercase = rec.uppercase + 1;
    }
    proof {
        assert(rec.uppercase as nat == r0.2 + up);
    }
    let ghost sh: nat = if shouted(t@) {
        1nat
    } else {
        0nat
    };
    if shouted_exec(t.as_slice()) {
        rec.acronym = rec.acronym + 1;
    }
    proof {
        assert(rec.acronym as nat == r0.3 + sh);
    }
    push_distinct_index(&mut rec.sentences, c);
    let ghost before_pos = usizes(rec.positions@);
    rec.positions.push(c);
    proof {
        assert(usizes(rec.positions@) =~= before_pos.push(c as int));
    }
    if j > 0 {
        let ghost prev_word = lowercase(clause_tok(s, cs, ce, j - 1));
        proof {
            assert(crate::resources::char_vecs(texts@)[j - 1] == texts@[j - 1]@);
            assert(lowers@[j - 1]@ == prev_word);
            assert(lowers@[j - 1]@.subrange(0, lowers@[j - 1]@.len() as int) =~= prev_word);
        }
        push_distinct_word(&mut rec.left, copy_range(lowers[j - 1].as_slice(), 0, lowers[j - 1].len()));
        proof {
            assert(crate::resources::char_vecs(rec.left@) == push_distinct(r0.6, prev_word));
        }
    }
    if j + 1 < texts.len() {
        let ghost next_word = lowercase(clause_tok(s, cs, ce, j + 1));
        proof {
            assert(crate::resources::char_vecs(texts@)[j + 1] == texts@[j + 1]@);
            assert(lowers@[j + 1]@ == next_word);
            assert(lowers@[j + 1]@.subrange(0, lowers@[j + 1]@.len() as int) =~= next_word);
        }
        push_distinct_word(&mut rec.right, copy_range(lowers[j + 1].as_slice(), 0, lowers[j + 1].len()));
        proof {
            assert(crate::resources::char_vecs(rec.right@) == push_distinct(r0.7, next_word));
        }
    }
    let ghost upd: TermView = (
        lo@,
        r0.1 + 1,
        r0.2 + up,
        r0.3 + sh,
        push_distinct(r0.4, c as int),
        r0.5.push(c as int),
        if j > 0 {
            push_distinct(r0.6, lowercase(clause_tok(s, cs, ce, j - 1)))
        } else {
            r0.6
        },
        if j + 1 < n {
            push_distinct(r0.7, lowercase(clause_tok(s, cs, ce, j + 1)))
        } else {
            r0.7
        },
    );
    proof {
        assert(term_view(rec).0 == upd.0);
        assert(term_view(rec).1 == upd.1);
        assert(term_view(rec).2 == upd.2);
        assert(term_view(rec).3 == upd.3);
        assert(term_view(rec).4 == upd.4);
        assert(term_view(rec).5 == upd.5);
        assert(term_view(rec).6 == upd.6);
        assert(term_view(rec).7 == upd.7);
        assert(term_view(rec) == upd);
        assert(lowercase(t@) == lo@);
    }
    if i > 0 {
        acc.insert(i - 1, rec);
        proof {
            assert(term_views(acc@) =~= v.update(k, upd));
        }
    } else {
        acc.push(rec);
        proof {
            assert(term_views(acc@) =~= v.push(upd));
        }
    }
}

/// The tokens of clause `[cs, ce)`: their spans relative to the clause start, their
/// texts, and their lowercase forms.
fn clause_pieces(s: &Vec<char>, cs: usize, ce: usize) -> (r: (Vec<(usize, usize)>, Vec<Vec<char>>, Vec<Vec<char>>))
    requires
        cs <= ce <= s.len(),
    ensures
        r.0.len() == clause_toks(s@, cs as int, ce as int).len(),
        r.0.len() <= ce - cs,
        forall|i: int|
            0 <= i < r.0.len() ==> (#[trigger] r.0@[i]).0 == clause_toks(s@, cs as int, ce as int)[i].0
                && r.0@[i].1 == clause_toks(s@, cs as int, ce as int)[i].1,
        forall|i: int| 0 <= i < r.0.len() ==> 0 <= (#[trigger] r.0@[i]).0 < r.0@[i].1 <= ce - cs,
        forall|i1: int, i2: int| 0 <= i1 < i2 < r.0.len() ==> (#[trigger] r.0@[i1]).1 <= (#[trigger] r.0@[i2]).0,
        r.1.len() == r.0.len(),
        r.2.len() == r.0.len(),
        crate::resources::char_vecs(r.1@) == clause_texts(s@, cs as int, ce as int),
        forall|i: int| 0 <= i < r.1.len() ==> (#[trigger] r.1@[i])@ == clause_tok(s@, cs as int, ce as int, i),
        forall|i: int| 0 <= i < r.2.len() ==> (#[trigger] r.2@[i])@ == lowercase(r.1@[i]@),
{
    let sub = copy_range(s.as_slice(), cs, ce);
    let toks = token_char_spans(sub.as_slice());
    proof {
        lemma_token_spans_bounds(sub@, 0);
        lemma_token_count_le_len(sub@);
        assert(clause_toks(s@, cs as int, ce as int) == token_spans(sub@));
    }
    let mut texts: Vec<Vec<char>> = Vec::new();
    let mut lowers: Vec<Vec<char>> = Vec::new();
    let mut q: usize = 0;
    while q < toks.len()
        invariant
            sub@ == s@.subrange(cs as int, ce as int),
            cs <= ce <= s.len(),
            toks.len() == token_spans(sub@).len(),
            forall|i: int|
                0 <= i < toks.len() ==> (#[trigger] toks@[i]).0 == token_spans(sub@)[i].0 && toks@[i].1
                    == token_spans(sub@)[i].1,
            forall|j: int|
                0 <= j < token_spans(sub@).len() ==> 0 <= #[trigger] token_spans(sub@)[j].0 < token_spans(sub@)[j].1
                    <= sub@.len(),
            q <= toks.len(),
            texts.len() == q,
            lowers.len() == q,
            forall|i: int| 0 <= i < q ==> (#[trigger] texts@[i])@ == clause_tok(s@, cs as int, ce as int, i),
            forall|i: int| 0 <= i < q ==> (#[trigger] lowers@[i])@ == lowercase(texts@[i]@),
        decreases toks.len() - q,
    {
        let a = toks[q].0;
        let b = toks[q].1;
        let piece = copy_range(sub.as_slice(), a, b);
        proof {
            assert(clause_toks(s@, cs as int, ce as int) == token_spans(sub@));
            assert(piece@ =~= s@.subrange(cs + a, cs + b));
        }
        let lo = lower_chars(piece.as_slice());
        texts.push(piece);
        lowers.push(lo);
        q = q + 1;
    }
    proof {
        assert(crate::resources::char_vecs(texts@) =~= clause_texts(s@, cs as int, ce as int));
    }
    (toks, texts, lowers)
}

/// One pass over the document collecting every statistic the five term features need:
/// for each countable term, in order of first occurrence, the statistics of
/// `spec_term_stats`.
pub fn term_stats(text: &str, res: &Resources) -> (out: Vec<TermStats>)
    requires
        res.wf(),
        utf8_len(text@) <= usize::MAX,
    ensures
        term_views(out@) == spec_term_stats(*res, text@),
{
    let s = chars_of(text);
    let cl = clause_char_spans(text);
    let ghost cls = clause_spans(text@);
    let mut acc: Vec<TermStats> = Vec::new();
    let ghost mut count: nat = 0;
    proof {
        lemma_clause_spans_bounds(text@);
        lemma_len_le_utf8_len(text@);
        assert(term_views(acc@) =~= Seq::<TermView>::empty());
    }
    let mut c: usize = 0;
    while c < cl.len()
        invariant
            s@ == text@,
            res.wf(),
            text@.len() <= usize::MAX,
            cls == clause_spans(text@),
            cl.len() == cls.len(),
            forall|i: int| 0 <= i < cl.len() ==> (#[trigger] cl@[i]).0 == cls[i].0 && cl@[i].1 == cls[i].1,
            forall|j: int| 0 <= j < cls.len() ==> 0 <= #[trigger] cls[j].0 < cls[j].1 <= text@.len(),
            forall|j1: int, j2: int| 0 <= j1 < j2 < cls.len() ==> (#[trigger] cls[j1]).1 <= (#[trigger] cls[j2]).0,
            c <= cl.len(),
            term_views(acc@) == terms_upto(*res, text@, cls, c as int),
            forall|q: int| 0 <= q < acc@.len() ==> counts_within(#[trigger] acc@[q], count),
            count <= if c == 0 {
                0
            } else {
                cls[c - 1].1
            },
        decreases cl.len() - c,
    {
        let cs = cl[c].0;
        let ce = cl[c].1;
        let (toks, texts, lowers) = clause_pieces(&s, cs, ce);
        let ghost start: nat = count;
        proof {
            if c > 0 {
                assert(cls[c - 1].1 <= cls[c as int].0);
            }
        }
        let ghost base = terms_upto(*res, text@, cls, c as int);
        let mut j: usize = 0;
        while j < texts.len()
            invariant
                res.wf(),
                text@.len() <= usize::MAX,
                ce <= text@.len(),
                toks.len() <= ce - cs,
                texts.len() == toks.len(),
                crate::resources::char_vecs(texts@) == clause_texts(text@, cs as int, ce as int),
                lowers.len() == texts.len(),
                forall|i: int| 0 <= i < lowers.len() ==> (#[trigger] lowers@[i])@ == lowercase(texts@[i]@),
                forall|i: int| 0 <= i < texts.len() ==> (#[trigger] texts@[i])@ == clause_tok(text@, cs as int, ce as int, i),
                j <= texts.len(),
                term_views(acc@) == terms_in_clause(*res, text@, cs as int, ce as int, c as int, base, j as int),
                forall|q: int| 0 <= q < acc@.len() ==> counts_within(#[trigger] acc@[q], count),
                count <= start + j,
                start <= cs,
            decreases texts.len() - j,
        {
            if is_countable(res, texts[j].as_slice(), lowers[j].as_slice()) {
                record_term(
                    &mut acc,
                    &texts,
                    &lowers,
                    c,
                    j,
                    Ghost(text@),
                    Ghost(cs as int),
                    Ghost(ce as int),
                    Ghost(count),
                );
                proof {
                    count = count + 1;
                }
            }
            j = j + 1;
        }
        proof {
            assert(clause_toks(text@, cs as int, ce as int).len() == texts.len());
        }
        c = c + 1;
    }
    proof {
        assert(cls.len() == clause_spans(text@).len());
    }
    acc
}

// ---------------------------------------------------------------------------------------
// Candidate phrases
// ---------------------------------------------------------------------------------------

/// Whether the chars `[a, b)` are a non-empty run of spaces and tabs.
pub open spec fn gap_is_blank(s: Seq<char>, a: int, b: int) -> bool {
    a < b && forall|k: int| a <= k < b ==> #[trigger] s[k] == ' ' || s[k] == '\t'
}

/// Whether token `i` of clause `[cs, ce)` counts for topical scoring.
pub open spec fn tok_countable(res: Resources, s: Seq<char>, cs: int, ce: int, i: int) -> bool {
    spec_is_countable(res, clause_tok(s, cs, ce, i), lowercase(clause_tok(s, cs, ce, i)))
}

/// Whether only spaces and tabs separate token `i` of the clause from token `i - 1`.
pub open spec fn joins_previous(s: Seq<char>, cs: int, ce: int, i: int) -> bool {
    gap_is_blank(s, cs + clause_toks(s, cs, ce)[i - 1].1, cs + clause_toks(s, cs, ce)[i].0)
}

/// Whether tokens `start .. start + len` of the clause form a phrase: every token counts,
/// and only whitespace within the line separates neighbours. A stopword, a punctuation
/// mark or a line break is a boundary.
pub open spec fn is_phrase_window(res: Resources, s: Seq<char>, cs: int, ce: int, start: int, len: int) -> bool {
    &&& forall|i: int| start <= i < start + len ==> #[trigger] tok_countable(res, s, cs, ce, i)
    &&& forall|i: int| start < i < start + len ==> #[trigger] joins_previous(s, cs, ce, i)
}

/// A candidate as the specification sees it: the surface of its first occurrence, its
/// lowercase form, the lowercase form of each of its words, and the byte span of every
/// occurrence.
pub type PhraseView = (Seq<char>, Seq<char>, Seq<Seq<char>>, Seq<(int, int)>);

pub open spec fn find_phrase(acc: Seq<PhraseView>, key: Seq<char>) -> int
    decreases acc.len(),
{
    if acc.len() == 0 {
        -1
    } else if acc.last().1 == key {
        acc.len() - 1
    } else {
        find_phrase(acc.drop_last(), key)
    }
}

pub proof fn lemma_find_phrase(acc: Seq<PhraseView>, key: Seq<char>)
    ensures
        -1 <= find_phrase(acc, key) < acc.len(),
        find_phrase(acc, key) >= 0 ==> acc[find_phrase(acc, key)].1 == key,
    decreases acc.len(),
{
    if acc.len() > 0 && acc.last().1 != key {
        lemma_find_phrase(acc.drop_last(), key);
    }
}

/// The words of the window `start .. start + len` of the clause.
pub open spec fn window_words(s: Seq<char>, cs: int, ce: int, start: int, len: int) -> Seq<Seq<char>> {
    clause_texts(s, cs, ce).subrange(start, start + len)
}

/// Record the window `start .. start + len` of the clause as an occurrence.
pub open spec fn add_window(acc: Seq<PhraseView>, s: Seq<char>, cs: int, ce: int, start: int, len: int) -> Seq<PhraseView> {
    let words = window_words(s, cs, ce, start, len);
    let surface = join_space(words);
    let key = lowercase(surface);
    let toks = clause_toks(s, cs, ce);
    let span = (byte_at(s, cs + toks[start].0) as int, byte_at(s, cs + toks[start + len - 1].1) as int);
    let k = find_phrase(acc, key);
    if k < 0 {
        acc.push((surface, key, Seq::new(len as nat, |q: int| lowercase(words[q])), seq![span]))
    } else {
        acc.update(k, (acc[k].0, acc[k].1, acc[k].2, acc[k].3.push(span)))
    }
}

/// The windows from token `start` of the clause, of length `len` up to `max`, for as
/// long as they remain phrases.
pub open spec fn windows_from(
    res: Resources,
    s: Seq<char>,
    cs: int,
    ce: int,
    start: int,
    len: int,
    max: int,
    acc: Seq<PhraseView>,
) -> Seq<PhraseView>
    decreases max + 1 - len,
{
    if len < 1 || len > max || start + len > clause_toks(s, cs, ce).len() || !is_phrase_window(res, s, cs, ce, start, len) {
        acc
    } else {
        windows_from(res, s, cs, ce, start, len + 1, max, add_window(acc, s, cs, ce, start, len))
    }
}

/// The windows of the clause that start at token `start` or later.
pub open spec fn clause_windows(res: Resources, s: Seq<char>, cs: int, ce: int, start: int, max: int, acc: Seq<PhraseView>) -> Seq<PhraseView>
    decreases clause_toks(s, cs, ce).len() - start,
{
    if start < 0 || start >= clause_toks(s, cs, ce).len() {
        acc
    } else {
        clause_windows(res, s, cs, ce, start + 1, max, windows_from(res, s, cs, ce, start, 1, max, acc))
    }
}

/// The candidates of the first `c` clauses, grouped by lowercase form in order of first
/// occurrence.
pub open spec fn phrases_upto(res: Resources, s: Seq<char>, cl: Seq<(int, int)>, c: int, max: int) -> Seq<PhraseView>
    decreases c,
{
    if c <= 0 || c > cl.len() {
        Seq::empty()
    } else {
        clause_windows(res, s, cl[c - 1].0, cl[c - 1].1, 0, max, phrases_upto(res, s, cl, c - 1, max))
    }
}

/// Every topical candidate of the text: contiguous n-grams of up to `max` words (at least
/// one) that never cross a clause, a line, a stopword or punctuation.
pub open spec fn spec_topical_candidates(res: Resources, s: Seq<char>, max: nat) -> Seq<PhraseView> {
    let m = if max < 1 {
        1
    } else {
        max as int
    };
    phrases_upto(res, s, clause_spans(s), clause_spans(s).len() as int, m)
}

/// A candidate while it is being gathered.
struct PhraseGroup {
    surface: Vec<char>,
    key: Vec<char>,
    terms: Vec<Vec<char>>,
    spans: Vec<(usize, usize)>,
}

spec fn int_spans(v: Seq<(usize, usize)>) -> Seq<(int, int)> {
    v.map_values(|p: (usize, usize)| (p.0 as int, p.1 as int))
}

spec fn group_view(g: PhraseGroup) -> PhraseView {
    (g.surface@, g.key@, crate::resources::char_vecs(g.terms@), int_spans(g.spans@))
}

spec fn group_views(v: Seq<PhraseGroup>) -> Seq<PhraseView> {
    v.map_values(|g: PhraseGroup| group_view(g))
}

fn find_group(acc: &Vec<PhraseGroup>, key: &[char]) -> (r: Option<usize>)
    ensures
        match r {
            Some(k) => k as int == find_phrase(group_views(acc@), key@),
            None => find_phrase(group_views(acc@), key@) < 0,
        },
{
    let ghost v = group_views(acc@);
    let mut i: usize = acc.len();
    proof {
        assert(v.take(acc.len() as int) =~= v);
    }
    while i > 0
        invariant
            v == group_views(acc@),
            i <= acc.len(),
            find_phrase(v, key@) == find_phrase(v.take(i as int), key@),
        decreases i,
    {
        proof {
            assert(v.take(i as int).drop_last() =~= v.take(i - 1));
            assert(v.take(i as int).last() == group_view(acc@[i - 1]));
        }
        if same_chars(acc[i - 1].key.as_slice(), key) {
            return Some(i - 1);
        }
        i = i - 1;
    }
    proof {
        assert(v.take(0) =~= Seq::<PhraseView>::empty());
    }
    None
}

fn copy_words(ws: &Vec<Vec<char>>) -> (r: Vec<Vec<char>>)
    ensures
        crate::resources::char_vecs(r@) == crate::resources::char_vecs(ws@),
{
    let mut r: Vec<Vec<char>> = Vec::new();
    let mut i: usize = 0;
    while i < ws.len()
        invariant
            i <= ws.len(),
            r.len() == i,
            forall|q: int| 0 <= q < i ==> (#[trigger] r@[q])@ == ws@[q]@,
        decreases ws.len() - i,
    {
        let w = copy_range(ws[i].as_slice(), 0, ws[i].len());
        proof {
            assert(ws@[i as int]@.subrange(0, ws@[i as int]@.len() as int) =~= ws@[i as int]@);
        }
        r.push(w);
        i = i + 1;
    }
    proof {
        assert(crate::resources::char_vecs(r@) =~= crate::resources::char_vecs(ws@));
    }
    r
}

/// Record one occurrence of a window: a new candidate for a new lowercase form, another
/// span for a known one.
fn record_window(acc: &mut Vec<PhraseGroup>, surface: &Vec<char>, key: &Vec<char>, terms: &Vec<Vec<char>>, span: (usize, usize))
    ensures
        group_views(final(acc)@) == ({
            let v = group_views(old(acc)@);
            let k = find_phrase(v, key@);
            if k < 0 {
                v.push((surface@, key@, crate::resources::char_vecs(terms@), seq![(span.0 as int, span.1 as int)]))
            } else {
                v.update(k, (v[k].0, v[k].1, v[k].2, v[k].3.push((span.0 as int, span.1 as int))))
            }
        }),
{
    let ghost v = group_views(acc@);
    match find_group(acc, key.as_slice()) {
        None => {
            let mut spans: Vec<(usize, usize)> = Vec::new();
            spans.push(span);
            let g = PhraseGroup {
                surface: copy_range(surface.as_slice(), 0, surface.len()),
                key: copy_range(key.as_slice(), 0, key.len()),
                terms: copy_words(terms),
                spans,
            };
            proof {
                assert(surface@.subrange(0, surface@.len() as int) =~= surface@);
                assert(key@.subrange(0, key@.len() as int) =~= key@);
                assert(int_spans(g.spans@) =~= seq![(span.0 as int, span.1 as int)]);
            }
            acc.push(g);
            proof {
                assert(group_views(acc@) =~= v.push(group_view(g)));
            }
        },
        Some(k) => {
            proof {
                lemma_find_phrase(v, key@);
            }
            let mut g = acc.remove(k);
            let ghost old_spans = int_spans(g.spans@);
            g.spans.push(span);
            proof {
                assert(int_spans(g.spans@) =~= old_spans.push((span.0 as int, span.1 as int)));
            }
            acc.insert(k, g);
            proof {
                assert(group_views(acc@) =~= v.update(
                    k as int,
                    (v[k as int].0, v[k as int].1, v[k as int].2, v[k as int].3.push((span.0 as int, span.1 as int))),
                ));
            }
        },
    }
}

/// Whether the chars `[a, b)` of `s` are a non-empty run of spaces and tabs.
fn blank_gap(s: &Vec<char>, a: usize, b: usize) -> (r: bool)
    requires
        b <= s.len(),
    ensures
        r == gap_is_blank(s@, a as int, b as int),
{
    if a >= b {
        return false;
    }
    let mut k: usize = a;
    while k < b
        invariant
            a <= k <= b,
            b <= s.len(),
            forall|q: int| a <= q < k ==> #[trigger] s@[q] == ' ' || s@[q] == '\t',
        decreases b - k,
    {
        if s[k] != ' ' && s[k] != '\t' {
            return false;
        }
        k = k + 1;
    }
    true
}

/// Record every window of the clause that starts at token `start`.
fn windows_at(
    res: &Resources,
    s: &Vec<char>,
    offs: &Vec<usize>,
    cs: usize,
    ce: usize,
    toks: &Vec<(usize, usize)>,
    texts: &Vec<Vec<char>>,
    lowers: &Vec<Vec<char>>,
    countable: &Vec<bool>,
    joins: &Vec<bool>,
    start: usize,
    max: usize,
    acc: &mut Vec<PhraseGroup>,
)
    requires
        cs <= ce <= s.len(),
        offs.len() == s.len() + 1,
        forall|k: int| 0 <= k <= s.len() ==> offs@[k] == byte_at(s@, k),
        toks.len() == clause_toks(s@, cs as int, ce as int).len(),
        forall|i: int|
            0 <= i < toks.len() ==> (#[trigger] toks@[i]).0 == clause_toks(s@, cs as int, ce as int)[i].0
                && toks@[i].1 == clause_toks(s@, cs as int, ce as int)[i].1,
        forall|i: int| 0 <= i < toks.len() ==> 0 <= (#[trigger] toks@[i]).0 < toks@[i].1 <= ce - cs,
        texts.len() == toks.len(),
        lowers.len() == toks.len(),
        forall|i: int| 0 <= i < texts.len() ==> (#[trigger] texts@[i])@ == clause_tok(s@, cs as int, ce as int, i),
        forall|i: int| 0 <= i < lowers.len() ==> (#[trigger] lowers@[i])@ == lowercase(texts@[i]@),
        countable.len() == toks.len(),
        forall|i: int| 0 <= i < countable.len() ==> countable@[i] == tok_countable(*res, s@, cs as int, ce as int, i),
        joins.len() == toks.len(),
        forall|i: int| 0 < i < joins.len() ==> joins@[i] == joins_previous(s@, cs as int, ce as int, i),
        start < toks.len(),
        max >= 1,
    ensures
        group_views(final(acc)@) == windows_from(*res, s@, cs as int, ce as int, start as int, 1, max as int, group_views(old(acc)@)),
{
    let ghost a0 = group_views(acc@);
    let ghost words_all = clause_texts(s@, cs as int, ce as int);
    let n = toks.len();
    let mut k: usize = 0;
    let mut surface: Vec<char> = Vec::new();
    let mut terms: Vec<Vec<char>> = Vec::new();
    while k < max && k < n - start && countable[start + k] && (k == 0 || joins[start + k])
        invariant
            cs <= ce <= s.len(),
            offs.len() == s.len() + 1,
            forall|k: int| 0 <= k <= s.len() ==> offs@[k] == byte_at(s@, k),
            n == toks.len(),
            n == clause_toks(s@, cs as int, ce as int).len(),
            words_all == clause_texts(s@, cs as int, ce as int),
            forall|i: int|
                0 <= i < toks.len() ==> (#[trigger] toks@[i]).0 == clause_toks(s@, cs as int, ce as int)[i].0
                    && toks@[i].1 == clause_toks(s@, cs as int, ce as int)[i].1,
            forall|i: int| 0 <= i < toks.len() ==> 0 <= (#[trigger] toks@[i]).0 < toks@[i].1 <= ce - cs,
            texts.len() == n,
            lowers.len() == n,
            forall|i: int| 0 <= i < texts.len() ==> (#[trigger] texts@[i])@ == clause_tok(s@, cs as int, ce as int, i),
            forall|i: int| 0 <= i < lowers.len() ==> (#[trigger] lowers@[i])@ == lowercase(texts@[i]@),
            countable.len() == n,
            forall|i: int| 0 <= i < countable.len() ==> countable@[i] == tok_countable(*res, s@, cs as int, ce as int, i),
            joins.len() == n,
            forall|i: int| 0 < i < joins.len() ==> joins@[i] == joins_previous(s@, cs as int, ce as int, i),
            start < n,
            max >= 1,
            k <= n - start,
            start + k <= n,
            (k + 1) > 1 ==> is_phrase_window(*res, s@, cs as int, ce as int, start as int, (k + 1) - 1),
            (k + 1) > 1 ==> surface@ == join_space(window_words(s@, cs as int, ce as int, start as int, (k + 1) - 1)),
            (k + 1) == 1 ==> surface@ == Seq::<char>::empty(),
            terms.len() == (k + 1) - 1,
            forall|q: int| 0 <= q < terms.len() ==> (#[trigger] terms@[q])@ == lowercase(words_all[start + q]),
            windows_from(*res, s@, cs as int, ce as int, start as int, 1, max as int, a0)
                == windows_from(*res, s@, cs as int, ce as int, start as int, (k + 1) as int, max as int, group_views(acc@)),
        decreases max - k,
    {
        let w = start + k;
        let ghost words = window_words(s@, cs as int, ce as int, start as int, (k + 1) as int);
        proof {
            assert(words_all[w as int] == clause_tok(s@, cs as int, ce as int, w as int));
            assert(is_phrase_window(*res, s@, cs as int, ce as int, start as int, (k + 1) as int)) by {
                assert forall|i: int| start <= i < start + (k + 1) implies #[trigger] tok_countable(*res, s@, cs as int, ce as int, i) by {
                    if i < w {
                        assert(start <= i < start + ((k + 1) - 1));
                    }
                }
                assert forall|i: int| start < i < start + (k + 1) implies #[trigger] joins_previous(s@, cs as int, ce as int, i) by {
                    if i < w {
                        assert(start < i < start + ((k + 1) - 1));
                    }
                }
            }
            assert(words.len() == (k + 1));
            assert(words.last() == texts@[w as int]@);
            if (k + 1) > 1 {
                assert(words.drop_last() =~= window_words(s@, cs as int, ce as int, start as int, (k + 1) - 1));
            }
        }
        if k > 0 {
            surface.push(' ');
        }
        let mut q: usize = 0;
        let ghost before = surface@;
        while q < texts[w].len()
            invariant
                w < texts.len(),
                q <= texts@[w as int].len(),
                surface@ == before + texts@[w as int]@.take(q as int),
            decreases texts@[w as int].len() - q,
        {
            surface.push(texts[w][q]);
            q = q + 1;
            proof {
                assert(texts@[w as int]@.take(q as int) =~= texts@[w as int]@.take(q - 1).push(texts@[w as int]@[q - 1]));
            }
        }
        proof {
            assert(texts@[w as int]@.take(texts@[w as int]@.len() as int) =~= texts@[w as int]@);
            if (k + 1) == 1 {
                assert(before =~= Seq::<char>::empty());
                assert(surface@ =~= words[0]);
            } else {
                assert(surface@ =~= join_space(words.drop_last()) + seq![' '] + words.last());
            }
            assert(surface@ == join_space(words));
        }
        terms.push(copy_range(lowers[w].as_slice(), 0, lowers[w].len()));
        proof {
            assert(lowers@[w as int]@.subrange(0, lowers@[w as int]@.len() as int) =~= lowers@[w as int]@);
            assert(crate::resources::char_vecs(terms@) =~= Seq::new((k + 1) as nat, |q: int| lowercase(words[q])));
        }
        let key = lower_chars(surface.as_slice());
        let a = cs + toks[start].0;
        let b = cs + toks[w].1;
        let span = (offs[a], offs[b]);
        let ghost g0 = group_views(acc@);
        record_window(acc, &surface, &key, &terms, span);
        proof {
            assert(group_views(acc@) == add_window(g0, s@, cs as int, ce as int, start as int, (k + 1) as int));
        }
        k = k + 1;
    }
}

/// Record every window of clause `[cs, ce)`.
fn clause_candidates(
    res: &Resources,
    s: &Vec<char>,
    offs: &Vec<usize>,
    cs: usize,
    ce: usize,
    max: usize,
    acc: &mut Vec<PhraseGroup>,
)
    requires
        res.wf(),
        cs <= ce <= s.len(),
        offs.len() == s.len() + 1,
        forall|k: int| 0 <= k <= s.len() ==> offs@[k] == byte_at(s@, k),
        max >= 1,
    ensures
        group_views(final(acc)@) == clause_windows(*res, s@, cs as int, ce as int, 0, max as int, group_views(old(acc)@)),
{
    let (toks, texts, lowers) = clause_pieces(s, cs, ce);
    let n = toks.len();
    let mut countable: Vec<bool> = Vec::new();
    let mut joins: Vec<bool> = Vec::new();
    let mut q: usize = 0;
    while q < n
        invariant
            n == toks.len(),
            texts.len() == n,
            lowers.len() == n,
            res.wf(),
            cs <= ce <= s.len(),
            forall|i: int|
                0 <= i < toks.len() ==> (#[trigger] toks@[i]).0 == clause_toks(s@, cs as int, ce as int)[i].0
                    && toks@[i].1 == clause_toks(s@, cs as int, ce as int)[i].1,
            forall|i: int| 0 <= i < toks.len() ==> 0 <= (#[trigger] toks@[i]).0 < toks@[i].1 <= ce - cs,
            forall|i: int| 0 <= i < texts.len() ==> (#[trigger] texts@[i])@ == clause_tok(s@, cs as int, ce as int, i),
            forall|i: int| 0 <= i < lowers.len() ==> (#[trigger] lowers@[i])@ == lowercase(texts@[i]@),
            q <= n,
            countable.len() == q,
            joins.len() == q,
            forall|i: int| 0 <= i < q ==> countable@[i] == tok_countable(*res, s@, cs as int, ce as int, i),
            forall|i: int| 0 < i < q ==> joins@[i] == joins_previous(s@, cs as int, ce as int, i),
        decreases n - q,
    {
        countable.push(is_countable(res, texts[q].as_slice(), lowers[q].as_slice()));
        if q == 0 {
            joins.push(false);
        } else {
            joins.push(blank_gap(s, cs + toks[q - 1].1, cs + toks[q].0));
        }
        q = q + 1;
    }
    let ghost a0 = group_views(acc@);
    let mut start: usize = 0;
    while start < n
        invariant
            n == toks.len(),
            n == clause_toks(s@, cs as int, ce as int).len(),
            texts.len() == n,
            lowers.len() == n,
            res.wf(),
            cs <= ce <= s.len(),
            offs.len() == s.len() + 1,
            forall|k: int| 0 <= k <= s.len() ==> offs@[k] == byte_at(s@, k),
            forall|i: int|
                0 <= i < toks.len() ==> (#[trigger] toks@[i]).0 == clause_toks(s@, cs as int, ce as int)[i].0
                    && toks@[i].1 == clause_toks(s@, cs as int, ce as int)[i].1,
            forall|i: int| 0 <= i < toks.len() ==> 0 <= (#[trigger] toks@[i]).0 < toks@[i].1 <= ce - cs,
            forall|i: int| 0 <= i < texts.len() ==> (#[trigger] texts@[i])@ == clause_tok(s@, cs as int, ce as int, i),
            forall|i: int| 0 <= i < lowers.len() ==> (#[trigger] lowers@[i])@ == lowercase(texts@[i]@),
            countable.len() == n,
            joins.len() == n,
            forall|i: int| 0 <= i < n ==> countable@[i] == tok_countable(*res, s@, cs as int, ce as int, i),
            forall|i: int| 0 < i < n ==> joins@[i] == joins_previous(s@, cs as int, ce as int, i),
            max >= 1,
            start <= n,
            clause_windows(*res, s@, cs as int, ce as int, 0, max as int, a0)
                == clause_windows(*res, s@, cs as int, ce as int, start as int, max as int, group_views(acc@)),
        decreases n - start,
    {
        windows_at(res, s, offs, cs, ce, &toks, &texts, &lowers, &countable, &joins, start, max, acc);
        start = start + 1;
    }
}

/// A topical candidate, before scoring.
#[derive(Debug, Clone, PartialEq, Eq)]
pub struct TopicalCandidate {
    /// The first variant seen, words joined by single spaces.
    pub surface: String,
    /// The lowercase form every occurrence shares.
    pub normalised: String,
    /// The lowercase form of each word, the terms the candidate is scored from.
    pub terms: Vec<String>,
    /// Byte offsets of every occurrence into the canonical text.
    pub offsets: Vec<core::ops::Range<usize>>,
}

/// Whether a candidate as computed matches its specification.
pub open spec fn phrase_matches(c: TopicalCandidate, v: PhraseView) -> bool {
    &&& c.surface@ == v.0
    &&& c.normalised@ == v.1
    &&& c.terms@.len() == v.2.len()
    &&& forall|k: int| 0 <= k < v.2.len() ==> (#[trigger] c.terms@[k])@ == v.2[k]
    &&& c.offsets@.len() == v.3.len()
    &&& forall|k: int|
        0 <= k < v.3.len() ==> (#[trigger] c.offsets@[k]).start == v.3[k].0 && c.offsets@[k].end == v.3[k].1
}

/// Every topical candidate of the canonical text: contiguous n-grams of up to
/// `cfg.yake_ngram_max` words (at least one), never crossing a clause, a line, a
/// stopword or punctuation, grouped by lowercase form in order of first occurrence.
///
/// Stopwords bound a phrase rather than joining it: `regeneration of the column` is two
/// candidates, not one four-word phrase. Punctuation bounds it because a comma is a
/// clause boundary, and a line break because token adjacency is not adjacency on the
/// page.
pub fn topical_candidates(text: &str, cfg: &Config, res: &Resources) -> (out: Vec<TopicalCandidate>)
    requires
        res.wf(),
        utf8_len(text@) <= usize::MAX,
    ensures
        out.len() == spec_topical_candidates(*res, text@, cfg.yake_ngram_max as nat).len(),
        forall|i: int|
            0 <= i < out.len() ==> phrase_matches(
                #[trigger] out@[i],
                spec_topical_candidates(*res, text@, cfg.yake_ngram_max as nat)[i],
            ),
{
    let max: usize = if cfg.yake_ngram_max < 1 {
        1
    } else {
        cfg.yake_ngram_max
    };
    let s = chars_of(text);
    let offs = byte_offsets(s.as_slice());
    let cl = clause_char_spans(text);
    let ghost cls = clause_spans(text@);
    let mut acc: Vec<PhraseGroup> = Vec::new();
    proof {
        assert(group_views(acc@) =~= Seq::<PhraseView>::empty());
    }
    let mut c: usize = 0;
    while c < cl.len()
        invariant
            s@ == text@,
            res.wf(),
            max >= 1,
            offs.len() == s.len() + 1,
            forall|k: int| 0 <= k <= s.len() ==> offs@[k] == byte_at(s@, k),
            cls == clause_spans(text@),
            cl.len() == cls.len(),
            forall|i: int| 0 <= i < cl.len() ==> (#[trigger] cl@[i]).0 == cls[i].0 && cl@[i].1 == cls[i].1,
            forall|i: int| 0 <= i < cl.len() ==> 0 <= (#[trigger] cl@[i]).0 <= cl@[i].1 <= text@.len(),
            c <= cl.len(),
            group_views(acc@) == phrases_upto(*res, text@, cls, c as int, max as int),
        decreases cl.len() - c,
    {
        clause_candidates(res, &s, &offs, cl[c].0, cl[c].1, max, &mut acc);
        c = c + 1;
    }
    let ghost all = group_views(acc@);
    let mut out: Vec<TopicalCandidate> = Vec::new();
    let mut i: usize = 0;
    while i < acc.len()
        invariant
            all == group_views(acc@),
            all == spec_topical_candidates(*res, text@, cfg.yake_ngram_max as nat),
            i <= acc.len(),
            out.len() == i,
            forall|k: int| 0 <= k < i ==> phrase_matches(#[trigger] out@[k], all[k]),
        decreases acc.len() - i,
    {
        let g = &acc[i];
        let ghost v = group_view(*g);
        proof {
            assert(all[i as int] == v);
        }
        let mut offsets: Vec<core::ops::Range<usize>> = Vec::new();
        let mut k: usize = 0;
        while k < g.spans.len()
            invariant
                v == group_view(*g),
                k <= g.spans.len(),
                offsets.len() == k,
                forall|q: int| 0 <= q < k ==> (#[trigger] offsets@[q]).start == v.3[q].0 && offsets@[q].end == v.3[q].1,
            decreases g.spans.len() - k,
        {
            let (a, b) = g.spans[k];
            offsets.push(core::ops::Range { start: a, end: b });
            k = k + 1;
        }
        let mut terms: Vec<String> = Vec::new();
        let mut k: usize = 0;
        while k < g.terms.len()
            invariant
                v == group_view(*g),
                k <= g.terms.len(),
                terms.len() == k,
                forall|q: int| 0 <= q < k ==> (#[trigger] terms@[q])@ == v.2[q],
            decreases g.terms.len() - k,
        {
            terms.push(string_from_chars(g.terms[k].as_slice()));
            k = k + 1;
        }
        let c = TopicalCandidate {
            surface: string_from_chars(g.surface.as_slice()),
            normalised: string_from_chars(g.key.as_slice()),
            terms,
            offsets,
        };
        proof {
            assert(phrase_matches(c, v));
        }
        out.push(c);
        i = i + 1;
    }
    out
}

// ---------------------------------------------------------------------------------------
// What every candidate satisfies
// ---------------------------------------------------------------------------------------

/// Whether the chars `[a, b)` hold no tab and no two spaces in a row — as canonical text,
/// whose horizontal whitespace is collapsed, never does.
pub open spec fn plainly_spaced(s: Seq<char>, a: int, b: int) -> bool {
    forall|k: int| a <= k < b ==> #[trigger] s[k] != '\t' && (k + 1 < b ==> !(s[k] == ' ' && s[k + 1] == ' '))
}

/// Whether a byte span is where some chars `[a, b)` of the text sit, chars which —
/// when plainly spaced — lowercase to `key`.
pub open spec fn resolves_to(s: Seq<char>, key: Seq<char>, span: (int, int)) -> bool {
    exists|a: int, b: int|
        0 <= a <= b <= s.len() && span == (byte_at(s, a) as int, byte_at(s, b) as int) && (plainly_spaced(s, a, b)
            ==> lowercase(#[trigger] s.subrange(a, b)) == key)
}

/// What every topical candidate satisfies: between one and `max` words, none of them a
/// stopword, and every occurrence resolving to the lowercase form.
pub open spec fn phrase_ok(res: Resources, s: Seq<char>, max: int, v: PhraseView) -> bool {
    &&& 1 <= v.2.len() <= max
    &&& forall|q: int| 0 <= q < v.2.len() ==> !spec_stop(res, #[trigger] v.2[q])
    &&& forall|k: int| 0 <= k < v.3.len() ==> resolves_to(s, v.1, #[trigger] v.3[k])
    &&& lettered_words(v)
}

/// The candidate's surface is its words joined by single spaces, each word holding a
/// letter, and its terms are those words lowercased: no bare number or punctuation is a
/// word of a candidate.
pub open spec fn lettered_words(v: PhraseView) -> bool {
    exists|words: Seq<Seq<char>>|
        #[trigger] join_space(words) == v.0 && words.len() == v.2.len() && forall|q: int|
            0 <= q < words.len() ==> has_alpha(#[trigger] words[q]) && v.2[q] == lowercase(words[q])
}

pub open spec fn all_phrases_ok(res: Resources, s: Seq<char>, max: int, acc: Seq<PhraseView>) -> bool {
    forall|i: int| 0 <= i < acc.len() ==> phrase_ok(res, s, max, #[trigger] acc[i])
}

/// A window's chars, plainly spaced, are its words joined by single spaces.
proof fn lemma_window_chars(res: Resources, s: Seq<char>, cs: int, ce: int, start: int, len: int)
    requires
        0 <= cs <= ce <= s.len(),
        1 <= len,
        0 <= start,
        start + len <= clause_toks(s, cs, ce).len(),
        is_phrase_window(res, s, cs, ce, start, len),
        plainly_spaced(s, cs + clause_toks(s, cs, ce)[start].0, cs + clause_toks(s, cs, ce)[start + len - 1].1),
    ensures
        s.subrange(cs + clause_toks(s, cs, ce)[start].0, cs + clause_toks(s, cs, ce)[start + len - 1].1)
            == join_space(window_words(s, cs, ce, start, len)),
    decreases len,
{
    let tk = clause_toks(s, cs, ce);
    let sub = s.subrange(cs, ce);
    lemma_token_spans_bounds(sub, 0);
    assert(tk == token_spans(sub));
    let a = cs + tk[start].0;
    let e = start + len - 1;
    let words = window_words(s, cs, ce, start, len);
    assert(words.len() == len);
    assert(words[len - 1] == clause_tok(s, cs, ce, e));
    if len == 1 {
        assert(join_space(words) == words[0]);
    } else {
        let m = cs + tk[e - 1].1;
        let g = cs + tk[e].0;
        assert(tk[e - 1].1 <= tk[e].0);
        assert(plainly_spaced(s, cs + tk[start].0, m)) by {
            assert forall|k: int| a <= k < m implies #[trigger] s[k] != '\t' && (k + 1 < m ==> !(s[k] == ' ' && s[k + 1] == ' ')) by {
                assert(a <= k < cs + tk[e].1);
            }
        }
        assert(is_phrase_window(res, s, cs, ce, start, len - 1));
        lemma_window_chars(res, s, cs, ce, start, len - 1);
        assert(words.drop_last() =~= window_words(s, cs, ce, start, len - 1));
        assert(joins_previous(s, cs, ce, e));
        assert(gap_is_blank(s, m, g));
        assert(s.subrange(m, g) =~= seq![' ']) by {
            assert(s[m] != '\t');
            assert(s[m] == ' ');
            if g > m + 1 {
                assert(s[m + 1] == ' ' || s[m + 1] == '\t');
                assert(s[m + 1] != '\t');
                assert(false);
            }
        }
        assert(s.subrange(a, cs + tk[e].1) =~= s.subrange(a, m) + s.subrange(m, g) + s.subrange(g, cs + tk[e].1));
    }
}

/// Recording a window keeps every candidate well-formed.
#[verifier::spinoff_prover]
proof fn lemma_add_window_ok(res: Resources, s: Seq<char>, cs: int, ce: int, start: int, len: int, max: int, acc: Seq<PhraseView>)
    requires
        0 <= cs <= ce <= s.len(),
        1 <= len <= max,
        0 <= start,
        start + len <= clause_toks(s, cs, ce).len(),
        is_phrase_window(res, s, cs, ce, start, len),
        all_phrases_ok(res, s, max, acc),
    ensures
        all_phrases_ok(res, s, max, add_window(acc, s, cs, ce, start, len)),
{
    let tk = clause_toks(s, cs, ce);
    let sub = s.subrange(cs, ce);
    lemma_token_spans_bounds(sub, 0);
    assert(tk == token_spans(sub));
    let words = window_words(s, cs, ce, start, len);
    let surface = join_space(words);
    let key = lowercase(surface);
    let a = cs + tk[start].0;
    let b = cs + tk[start + len - 1].1;
    assert(tk[start].0 < tk[start].1);
    if start < start + len - 1 {
        assert(tk[start].1 <= tk[start + len - 1].0);
    }
    let span = (byte_at(s, a) as int, byte_at(s, b) as int);
    assert(resolves_to(s, key, span)) by {
        if plainly_spaced(s, a, b) {
            lemma_window_chars(res, s, cs, ce, start, len);
        }
        assert(0 <= a <= b <= s.len());
        assert(plainly_spaced(s, a, b) ==> lowercase(s.subrange(a, b)) == key);
    }
    let terms = Seq::new(len as nat, |q: int| lowercase(words[q]));
    assert forall|q: int| 0 <= q < terms.len() implies !spec_stop(res, #[trigger] terms[q]) by {
        assert(tok_countable(res, s, cs, ce, start + q));
        assert(words[q] == clause_tok(s, cs, ce, start + q));
    }
    assert(lettered_words((surface, key, terms, seq![span]))) by {
        assert forall|q: int| 0 <= q < words.len() implies has_alpha(#[trigger] words[q]) && terms[q] == lowercase(words[q]) by {
            assert(tok_countable(res, s, cs, ce, start + q));
            assert(words[q] == clause_tok(s, cs, ce, start + q));
        }
    }
    let k = find_phrase(acc, key);
    lemma_find_phrase(acc, key);
    let r = add_window(acc, s, cs, ce, start, len);
    if k < 0 {
        assert(r == acc.push((surface, key, terms, seq![span])));
        assert forall|i: int| 0 <= i < r.len() implies phrase_ok(res, s, max, #[trigger] r[i]) by {
            if i < acc.len() {
                assert(r[i] == acc[i]);
            }
        }
    } else {
        let old = acc[k];
        let upd = (old.0, old.1, old.2, old.3.push(span));
        assert(r == acc.update(k, upd));
        assert(phrase_ok(res, s, max, old));
        assert(old.1 == key);
        assert(phrase_ok(res, s, max, upd)) by {
            assert(lettered_words(old));
            let w = choose|words: Seq<Seq<char>>|
                #[trigger] join_space(words) == old.0 && words.len() == old.2.len() && forall|q: int|
                    0 <= q < words.len() ==> has_alpha(#[trigger] words[q]) && old.2[q] == lowercase(words[q]);
            assert(join_space(w) == upd.0);
            assert forall|j: int| 0 <= j < upd.3.len() implies resolves_to(s, upd.1, #[trigger] upd.3[j]) by {
                if j < old.3.len() {
                    assert(upd.3[j] == old.3[j]);
                }
            }
        }
        assert forall|i: int| 0 <= i < r.len() implies phrase_ok(res, s, max, #[trigger] r[i]) by {
            if i != k {
                assert(r[i] == acc[i]);
            }
        }
    }
}

proof fn lemma_windows_from_ok(
    res: Resources,
    s: Seq<char>,
    cs: int,
    ce: int,
    start: int,
    len: int,
    max: int,
    acc: Seq<PhraseView>,
)
    requires
        0 <= cs <= ce <= s.len(),
        0 <= start,
        all_phrases_ok(res, s, max, acc),
    ensures
        all_phrases_ok(res, s, max, windows_from(res, s, cs, ce, start, len, max, acc)),
    decreases max + 1 - len,
{
    if !(len < 1 || len > max || start + len > clause_toks(s, cs, ce).len() || !is_phrase_window(res, s, cs, ce, start, len)) {
        lemma_add_window_ok(res, s, cs, ce, start, len, max, acc);
        lemma_windows_from_ok(res, s, cs, ce, start, len + 1, max, add_window(acc, s, cs, ce, start, len));
    }
}

proof fn lemma_clause_windows_ok(res: Resources, s: Seq<char>, cs: int, ce: int, start: int, max: int, acc: Seq<PhraseView>)
    requires
        0 <= cs <= ce <= s.len(),
        all_phrases_ok(res, s, max, acc),
    ensures
        all_phrases_ok(res, s, max, clause_windows(res, s, cs, ce, start, max, acc)),
    decreases clause_toks(s, cs, ce).len() - start,
{
    if !(start < 0 || start >= clause_toks(s, cs, ce).len()) {
        lemma_windows_from_ok(res, s, cs, ce, start, 1, max, acc);
        lemma_clause_windows_ok(res, s, cs, ce, start + 1, max, windows_from(res, s, cs, ce, start, 1, max, acc));
    }
}

proof fn lemma_phrases_upto_ok(res: Resources, s: Seq<char>, c: int, max: int)
    ensures
        all_phrases_ok(res, s, max, phrases_upto(res, s, clause_spans(s), c, max)),
    decreases c,
{
    let cl = clause_spans(s);
    if !(c <= 0 || c > cl.len()) {
        lemma_phrases_upto_ok(res, s, c - 1, max);
        lemma_clause_spans_bounds(s);
        lemma_clause_windows_ok(res, s, cl[c - 1].0, cl[c - 1].1, 0, max, phrases_upto(res, s, cl, c - 1, max));
    }
}

/// Every topical candidate has between one and the configured maximum of words (at
/// least one word is always allowed), none of them a stopword and each holding a letter,
/// so a bare number such as `91.4` is never a word of a candidate; and every occurrence's
/// byte span is where the text holds the candidate — lowercased, it is the candidate's
/// lowercase form wherever its words are plainly spaced, as they are in canonical text.
pub proof fn lemma_topical_candidates_ok(res: Resources, s: Seq<char>, max: nat, i: int)
    requires
        0 <= i < spec_topical_candidates(res, s, max).len(),
    ensures
        phrase_ok(res, s, if max < 1 { 1 } else { max as int }, spec_topical_candidates(res, s, max)[i]),
{
    let m = if max < 1 {
        1
    } else {
        max as int
    };
    lemma_phrases_upto_ok(res, s, clause_spans(s).len() as int, m);
}

/// A lowercase form of a word that holds a letter and is no stopword.
pub open spec fn lettered_term(res: Resources, key: Seq<char>) -> bool {
    exists|w: Seq<char>| #[trigger] lowercase(w) == key && has_alpha(w) && w.len() >= 2 && !spec_stop(res, key)
}

pub open spec fn all_terms_lettered(res: Resources, acc: Seq<TermView>) -> bool {
    forall|i: int| 0 <= i < acc.len() ==> lettered_term(res, #[trigger] acc[i].0)
}

proof fn lemma_add_term_lettered(res: Resources, acc: Seq<TermView>, s: Seq<char>, cs: int, ce: int, c: int, j: int)
    requires
        all_terms_lettered(res, acc),
        spec_is_countable(res, clause_tok(s, cs, ce, j), lowercase(clause_tok(s, cs, ce, j))),
    ensures
        all_terms_lettered(res, add_term_occurrence(acc, s, cs, ce, c, j)),
{
    let t = clause_tok(s, cs, ce, j);
    let lo = lowercase(t);
    assert(lettered_term(res, lo));
    let r = add_term_occurrence(acc, s, cs, ce, c, j);
    let k = find_term(acc, lo);
    lemma_find_term(acc, lo);
    assert forall|i: int| 0 <= i < r.len() implies lettered_term(res, #[trigger] r[i].0) by {
        if k < 0 {
            if i < acc.len() {
                assert(r[i] == acc[i]);
            } else {
                assert(r[i].0 == lo);
            }
        } else {
            if i != k {
                assert(r[i] == acc[i]);
            } else {
                assert(r[i].0 == lo);
            }
        }
    }
}

proof fn lemma_terms_in_clause_lettered(res: Resources, s: Seq<char>, cs: int, ce: int, c: int, acc: Seq<TermView>, k: int)
    requires
        all_terms_lettered(res, acc),
    ensures
        all_terms_lettered(res, terms_in_clause(res, s, cs, ce, c, acc, k)),
    decreases k,
{
    if k > 0 {
        lemma_terms_in_clause_lettered(res, s, cs, ce, c, acc, k - 1);
        let t = clause_tok(s, cs, ce, k - 1);
        if spec_is_countable(res, t, lowercase(t)) {
            lemma_add_term_lettered(res, terms_in_clause(res, s, cs, ce, c, acc, k - 1), s, cs, ce, c, k - 1);
        }
    }
}

proof fn lemma_terms_upto_lettered(res: Resources, s: Seq<char>, cl: Seq<(int, int)>, c: int)
    ensures
        all_terms_lettered(res, terms_upto(res, s, cl, c)),
    decreases c,
{
    if !(c <= 0 || c > cl.len()) {
        lemma_terms_upto_lettered(res, s, cl, c - 1);
        let (cs, ce) = cl[c - 1];
        lemma_terms_in_clause_lettered(res, s, cs, ce, c - 1, terms_upto(res, s, cl, c - 1), clause_toks(s, cs, ce).len() as int);
    }
}

/// Every term the topical statistics hold is the lowercase form of a word of at least
/// two chars that holds a letter and is no stopword: bare numbers, punctuation and
/// function words are never counted.
pub proof fn lemma_term_stats_lettered(res: Resources, s: Seq<char>, i: int)
    requires
        0 <= i < spec_term_stats(res, s).len(),
    ensures
        lettered_term(res, spec_term_stats(res, s)[i].0),
{
    lemma_terms_upto_lettered(res, s, clause_spans(s), clause_spans(s).len() as int);
}

} // verus!
