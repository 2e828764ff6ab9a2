//! Static resources: the general English wordlist, the stopword list and the lemma
//! exception list, and the lookups every stage makes against them.
//!
//! The wordlist is frequency-ranked, most frequent first, and deliberately *general*
//! English. Stage 1 asks "is this an ordinary English word"; ranking turns the answer's
//! precision/recall trade-off into a single scalar, [`Config::wordlist_size`], rather than
//! a judgement. Each list's blake3 digest folds into the version stamp, so a different
//! list can never change output silently.
//!
//! Membership is tested against sorted word sets by binary search.
//!
//! This build embeds the stopword list only; the embedded wordlist and lemma list
//! ([`DEFAULT_WORDLIST`], [`DEFAULT_LEMMAS`]) are empty, and ranked lists are supplied
//! through [`Resources::from_lists`].

use vstd::prelude::*;
use vstd::string::StringExecFns;
use vstd::utf8::*;

use crate::config::{default_config, Config};
use crate::digest::{blake3_digest, blake3_hash};
use vstd::string::StringSliceAdditionalSpecFns;
use crate::text::{
    chars_of, char_is_alphabetic, char_is_whitespace, is_alpha, is_ws, lowercase, split_lines,
    split_lines_chars, split_ws, split_ws_chars, str_to_lowercase, string_from_chars,
};
use crate::tokenize::{first_non_ws, lemma_first_non_ws};

verus! {

// ---------------------------------------------------------------------------------------
// Sorted word sets
// ---------------------------------------------------------------------------------------

/// Lexicographic order on byte strings.
pub open spec fn bytes_le(a: Seq<u8>, b: Seq<u8>) -> bool
    decreases a.len(),
{
    if a.len() == 0 {
        true
    } else if b.len() == 0 {
        false
    } else if a[0] != b[0] {
        a[0] < b[0]
    } else {
        bytes_le(a.drop_first(), b.drop_first())
    }
}

/// Ascending in the order `String` sorts by: lexicographic on the UTF-8 bytes.
pub open spec fn sorted_by_bytes(v: Seq<String>) -> bool {
    forall|i: int, j: int|
        0 <= i < j < v.len() ==> bytes_le(encode_utf8((#[trigger] v[i])@), encode_utf8((#[trigger] v[j])@))
}

/// The texts held by a vector of strings.
pub open spec fn texts_of(v: Seq<String>) -> Set<Seq<char>> {
    Set::new(|w: Seq<char>| exists|i: int| 0 <= i < v.len() && (#[trigger] v[i])@ == w)
}

/// The texts of a vector of strings, in order.
pub open spec fn texts_seq(v: Seq<String>) -> Seq<Seq<char>> {
    v.map_values(|s: String| s@)
}

/// Whether `a` sorts no later than `b` in `String`'s order: lexicographic on the UTF-8
/// bytes.
pub open spec fn chars_le(a: Seq<char>, b: Seq<char>) -> bool {
    bytes_le(encode_utf8(a), encode_utf8(b))
}

/// The texts rearranged into ascending order. Distinct texts have distinct encodings and
/// `bytes_le` is a total order, so there is exactly one such arrangement.
pub open spec fn sorted_texts(ws: Seq<Seq<char>>) -> Seq<Seq<char>> {
    choose|t: Seq<Seq<char>>|
        t.to_multiset() == ws.to_multiset() && forall|i: int, j: int|
            0 <= i < j < t.len() ==> chars_le(#[trigger] t[i], #[trigger] t[j])
}

/// `slice::sort` on strings: afterwards the vector holds the same strings in ascending
/// order (`String`'s `Ord` compares UTF-8 bytes lexicographically).
#[verifier::external_body]
pub(crate) fn sort_strings(v: &mut Vec<String>)
    ensures
        sorted_by_bytes(final(v)@),
        texts_of(final(v)@) == texts_of(old(v)@),
        final(v)@.len() == old(v)@.len(),
        texts_seq(final(v)@) == sorted_texts(texts_seq(old(v)@)),
{
    v.sort();
}

/// `slice::binary_search` for a string in a sorted vector: found exactly when an equal
/// string is present.
#[verifier::external_body]
fn sorted_strings_contain(v: &Vec<String>, w: &str) -> (r: bool)
    requires
        sorted_by_bytes(v@),
    ensures
        r == texts_of(v@).contains(w@),
{
    v.binary_search(&String::from(w)).is_ok()
}

/// A set of words, kept sorted so membership is a binary search.
pub struct WordSet {
    words: Vec<String>,
}

impl WordSet {
    /// The words in the set.
    pub closed spec fn view(&self) -> Set<Seq<char>> {
        texts_of(self.words@)
    }

    pub closed spec fn wf(&self) -> bool {
        sorted_by_bytes(self.words@)
    }

    /// The set of the given words.
    pub fn new(words: Vec<String>) -> (r: Self)
        ensures
            r.wf(),
            r.view() == texts_of(words@),
    {
        let mut words = words;
        sort_strings(&mut words);
        WordSet { words }
    }

    /// Whether `w` is in the set.
    pub fn contains(&self, w: &str) -> (r: bool)
        requires
            self.wf(),
        ensures
            r == self.view().contains(w@),
    {
        sorted_strings_contain(&self.words, w)
    }

    /// Whether the word spelled by `w` is in the set.
    pub fn contains_chars(&self, w: &[char]) -> (r: bool)
        requires
            self.wf(),
        ensures
            r == self.view().contains(w@),
    {
        let s = string_from_chars(w);
        self.contains(s.as_str())
    }
}

// ---------------------------------------------------------------------------------------
// Parsing the lists
// ---------------------------------------------------------------------------------------

/// A line whose first non-whitespace char is `#`.
pub open spec fn is_comment_line(line: Seq<char>) -> bool {
    let f = first_non_ws(line, 0, line.len() as int);
    f < line.len() && line[f] == '#'
}

/// The lowercased words of a sequence of lines, comment lines skipped, in order.
pub open spec fn entries_of_lines(lines: Seq<Seq<char>>) -> Seq<Seq<char>>
    decreases lines.len(),
{
    if lines.len() == 0 {
        Seq::empty()
    } else {
        let last = lines.last();
        entries_of_lines(lines.drop_last()) + if is_comment_line(last) {
            Seq::empty()
        } else {
            split_ws(last).map_values(|w: Seq<char>| lowercase(w))
        }
    }
}

/// The entries of a resource file: every whitespace-separated word, lowercased, in file
/// order, comment lines skipped. For the wordlist, order is rank.
pub open spec fn spec_entries(text: Seq<char>) -> Seq<Seq<char>> {
    entries_of_lines(split_lines(text))
}

fn comment_line(line: &[char]) -> (r: bool)
    ensures
        r == is_comment_line(line@),
{
    let mut f: usize = 0;
    while f < line.len() && char_is_whitespace(line[f])
        invariant
            f <= line.len(),
            first_non_ws(line@, 0, line.len() as int) == first_non_ws(line@, f as int, line.len() as int),
        decreases line.len() - f,
    {
        f = f + 1;
    }
    f < line.len() && line[f] == '#'
}

/// Strip comments and blank lines, preserving order — for the wordlist, order is rank.
///
/// Entries are split on whitespace rather than taken a line at a time: the wordlist is
/// one token per line, so rank order is untouched, while the stopword list is written as
/// space-separated runs, and reading *it* a line at a time would produce multi-word
/// entries that no lookup could ever match.
pub fn entries(text: &str) -> (out: Vec<String>)
    ensures
        out@.len() == spec_entries(text@).len(),
        forall|i: int| 0 <= i < out.len() ==> (#[trigger] out@[i])@ == spec_entries(text@)[i],
{
    let cs = chars_of(text);
    let lines = split_lines_chars(cs.as_slice());
    let ghost ls = split_lines(text@);
    let mut out: Vec<String> = Vec::new();
    let mut i: usize = 0;
    while i < lines.len()
        invariant
            cs@ == text@,
            ls == split_lines(cs@),
            lines@.len() == ls.len(),
            forall|k: int| 0 <= k < lines.len() ==> (#[trigger] lines@[k])@ == ls[k],
            i <= lines.len(),
            out@.len() == entries_of_lines(ls.take(i as int)).len(),
            forall|k: int| 0 <= k < out.len() ==> (#[trigger] out@[k])@ == entries_of_lines(ls.take(i as int))[k],
        decreases lines.len() - i,
    {
        let line = &lines[i];
        proof {
            assert(ls.take(i + 1).drop_last() =~= ls.take(i as int));
            assert(ls.take(i + 1).last() == line@);
        }
        if !comment_line(line.as_slice()) {
            let words = split_ws_chars(line.as_slice());
            let ghost before = out@;
            let ghost ws = split_ws(line@);
            let ghost prev = entries_of_lines(ls.take(i as int));
            assert(forall|k: int| 0 <= k < before.len() ==> (#[trigger] before[k])@ == prev[k]);
            let mut j: usize = 0;
            while j < words.len()
                invariant
                    words@.len() == ws.len(),
                    forall|k: int| 0 <= k < words.len() ==> (#[trigger] words@[k])@ == ws[k],
                    j <= words.len(),
                    out@.len() == before.len() + j,
                    forall|k: int| 0 <= k < before.len() ==> out@[k] == before[k],
                    forall|k: int| 0 <= k < j ==> (#[trigger] out@[before.len() + k])@ == lowercase(ws[k]),
                decreases words.len() - j,
            {
                let w = string_from_chars(words[j].as_slice());
                out.push(str_to_lowercase(w.as_str()));
                j = j + 1;
            }
            proof {
                let next = entries_of_lines(ls.take(i + 1));
                let mapped = ws.map_values(|w: Seq<char>| lowercase(w));
                assert(next == entries_of_lines(ls.take(i as int)) + mapped);
                assert forall|k: int| 0 <= k < out.len() implies (#[trigger] out@[k])@ == next[k] by {
                    if k >= before.len() {
                        assert(out@[before.len() + (k - before.len())] == out@[k]);
                    } else {
                        assert(out@[k] == before[k]);
                    }
                }
            }
        } else {
            proof {
                assert(entries_of_lines(ls.take(i + 1)) =~= entries_of_lines(ls.take(i as int)));
            }
        }
        i = i + 1;
    }
    proof {
        assert(ls.take(lines.len() as int) =~= ls);
    }
    out
}

// ---------------------------------------------------------------------------------------
// The lemma exception list
// ---------------------------------------------------------------------------------------

/// Record that `infl` has the lemma `l`: a lemma equal to the form itself is ignored, and
/// a lemma already recorded is not repeated.
pub open spec fn add_lemma(
    m: Map<Seq<char>, Seq<Seq<char>>>,
    infl: Seq<char>,
    l: Seq<char>,
) -> Map<Seq<char>, Seq<Seq<char>>> {
    if l == infl {
        m
    } else {
        let slot = if m.contains_key(infl) {
            m[infl]
        } else {
            Seq::empty()
        };
        if slot.contains(l) {
            m.insert(infl, slot)
        } else {
            m.insert(infl, slot.push(l))
        }
    }
}

/// Record every lemma of a line, in order.
pub open spec fn add_lemmas(
    m: Map<Seq<char>, Seq<Seq<char>>>,
    infl: Seq<char>,
    ls: Seq<Seq<char>>,
) -> Map<Seq<char>, Seq<Seq<char>>>
    decreases ls.len(),
{
    if ls.len() == 0 {
        m
    } else {
        add_lemma(add_lemmas(m, infl, ls.drop_last()), infl, ls.last())
    }
}

/// The lemma table a sequence of lines describes: each non-comment line is an inflected
/// form followed by its lemmas, all lowercased.
pub open spec fn lemma_map_of(lines: Seq<Seq<char>>) -> Map<Seq<char>, Seq<Seq<char>>>
    decreases lines.len(),
{
    if lines.len() == 0 {
        Map::empty()
    } else {
        let m = lemma_map_of(lines.drop_last());
        let line = lines.last();
        let fields = split_ws(line).map_values(|w: Seq<char>| lowercase(w));
        if is_comment_line(line) || fields.len() == 0 {
            m
        } else {
            add_lemmas(m, fields[0], fields.drop_first())
        }
    }
}

/// The lemma table of a lemma file.
pub open spec fn spec_lemma_entries(text: Seq<char>) -> Map<Seq<char>, Seq<Seq<char>>> {
    lemma_map_of(split_lines(text))
}

/// The views of a vector of strings.
pub open spec fn views_of(v: Seq<String>) -> Seq<Seq<char>> {
    v.map_values(|s: String| s@)
}

/// Irregular inflections and their lemmas: `mice` to `mouse`, `better` to `good` and
/// `well`.
pub struct LemmaTable {
    keys: Vec<String>,
    values: Vec<Vec<String>>,
    map: Ghost<Map<Seq<char>, Seq<Seq<char>>>>,
}

impl LemmaTable {
    /// Each inflected form and its lemmas, in the order they were first listed.
    pub closed spec fn view(&self) -> Map<Seq<char>, Seq<Seq<char>>> {
        self.map@
    }

    pub closed spec fn wf(&self) -> bool {
        &&& self.keys.len() == self.values.len()
        &&& forall|i: int, j: int|
            0 <= i < j < self.keys.len() ==> (#[trigger] self.keys@[i])@ != (#[trigger] self.keys@[j])@
        &&& forall|i: int|
            0 <= i < self.keys.len() ==> self.map@.contains_key((#[trigger] self.keys@[i])@)
                && self.map@[self.keys@[i]@] == views_of(self.values@[i]@)
        &&& forall|k: Seq<char>|
            #[trigger] self.map@.contains_key(k) ==> exists|i: int|
                0 <= i < self.keys.len() && (#[trigger] self.keys@[i])@ == k
    }

    pub fn new() -> (r: Self)
        ensures
            r.wf(),
            r.view() == Map::<Seq<char>, Seq<Seq<char>>>::empty(),
    {
        LemmaTable { keys: Vec::new(), values: Vec::new(), map: Ghost(Map::empty()) }
    }

    fn position(&self, k: &str) -> (r: Option<usize>)
        requires
            self.wf(),
        ensures
            r is Some ==> r->0 < self.keys.len() && self.keys@[r->0 as int]@ == k@,
            r is None <==> !self.view().contains_key(k@),
    {
        let mut i: usize = 0;
        while i < self.keys.len()
            invariant
                self.wf(),
                i <= self.keys.len(),
                forall|j: int| 0 <= j < i ==> (#[trigger] self.keys@[j])@ != k@,
            decreases self.keys.len() - i,
        {
            if str_eq(self.keys[i].as_str(), k) {
                return Some(i);
            }
            i = i + 1;
        }
        None
    }

    /// The lemmas of `k`, if it is an irregular form.
    pub fn get(&self, k: &str) -> (r: Option<&Vec<String>>)
        requires
            self.wf(),
        ensures
            r is Some <==> self.view().contains_key(k@),
            r is Some ==> views_of(r->0@) == self.view()[k@],
    {
        match self.position(k) {
            Some(i) => Some(&self.values[i]),
            None => None,
        }
    }

    /// Whether `k` is an irregular form with lemmas.
    pub fn contains_key(&self, k: &str) -> (r: bool)
        requires
            self.wf(),
        ensures
            r == self.view().contains_key(k@),
    {
        self.position(k).is_some()
    }

    /// Record that `infl` has the lemma `l`.
    fn add(&mut self, infl: String, l: String)
        requires
            old(self).wf(),
        ensures
            final(self).wf(),
            final(self).view() == add_lemma(old(self).view(), infl@, l@),
    {
        if str_eq(l.as_str(), infl.as_str()) {
            return;
        }
        match self.position(infl.as_str()) {
            Some(i) => {
                let present = contains_str(&self.values[i], l.as_str());
                if !present {
                    let mut slot = self.values[i].clone();
                    proof {
                        assert(views_of(slot@) =~= views_of(self.values@[i as int]@));
                    }
                    let ghost old_slot = views_of(slot@);
                    slot.push(l);
                    proof {
                        assert(views_of(slot@) =~= old_slot.push(l@));
                    }
                    self.values.set(i, slot);
                    proof {
                        self.map@ = self.map@.insert(infl@, views_of(self.values@[i as int]@));
                    }
                }
            },
            None => {
                let ghost key = infl@;
                let mut slot: Vec<String> = Vec::new();
                slot.push(l);
                proof {
                    assert(views_of(slot@) =~= Seq::<Seq<char>>::empty().push(slot@[0]@));
                }
                let ghost old_keys = self.keys@;
                let ghost old_map = self.map@;
                self.keys.push(infl);
                self.values.push(slot);
                proof {
                    self.map@ = self.map@.insert(key, views_of(slot@));
                    let n = old_keys.len() as int;
                    assert(self.keys@[n]@ == key);
                    assert forall|k: Seq<char>| #[trigger] self.map@.contains_key(k) implies exists|i: int|
                        0 <= i < self.keys.len() && (#[trigger] self.keys@[i])@ == k by {
                        if k == key {
                            assert(self.keys@[n]@ == k);
                        } else {
                            assert(old_map.contains_key(k));
                            let i = choose|i: int| 0 <= i < old_keys.len() && (#[trigger] old_keys[i])@ == k;
                            assert(self.keys@[i] == old_keys[i]);
                        }
                    }
                }
            },
        }
    }
}

/// Whether two strings hold the same text.
pub fn str_eq(a: &str, b: &str) -> (r: bool)
    ensures
        r == (a@ == b@),
{
    let x = chars_of(a);
    let y = chars_of(b);
    if x.len() != y.len() {
        return false;
    }
    let mut i: usize = 0;
    while i < x.len()
        invariant
            x@ == a@,
            y@ == b@,
            x.len() == y.len(),
            i <= x.len(),
            forall|k: int| 0 <= k < i ==> x@[k] == y@[k],
        decreases x.len() - i,
    {
        if x[i] != y[i] {
            return false;
        }
        i = i + 1;
    }
    proof {
        assert(x@ =~= y@);
    }
    true
}

/// Whether some string of `v` holds the text `w`.
pub fn contains_str(v: &Vec<String>, w: &str) -> (r: bool)
    ensures
        r == views_of(v@).contains(w@),
{
    let mut i: usize = 0;
    while i < v.len()
        invariant
            i <= v.len(),
            forall|k: int| 0 <= k < i ==> (#[trigger] v@[k])@ != w@,
        decreases v.len() - i,
    {
        if str_eq(v[i].as_str(), w) {
            proof {
                assert(views_of(v@)[i as int] == w@);
            }
            return true;
        }
        i = i + 1;
    }
    proof {
        if views_of(v@).contains(w@) {
            let k = choose|k: int| 0 <= k < views_of(v@).len() && views_of(v@)[k] == w@;
            assert(v@[k]@ == w@);
        }
    }
    false
}

/// Parse a lemma file: one inflected form per line, followed by its lemmas.
///
/// Deliberately not [`entries`]. That function splits on whitespace, which is right for
/// the wordlist and the stopword list and would turn `mice mouse` here into two unrelated
/// entries.
pub fn lemma_entries(text: &str) -> (r: LemmaTable)
    ensures
        r.wf(),
        r.view() == spec_lemma_entries(text@),
{
    let cs = chars_of(text);
    let lines = split_lines_chars(cs.as_slice());
    let ghost ls = split_lines(text@);
    let mut table = LemmaTable::new();
    let mut i: usize = 0;
    while i < lines.len()
        invariant
            cs@ == text@,
            ls == split_lines(cs@),
            lines@.len() == ls.len(),
            forall|k: int| 0 <= k < lines.len() ==> (#[trigger] lines@[k])@ == ls[k],
            i <= lines.len(),
            table.wf(),
            table.view() == lemma_map_of(ls.take(i as int)),
        decreases lines.len() - i,
    {
        let line = &lines[i];
        proof {
            assert(ls.take(i + 1).drop_last() =~= ls.take(i as int));
            assert(ls.take(i + 1).last() == line@);
        }
        let words = split_ws_chars(line.as_slice());
        let ghost fields = split_ws(line@).map_values(|w: Seq<char>| lowercase(w));
        if !comment_line(line.as_slice()) && words.len() > 0 {
            let first = string_from_chars(words[0].as_slice());
            let infl = str_to_lowercase(first.as_str());
            let ghost m0 = table.view();
            let mut j: usize = 1;
            while j < words.len()
                invariant
                    1 <= j <= words.len(),
                    words@.len() == fields.len(),
                    forall|k: int| 0 <= k < words.len() ==> lowercase((#[trigger] words@[k])@) == fields[k],
                    infl@ == fields[0],
                    table.wf(),
                    table.view() == add_lemmas(m0, fields[0], fields.drop_first().take(j - 1)),
                decreases words.len() - j,
            {
                let w = string_from_chars(words[j].as_slice());
                let l = str_to_lowercase(w.as_str());
                proof {
                    assert(fields.drop_first().take(j as int).drop_last() =~= fields.drop_first().take(j - 1));
                    assert(fields.drop_first().take(j as int).last() == l@);
                }
                table.add(infl.clone(), l);
                j = j + 1;
            }
            proof {
                assert(fields.drop_first().take(words.len() - 1) =~= fields.drop_first());
            }
        }
        i = i + 1;
    }
    proof {
        assert(ls.take(lines.len() as int) =~= ls);
    }
    table
}

// ---------------------------------------------------------------------------------------
// Lookup keys
// ---------------------------------------------------------------------------------------

/// A typographic apostrophe: right single quotation mark, modifier letter apostrophe, or
/// fullwidth apostrophe.
pub open spec fn is_typographic_apostrophe(c: char) -> bool {
    c == '\u{2019}' || c == '\u{02bc}' || c == '\u{ff07}'
}

/// The lookup key with every typographic apostrophe replaced by the ASCII one.
pub open spec fn folded(s: Seq<char>) -> Seq<char> {
    s.map_values(|c: char| if is_typographic_apostrophe(c) { '\'' } else { c })
}

/// An ASCII apostrophe or one of its typographic forms.
pub open spec fn apostrophe_like(c: char) -> bool {
    c == '\'' || is_typographic_apostrophe(c)
}

/// Apostrophe form never decides a lookup: two keys that differ only in which apostrophe
/// they carry fold to the same key, so a typographic apostrophe matches the ASCII entry
/// in every list; and a key with no typographic apostrophe folds to itself, so folding
/// widens no list beyond its own entries.
pub proof fn lemma_apostrophe_form_is_ignored(a: Seq<char>, b: Seq<char>)
    requires
        a.len() == b.len(),
        forall|k: int| 0 <= k < a.len() ==> #[trigger] a[k] == b[k] || (apostrophe_like(a[k]) && apostrophe_like(b[k])),
    ensures
        folded(a) == folded(b),
        (forall|k: int| 0 <= k < a.len() ==> !is_typographic_apostrophe(#[trigger] a[k])) ==> folded(a) == a,
{
    assert(folded(a) =~= folded(b));
    if forall|k: int| 0 <= k < a.len() ==> !is_typographic_apostrophe(#[trigger] a[k]) {
        assert(folded(a) =~= a);
    }
}

/// Normalise apostrophe form in a lookup key.
///
/// A resource file can only carry one spelling of `don't`, and the one it carries is
/// ASCII, while real documents overwhelmingly carry U+2019. Canonicalisation deliberately
/// does not fold it, because U+2019 is also a closing quotation mark and folding it in
/// the *text* would change what offsets resolve to — so the fold happens here, in the
/// key.
pub fn fold_apostrophes(lower: &[char]) -> (r: Vec<char>)
    ensures
        r@ == folded(lower@),
{
    let mut out: Vec<char> = Vec::new();
    let mut i: usize = 0;
    while i < lower.len()
        invariant
            i <= lower.len(),
            out@ =~= folded(lower@.take(i as int)),
        decreases lower.len() - i,
    {
        let c = lower[i];
        if c == '\u{2019}' || c == '\u{02bc}' || c == '\u{ff07}' {
            out.push('\'');
        } else {
            out.push(c);
        }
        proof {
            assert(folded(lower@.take(i + 1)) =~= folded(lower@.take(i as int)).push(
                if is_typographic_apostrophe(c) { '\'' } else { c },
            ));
        }
        i = i + 1;
    }
    proof {
        assert(lower@.take(lower.len() as int) =~= lower@);
    }
    out
}

/// `s` without the suffix `suf`, when it ends with it.
pub open spec fn strip_suffix(s: Seq<char>, suf: Seq<char>) -> Option<Seq<char>> {
    if suf.len() <= s.len() && s.skip(s.len() - suf.len()) == suf {
        Some(s.take(s.len() - suf.len()))
    } else {
        None
    }
}

fn strip_suffix_chars(s: &[char], suf: &[char]) -> (r: Option<Vec<char>>)
    ensures
        match strip_suffix(s@, suf@) {
            None => r is None,
            Some(stem) => r is Some && r->0@ == stem,
        },
{
    if suf.len() > s.len() {
        return None;
    }
    let base = s.len() - suf.len();
    let mut i: usize = 0;
    while i < suf.len()
        invariant
            base + suf.len() == s.len(),
            i <= suf.len(),
            forall|k: int| 0 <= k < i ==> s@[base + k] == suf@[k],
        decreases suf.len() - i,
    {
        if s[base + i] != suf[i] {
            proof {
                assert(s@.skip(base as int)[i as int] != suf@[i as int]);
            }
            return None;
        }
        i = i + 1;
    }
    proof {
        assert(s@.skip(base as int) =~= suf@);
    }
    let mut stem: Vec<char> = Vec::new();
    let mut k: usize = 0;
    while k < base
        invariant
            k <= base <= s.len(),
            stem@ =~= s@.take(k as int),
        decreases base - k,
    {
        stem.push(s[k]);
        proof {
            assert(s@.take(k + 1) =~= s@.take(k as int).push(s@[k as int]));
        }
        k = k + 1;
    }
    Some(stem)
}

/// A doubled final consonant undone: `shipp` to `ship`. `None` when the ending is not a
/// doubled consonant, and for a doubled `s` or `z`, which English words end in of their
/// own accord, so `pass` and `buzz` are left alone.
pub open spec fn spec_undouble(stem: Seq<char>) -> Option<Seq<char>> {
    if stem.len() >= 2 && stem.last() == stem[stem.len() - 2] && is_alpha(stem.last()) && !(
    stem.last() == 'a' || stem.last() == 'e' || stem.last() == 'i' || stem.last() == 'o'
        || stem.last() == 'u' || stem.last() == 's' || stem.last() == 'z') {
        Some(stem.drop_last())
    } else {
        None
    }
}

/// Undo a doubled final consonant: `shipp` -> `ship`, while `pass` is left alone.
pub fn undouble(stem: &[char]) -> (r: Option<Vec<char>>)
    ensures
        match spec_undouble(stem@) {
            None => r is None,
            Some(u) => r is Some && r->0@ == u,
        },
{
    let n = stem.len();
    if n < 2 {
        return None;
    }
    let last = stem[n - 1];
    let previous = stem[n - 2];
    let vowel = last == 'a' || last == 'e' || last == 'i' || last == 'o' || last == 'u';
    let natural = last == 's' || last == 'z';
    if last == previous && char_is_alphabetic(last) && !vowel && !natural {
        let mut out: Vec<char> = Vec::new();
        let mut k: usize = 0;
        while k < n - 1
            invariant
                n == stem.len(),
                k <= n - 1,
                out@ =~= stem@.take(k as int),
            decreases n - 1 - k,
        {
            out.push(stem[k]);
            proof {
                assert(stem@.take(k + 1) =~= stem@.take(k as int).push(stem@[k as int]));
            }
            k = k + 1;
        }
        proof {
            assert(stem@.drop_last() =~= stem@.take(n - 1));
        }
        Some(out)
    } else {
        None
    }
}

/// The one-element sequence of `o`'s value, or nothing.
pub open spec fn opt_seq(o: Option<Seq<char>>) -> Seq<Seq<char>> {
    match o {
        Some(x) => seq![x],
        None => Seq::empty(),
    }
}

/// Candidates from a regular ending `suf`: the stem, the stem with `e` restored when
/// `add_e`, and the stem with a doubled final consonant undone.
pub open spec fn suffix_cands(w: Seq<char>, suf: Seq<char>, add_e: bool) -> Seq<Seq<char>> {
    match strip_suffix(w, suf) {
        None => Seq::empty(),
        Some(stem) => seq![stem] + (if add_e {
            seq![stem.push('e')]
        } else {
            Seq::empty()
        }) + match spec_undouble(stem) {
            Some(u) => seq![u],
            None => Seq::empty(),
        },
    }
}

/// The inflection candidates of a word, in the order they are tried: possessive
/// clitics, then `-ies`, `-es`, `-ed`, `-ing` and `-s`.
pub open spec fn inflection_cands(w: Seq<char>) -> Seq<Seq<char>> {
    opt_seq(strip_suffix(w, seq!['\u{2019}', 's'])) + opt_seq(strip_suffix(w, seq!['\'', 's']))
        + opt_seq(strip_suffix(w, seq!['\u{2019}'])) + opt_seq(strip_suffix(w, seq!['\'']))
        + match strip_suffix(w, "ies"@) {
        Some(stem) => seq![stem.push('y')],
        None => Seq::empty(),
    } + suffix_cands(w, "es"@, true) + suffix_cands(w, "ed"@, true) + suffix_cands(
        w,
        "ing"@,
        true,
    ) + suffix_cands(w, "s"@, false)
}

/// Add a candidate unless it is shorter than two chars or already present.
pub open spec fn push_cand(out: Seq<Seq<char>>, c: Seq<char>) -> Seq<Seq<char>> {
    if c.len() >= 2 && !out.contains(c) {
        out.push(c)
    } else {
        out
    }
}

pub open spec fn push_all(out: Seq<Seq<char>>, cs: Seq<Seq<char>>) -> Seq<Seq<char>>
    decreases cs.len(),
{
    if cs.len() == 0 {
        out
    } else {
        push_cand(push_all(out, cs.drop_last()), cs.last())
    }
}

/// The British `-ise` spelling of a word turned into its `-ize` entry.
pub open spec fn ise_form(w: Seq<char>) -> Option<Seq<char>> {
    match strip_suffix(w, "ise"@) {
        Some(s) => Some(s + "ize"@),
        None => match strip_suffix(w, "isation"@) {
            Some(s) => Some(s + "ization"@),
            None => match strip_suffix(w, "ised"@) {
                Some(s) => Some(s + "ized"@),
                None => match strip_suffix(w, "ising"@) {
                    Some(s) => Some(s + "izing"@),
                    None => None,
                },
            },
        },
    }
}

pub open spec fn ise_forms(ws: Seq<Seq<char>>) -> Seq<Seq<char>>
    decreases ws.len(),
{
    if ws.len() == 0 {
        Seq::empty()
    } else {
        ise_forms(ws.drop_last()) + opt_seq(ise_form(ws.last()))
    }
}

/// The candidate base forms of a lookup key, in order, each at least two chars and none
/// repeated: the inflection reductions, then the `-ize` spellings of the key and of
/// every reduction.
pub open spec fn spec_base_forms(w: Seq<char>) -> Seq<Seq<char>> {
    let out1 = push_all(Seq::empty(), inflection_cands(w));
    push_all(out1, ise_forms(seq![w] + out1))
}

/// The texts of a vector of char vectors.
pub open spec fn char_vecs(v: Seq<Vec<char>>) -> Seq<Seq<char>> {
    v.map_values(|x: Vec<char>| x@)
}

fn chars_eq(a: &[char], b: &[char]) -> (r: bool)
    ensures
        r == (a@ == b@),
{
    if a.len() != b.len() {
        return false;
    }
    let mut i: usize = 0;
    while i < a.len()
        invariant
            a.len() == b.len(),
            i <= a.len(),
            forall|k: int| 0 <= k < i ==> a@[k] == b@[k],
        decreases a.len() - i,
    {
        if a[i] != b[i] {
            return false;
        }
        i = i + 1;
    }
    proof {
        assert(a@ =~= b@);
    }
    true
}

fn push_candidate(out: &mut Vec<Vec<char>>, c: Vec<char>)
    ensures
        char_vecs(final(out)@) == push_cand(char_vecs(old(out)@), c@),
{
    if c.len() < 2 {
        return;
    }
    let mut i: usize = 0;
    while i < out.len()
        invariant
            i <= out.len(),
            forall|k: int| 0 <= k < i ==> (#[trigger] out@[k])@ != c@,
        decreases out.len() - i,
    {
        if chars_eq(out[i].as_slice(), c.as_slice()) {
            proof {
                assert(char_vecs(out@)[i as int] == c@);
            }
            return;
        }
        i = i + 1;
    }
    proof {
        if char_vecs(out@).contains(c@) {
            let k = choose|k: int| 0 <= k < char_vecs(out@).len() && char_vecs(out@)[k] == c@;
            assert(out@[k]@ == c@);
        }
    }
    let ghost before = char_vecs(out@);
    out.push(c);
    proof {
        assert(char_vecs(out@) =~= before.push(c@));
    }
}

fn push_candidates(out: &mut Vec<Vec<char>>, cs: Vec<Vec<char>>)
    ensures
        char_vecs(final(out)@) == push_all(char_vecs(old(out)@), char_vecs(cs@)),
{
    let ghost start = char_vecs(out@);
    let ghost all = char_vecs(cs@);
    let mut i: usize = 0;
    let n = cs.len();
    while i < n
        invariant
            n == all.len(),
            n == cs.len(),
            all == char_vecs(cs@),
            i <= n,
            char_vecs(out@) == push_all(start, all.take(i as int)),
        decreases n - i,
    {
        proof {
            assert(all.take(i + 1).drop_last() =~= all.take(i as int));
        }
        let c = vec_at(&cs, i);
        proof {
            assert(all.take(i + 1).last() == c@);
        }
        push_candidate(out, c);
        i = i + 1;
    }
    proof {
        assert(all.take(n as int) =~= all);
    }
}

fn vec_at(v: &Vec<Vec<char>>, i: usize) -> (r: Vec<char>)
    requires
        i < v.len(),
    ensures
        r@ == v@[i as int]@,
{
    let mut out: Vec<char> = Vec::new();
    let src = &v[i];
    let mut k: usize = 0;
    while k < src.len()
        invariant
            k <= src.len(),
            out@ =~= src@.take(k as int),
        decreases src.len() - k,
    {
        out.push(src[k]);
        proof {
            assert(src@.take(k + 1) =~= src@.take(k as int).push(src@[k as int]));
        }
        k = k + 1;
    }
    proof {
        assert(src@.take(src.len() as int) =~= src@);
    }
    out
}

fn append_opt(cands: &mut Vec<Vec<char>>, o: Option<Vec<char>>, ghost_o: Ghost<Option<Seq<char>>>)
    requires
        match ghost_o@ {
            None => o is None,
            Some(x) => o is Some && o->0@ == x,
        },
    ensures
        char_vecs(final(cands)@) == char_vecs(old(cands)@) + opt_seq(ghost_o@),
{
    let ghost before = char_vecs(cands@);
    match o {
        Some(x) => {
            cands.push(x);
            proof {
                assert(char_vecs(cands@) =~= before + opt_seq(ghost_o@));
            }
        },
        None => {
            proof {
                assert(char_vecs(cands@) =~= before + opt_seq(ghost_o@));
            }
        },
    }
}

fn append_suffix_cands(cands: &mut Vec<Vec<char>>, w: &[char], suf: &str, add_e: bool)
    ensures
        char_vecs(final(cands)@) == char_vecs(old(cands)@) + suffix_cands(w@, suf@, add_e),
{
    let sc = chars_of(suf);
    let ghost before = char_vecs(cands@);
    match strip_suffix_chars(w, sc.as_slice()) {
        None => {
            proof {
                assert(char_vecs(cands@) =~= before + suffix_cands(w@, suf@, add_e));
            }
        },
        Some(stem) => {
            let ghost st = stem@;
            let u = undouble(stem.as_slice());
            let mut with_e = stem.clone();
            with_e.push('e');
            cands.push(stem);
            if add_e {
                cands.push(with_e);
            }
            let ghost mid = char_vecs(cands@);
            append_opt(cands, u, Ghost(spec_undouble(st)));
            proof {
                assert(char_vecs(cands@) =~= before + suffix_cands(w@, suf@, add_e));
            }
        },
    }
}

fn ise_form_chars(w: &[char]) -> (r: Option<Vec<char>>)
    ensures
        match ise_form(w@) {
            None => r is None,
            Some(x) => r is Some && r->0@ == x,
        },
{
    let a = chars_of("ise");
    if let Some(mut stem) = strip_suffix_chars(w, a.as_slice()) {
        append_chars(&mut stem, "ize");
        return Some(stem);
    }
    let b = chars_of("isation");
    if let Some(mut stem) = strip_suffix_chars(w, b.as_slice()) {
        append_chars(&mut stem, "ization");
        return Some(stem);
    }
    let c = chars_of("ised");
    if let Some(mut stem) = strip_suffix_chars(w, c.as_slice()) {
        append_chars(&mut stem, "ized");
        return Some(stem);
    }
    let d = chars_of("ising");
    if let Some(mut stem) = strip_suffix_chars(w, d.as_slice()) {
        append_chars(&mut stem, "izing");
        return Some(stem);
    }
    None
}

/// Append the chars of `t` to `v`.
pub fn append_chars(v: &mut Vec<char>, t: &str)
    ensures
        final(v)@ == old(v)@ + t@,
{
    let tc = chars_of(t);
    let ghost start = v@;
    let mut i: usize = 0;
    while i < tc.len()
        invariant
            i <= tc.len(),
            tc@ == t@,
            v@ =~= start + tc@.take(i as int),
        decreases tc.len() - i,
    {
        v.push(tc[i]);
        proof {
            assert(tc@.take(i + 1) =~= tc@.take(i as int).push(tc@[i as int]));
        }
        i = i + 1;
    }
    proof {
        assert(tc@.take(tc.len() as int) =~= tc@);
    }
}

/// Candidate base forms of a lookup key, for the wordlist lookup only.
///
/// A short, explicit list rather than a stemmer: a stemmer produces non-words
/// (`automat`) that a surface-form list can never match, and its tie-breaking could move
/// the version stamp on an upgrade. What is needed is narrower: undo the handful of
/// regular English endings that separate a token from an entry the list already holds.
///
/// **Only inflections, never derivations.** `-s`, `-ed` and `-ing` make the same word
/// again; `-able` makes a different one, and reducing it would suppress `injectable` and
/// `filterable`, exactly the domain vocabulary this crate exists to find.
pub fn base_forms(lower: &[char]) -> (r: Vec<Vec<char>>)
    ensures
        char_vecs(r@) == spec_base_forms(lower@),
{
    let w = lower;
    let mut cands: Vec<Vec<char>> = Vec::new();
    proof {
        assert(char_vecs(cands@) =~= Seq::<Seq<char>>::empty());
    }
    let c1: [char; 2] = ['\u{2019}', 's'];
    let c2: [char; 2] = ['\'', 's'];
    let c3: [char; 1] = ['\u{2019}'];
    let c4: [char; 1] = ['\''];
    proof {
        assert(c1@ =~= seq!['\u{2019}', 's']);
        assert(c2@ =~= seq!['\'', 's']);
        assert(c3@ =~= seq!['\u{2019}']);
        assert(c4@ =~= seq!['\'']);
    }
    let ghost o1 = opt_seq(strip_suffix(w@, seq!['\u{2019}', 's']));
    let ghost o2 = opt_seq(strip_suffix(w@, seq!['\'', 's']));
    let ghost o3 = opt_seq(strip_suffix(w@, seq!['\u{2019}']));
    let ghost o4 = opt_seq(strip_suffix(w@, seq!['\'']));
    let ghost o5 = match strip_suffix(w@, "ies"@) {
        Some(stem) => seq![stem.push('y')],
        None => Seq::<Seq<char>>::empty(),
    };
    append_opt(&mut cands, strip_suffix_chars(w, c1.as_slice()), Ghost(strip_suffix(w@, c1@)));
    proof {
        assert(char_vecs(cands@) =~= o1);
    }
    append_opt(&mut cands, strip_suffix_chars(w, c2.as_slice()), Ghost(strip_suffix(w@, c2@)));
    append_opt(&mut cands, strip_suffix_chars(w, c3.as_slice()), Ghost(strip_suffix(w@, c3@)));
    append_opt(&mut cands, strip_suffix_chars(w, c4.as_slice()), Ghost(strip_suffix(w@, c4@)));
    proof {
        assert(char_vecs(cands@) == o1 + o2 + o3 + o4);
    }
    let ies = chars_of("ies");
    let ies_stem = strip_suffix_chars(w, ies.as_slice());
    let ies_form = match ies_stem {
        Some(mut stem) => {
            stem.push('y');
            Some(stem)
        },
        None => None,
    };
    let ghost ies_ghost = match strip_suffix(w@, "ies"@) {
        Some(stem) => Some(stem.push('y')),
        None => None,
    };
    append_opt(&mut cands, ies_form, Ghost(ies_ghost));
    proof {
        assert(opt_seq(ies_ghost) =~= o5);
        assert(char_vecs(cands@) == o1 + o2 + o3 + o4 + o5);
    }
    append_suffix_cands(&mut cands, w, "es", true);
    append_suffix_cands(&mut cands, w, "ed", true);
    append_suffix_cands(&mut cands, w, "ing", true);
    append_suffix_cands(&mut cands, w, "s", false);
    proof {
        assert(char_vecs(cands@) == inflection_cands(w@));
    }
    let mut out: Vec<Vec<char>> = Vec::new();
    proof {
        assert(char_vecs(out@) =~= Seq::<Seq<char>>::empty());
    }
    push_candidates(&mut out, cands);
    let ghost out1 = char_vecs(out@);
    let mut ised: Vec<Vec<char>> = Vec::new();
    proof {
        assert(char_vecs(ised@) =~= Seq::<Seq<char>>::empty());
    }
    append_opt(&mut ised, ise_form_chars(w), Ghost(ise_form(w@)));
    proof {
        let one = seq![w@];
        assert(one.drop_last() =~= Seq::<Seq<char>>::empty());
        assert(one.last() == w@);
        assert(ise_forms(one) == ise_forms(one.drop_last()) + opt_seq(ise_form(one.last())));
        assert(char_vecs(ised@) =~= ise_forms(seq![w@]));
        assert((seq![w@] + out1).take(1) =~= seq![w@]);
    }
    let mut i: usize = 0;
    while i < out.len()
        invariant
            i <= out.len(),
            char_vecs(out@) == out1,
            char_vecs(ised@) == ise_forms((seq![w@] + out1).take(i + 1)),
        decreases out.len() - i,
    {
        let ghost all = seq![w@] + out1;
        proof {
            assert(all.take(i + 2).drop_last() =~= all.take(i + 1));
            assert(all.take(i + 2).last() == out@[i as int]@);
        }
        append_opt(&mut ised, ise_form_chars(out[i].as_slice()), Ghost(ise_form(out@[i as int]@)));
        i = i + 1;
    }
    proof {
        assert((seq![w@] + out1).take(out.len() + 1) =~= seq![w@] + out1);
    }
    push_candidates(&mut out, ised);
    out
}

// ---------------------------------------------------------------------------------------
// The resources
// ---------------------------------------------------------------------------------------

/// The embedded frequency-ranked wordlist. This build embeds an empty list: no word is
/// ordinary English and none is frequent until a ranked list is supplied through
/// [`Resources::from_lists`] (the command line's overrides).
pub const DEFAULT_WORDLIST: &'static str = "";

/// The embedded lemma exception list. This build embeds an empty list: irregular forms
/// reduce to nothing until a lemma list is supplied through [`Resources::from_lists`].
pub const DEFAULT_LEMMAS: &'static str = "";

/// The embedded English stopword list: function words, one canonical spelling each,
/// with ASCII apostrophes. Derived from NLTK's English list with the fragments its
/// tokeniser produces (`didn`, `ve`, `s`, …) removed, the contractions written whole,
/// and the modals NLTK omits added.
pub const DEFAULT_STOPWORDS: &'static str = "# English function words, one canonical spelling per entry, ASCII apostrophes.
i me my myself we our ours ourselves you your yours yourself yourselves
he him his himself she her hers herself it its itself they them their theirs themselves
what which who whom this that these those am is are was were be been being
have has had having do does did doing a an the and but if or because as until while
of at by for with about against between into through during before after above below
to from up down in out on off over under again further then once here there when where
why how all any both each few more most other some such no nor not only own same so
than too very can will just now
may might must shall should would could cannot ought
i'm i've i'd i'll you're you've you'd you'll he's he'd he'll she's she'd she'll
it's it'd it'll we're we've we'd we'll they're they've they'd they'll
that's that'll there's here's what's who's let's
don't doesn't didn't isn't aren't wasn't weren't hasn't haven't hadn't
won't wouldn't can't couldn't shan't shouldn't should've mightn't mustn't needn't
";

/// The lowercase words of the first `n` entries.
pub open spec fn first_entries(entries: Seq<Seq<char>>, n: nat) -> Set<Seq<char>> {
    entries.take(n as int).to_set()
}

/// Everything the stages look words up in.
pub struct Resources {
    /// Words at or above the configured frequency rank. Membership means "ordinary".
    common: WordSet,
    /// The first `acronym_wordlist_depth` entries. Membership means "too ordinary for an
    /// all-caps spelling to be an acronym".
    frequent: WordSet,
    stopwords: WordSet,
    /// Irregular inflection to lemma or lemmas: the half of WordNet's morphy algorithm
    /// that [`base_forms`] cannot supply, because irregular inflection is enumeration
    /// rather than rule.
    lemmas: LemmaTable,
    /// How many of the ranked words are active.
    cutoff: usize,
    /// Total available depth, so a config asking for more than exists can be reported.
    depth: usize,
    /// blake3 of the wordlist text.
    pub wordlist_digest: [u8; 32],
    /// blake3 of the stopword list text.
    pub stopwords_digest: [u8; 32],
    /// blake3 of the lemma list text.
    pub lemmas_digest: [u8; 32],
}

impl Resources {
    pub closed spec fn wf(&self) -> bool {
        &&& self.common.wf()
        &&& self.frequent.wf()
        &&& self.stopwords.wf()
        &&& self.lemmas.wf()
        &&& self.cutoff <= self.depth
    }

    /// The words that count as ordinary English.
    pub closed spec fn common_words(&self) -> Set<Seq<char>> {
        self.common.view()
    }

    /// The words too frequent to be acronyms when written in capitals.
    pub closed spec fn frequent_words(&self) -> Set<Seq<char>> {
        self.frequent.view()
    }

    /// The function words.
    pub closed spec fn stopword_set(&self) -> Set<Seq<char>> {
        self.stopwords.view()
    }

    /// Irregular forms and their lemmas.
    pub closed spec fn lemma_table(&self) -> Map<Seq<char>, Seq<Seq<char>>> {
        self.lemmas.view()
    }

    /// The digest of the wordlist text the resources were built from.
    pub closed spec fn wordlist_fingerprint(&self) -> Seq<u8> {
        self.wordlist_digest@
    }

    /// The digest of the stopword list text.
    pub closed spec fn stopwords_fingerprint(&self) -> Seq<u8> {
        self.stopwords_digest@
    }

    /// The digest of the lemma list text.
    pub closed spec fn lemmas_fingerprint(&self) -> Seq<u8> {
        self.lemmas_digest@
    }

    pub closed spec fn spec_cutoff(&self) -> nat {
        self.cutoff as nat
    }

    pub closed spec fn spec_depth(&self) -> nat {
        self.depth as nat
    }

    /// Resources built from the three list texts under `cfg`: the first
    /// `cfg.wordlist_size` wordlist entries are the ordinary words (all of them when the
    /// list is shorter), the first `cfg.acronym_wordlist_depth` the frequent ones.
    ///
    /// A wordlist must be frequency-ranked, most frequent first. A lemma file carries one
    /// inflected form per line followed by its lemmas.
    pub fn from_lists(wordlist: &str, stopwords: &str, lemmas: &str, cfg: &Config) -> (r: Self)
        ensures
            r.wf(),
            r.spec_depth() == spec_entries(wordlist@).len(),
            r.spec_cutoff() == if cfg.wordlist_size <= spec_entries(wordlist@).len() {
                cfg.wordlist_size as nat
            } else {
                spec_entries(wordlist@).len()
            },
            r.common_words() == first_entries(spec_entries(wordlist@), r.spec_cutoff()),
            r.frequent_words() == first_entries(
                spec_entries(wordlist@),
                if cfg.acronym_wordlist_depth <= spec_entries(wordlist@).len() {
                    cfg.acronym_wordlist_depth as nat
                } else {
                    spec_entries(wordlist@).len()
                },
            ),
            r.stopword_set() == spec_entries(stopwords@).to_set(),
            r.lemma_table() == spec_lemma_entries(lemmas@),
            r.wordlist_fingerprint() == blake3_digest(wordlist.spec_bytes()),
            r.stopwords_fingerprint() == blake3_digest(stopwords.spec_bytes()),
            r.lemmas_fingerprint() == blake3_digest(lemmas.spec_bytes()),
    {
        let ranked = entries(wordlist);
        proof {
            assert(views_of(ranked@) =~= spec_entries(wordlist@));
        }
        let depth = ranked.len();
        let cutoff = if cfg.wordlist_size <= depth {
            cfg.wordlist_size
        } else {
            depth
        };
        let acr = if cfg.acronym_wordlist_depth <= depth {
            cfg.acronym_wordlist_depth
        } else {
            depth
        };
        let common = WordSet::new(first_strings(&ranked, cutoff));
        let frequent = WordSet::new(first_strings(&ranked, acr));
        let sw = entries(stopwords);
        proof {
            lemma_texts_of_prefix(sw@, sw.len() as nat);
            assert(sw@.take(sw.len() as int) =~= sw@);
            assert(views_of(sw@) =~= spec_entries(stopwords@));
        }
        let stop = WordSet::new(sw);
        Resources {
            common,
            frequent,
            stopwords: stop,
            lemmas: lemma_entries(lemmas),
            cutoff,
            depth,
            wordlist_digest: blake3_hash(wordlist.as_bytes()),
            stopwords_digest: blake3_hash(stopwords.as_bytes()),
            lemmas_digest: blake3_hash(lemmas.as_bytes()),
        }
    }

    /// Resources with the embedded lists (see [`DEFAULT_WORDLIST`] and [`DEFAULT_LEMMAS`]
    /// for what this build embeds), under `cfg`.
    pub fn for_config(cfg: &Config) -> (r: Self)
        ensures
            r.wf(),
            r.spec_depth() == spec_entries(DEFAULT_WORDLIST@).len(),
            r.spec_cutoff() == if cfg.wordlist_size <= spec_entries(DEFAULT_WORDLIST@).len() {
                cfg.wordlist_size as nat
            } else {
                spec_entries(DEFAULT_WORDLIST@).len()
            },
            r.common_words() == first_entries(spec_entries(DEFAULT_WORDLIST@), r.spec_cutoff()),
            r.frequent_words() == first_entries(
                spec_entries(DEFAULT_WORDLIST@),
                if cfg.acronym_wordlist_depth <= spec_entries(DEFAULT_WORDLIST@).len() {
                    cfg.acronym_wordlist_depth as nat
                } else {
                    spec_entries(DEFAULT_WORDLIST@).len()
                },
            ),
            r.stopword_set() == spec_entries(DEFAULT_STOPWORDS@).to_set(),
            r.lemma_table() == spec_lemma_entries(DEFAULT_LEMMAS@),
            r.wordlist_fingerprint() == blake3_digest(DEFAULT_WORDLIST.spec_bytes()),
            r.stopwords_fingerprint() == blake3_digest(DEFAULT_STOPWORDS.spec_bytes()),
            r.lemmas_fingerprint() == blake3_digest(DEFAULT_LEMMAS.spec_bytes()),
    {
        Self::from_lists(DEFAULT_WORDLIST, DEFAULT_STOPWORDS, DEFAULT_LEMMAS, cfg)
    }

    /// Whether a lowercase token is ordinary English. Absence is a Stage 1 shape signal.
    ///
    /// Lemmatises the key on a miss: the list is one surface form per entry, so without
    /// this every plural, participle and possessive in a document reads as technical
    /// vocabulary. The reduction is applied to the *lookup key* only.
    pub fn is_common_word(&self, lower: &str) -> (r: bool)
        requires
            self.wf(),
        ensures
            r == spec_is_common(self.common_words(), self.lemma_table(), lower@),
    {
        let cs = chars_of(lower);
        let key = fold_apostrophes(cs.as_slice());
        if self.common.contains_chars(key.as_slice()) {
            return true;
        }
        let ks = string_from_chars(key.as_slice());
        let ghost k = key@;
        match self.lemmas.get(ks.as_str()) {
            Some(ls) => {
                let mut i: usize = 0;
                while i < ls.len()
                    invariant
                        self.wf(),
                        i <= ls.len(),
                        k == folded(lower@),
                        self.lemma_table().contains_key(k),
                        views_of(ls@) == self.lemma_table()[k],
                        forall|k: int| 0 <= k < i ==> !self.common_words().contains(#[trigger] views_of(ls@)[k]),
                    decreases ls.len() - i,
                {
                    if self.common.contains(ls[i].as_str()) {
                        proof {
                            assert(views_of(ls@)[i as int] == ls@[i as int]@);
                        }
                        return true;
                    }
                    i = i + 1;
                }
                proof {
                    assert forall|i: int| 0 <= i < self.lemma_table()[k].len() implies !self.common_words().contains(
                        #[trigger] self.lemma_table()[k][i],
                    ) by {
                        assert(views_of(ls@)[i] == self.lemma_table()[k][i]);
                    }
                }
            },
            None => {},
        }
        let bases = base_forms(key.as_slice());
        let mut j: usize = 0;
        while j < bases.len()
            invariant
                self.wf(),
                j <= bases.len(),
                char_vecs(bases@) == spec_base_forms(key@),
                forall|k: int| 0 <= k < j ==> !self.common_words().contains(#[trigger] spec_base_forms(key@)[k]),
                key@ == folded(lower@),
                !self.common_words().contains(key@),
                !(self.lemma_table().contains_key(key@) && exists|i: int|
                    0 <= i < self.lemma_table()[key@].len() && self.common_words().contains(
                        #[trigger] self.lemma_table()[key@][i],
                    )),
            decreases bases.len() - j,
        {
            if self.common.contains_chars(bases[j].as_slice()) {
                proof {
                    assert(char_vecs(bases@)[j as int] == bases@[j as int]@);
                }
                return true;
            }
            proof {
                assert(char_vecs(bases@)[j as int] == bases@[j as int]@);
            }
            j = j + 1;
        }
        false
    }

    /// Whether a lowercase token is among the most frequent words in the list.
    ///
    /// Deliberately an exact lookup with no morphology: widening it would start
    /// suppressing genuine acronyms that happen to reduce to a frequent word.
    pub fn is_frequent_word(&self, lower: &str) -> (r: bool)
        requires
            self.wf(),
        ensures
            r == self.frequent_words().contains(lower@),
    {
        self.frequent.contains(lower)
    }

    /// Whether a lowercase token is an English function word.
    ///
    /// Exact apart from apostrophe form, which is normalised in the lookup key.
    pub fn is_stopword(&self, lower: &str) -> (r: bool)
        requires
            self.wf(),
        ensures
            r == self.stopword_set().contains(folded(lower@)),
    {
        let cs = chars_of(lower);
        let key = fold_apostrophes(cs.as_slice());
        self.stopwords.contains_chars(key.as_slice())
    }

    /// The digest of the wordlist text.
    pub fn wordlist_digest_bytes(&self) -> (r: &[u8; 32])
        ensures
            r@ == self.wordlist_fingerprint(),
    {
        &self.wordlist_digest
    }

    /// The digest of the stopword list text.
    pub fn stopwords_digest_bytes(&self) -> (r: &[u8; 32])
        ensures
            r@ == self.stopwords_fingerprint(),
    {
        &self.stopwords_digest
    }

    /// The digest of the lemma list text.
    pub fn lemmas_digest_bytes(&self) -> (r: &[u8; 32])
        ensures
            r@ == self.lemmas_fingerprint(),
    {
        &self.lemmas_digest
    }

    /// Active cutoff and total depth. A cutoff below the requested size means the config
    /// asked for more words than the list holds.
    pub fn wordlist_extent(&self) -> (r: (usize, usize))
        ensures
            r.0 == self.spec_cutoff(),
            r.1 == self.spec_depth(),
    {
        (self.cutoff, self.depth)
    }
}

impl Default for Resources {
    /// Resources under the default configuration, with the embedded lists (see
    /// [`DEFAULT_WORDLIST`] and [`DEFAULT_LEMMAS`] for what this build embeds).
    fn default() -> (r: Self)
        ensures
            r.wf(),
            r.spec_depth() == spec_entries(DEFAULT_WORDLIST@).len(),
            r.spec_cutoff() == if default_config().wordlist_size <= spec_entries(DEFAULT_WORDLIST@).len() {
                default_config().wordlist_size as nat
            } else {
                spec_entries(DEFAULT_WORDLIST@).len()
            },
            r.common_words() == first_entries(spec_entries(DEFAULT_WORDLIST@), r.spec_cutoff()),
            r.frequent_words() == first_entries(
                spec_entries(DEFAULT_WORDLIST@),
                if default_config().acronym_wordlist_depth <= spec_entries(DEFAULT_WORDLIST@).len() {
                    default_config().acronym_wordlist_depth as nat
                } else {
                    spec_entries(DEFAULT_WORDLIST@).len()
                },
            ),
            r.stopword_set() == spec_entries(DEFAULT_STOPWORDS@).to_set(),
            r.lemma_table() == spec_lemma_entries(DEFAULT_LEMMAS@),
            r.wordlist_fingerprint() == blake3_digest(DEFAULT_WORDLIST.spec_bytes()),
            r.stopwords_fingerprint() == blake3_digest(DEFAULT_STOPWORDS.spec_bytes()),
            r.lemmas_fingerprint() == blake3_digest(DEFAULT_LEMMAS.spec_bytes()),
    {
        Self::for_config(&Config::default())
    }
}

/// Whether a lowercase token counts as ordinary English against the ordinary words and
/// the lemma table: its apostrophe-folded key is an ordinary word, or one of the key's
/// irregular lemmas is, or one of its candidate base forms is.
pub open spec fn spec_is_common(
    common: Set<Seq<char>>,
    lemmas: Map<Seq<char>, Seq<Seq<char>>>,
    lower: Seq<char>,
) -> bool {
    let key = folded(lower);
    ||| common.contains(key)
    ||| (lemmas.contains_key(key) && exists|i: int|
        0 <= i < lemmas[key].len() && common.contains(#[trigger] lemmas[key][i]))
    ||| exists|i: int|
        0 <= i < spec_base_forms(key).len() && common.contains(#[trigger] spec_base_forms(key)[i])
}

/// Raising the wordlist cutoff never makes an ordinary word technical: every word that
/// counts as ordinary under a cutoff still does under a larger one.
pub proof fn lemma_wider_cutoff_keeps_common(
    entries: Seq<Seq<char>>,
    lemmas: Map<Seq<char>, Seq<Seq<char>>>,
    n1: nat,
    n2: nat,
    lower: Seq<char>,
)
    requires
        n1 <= n2 <= entries.len(),
    ensures
        spec_is_common(first_entries(entries, n1), lemmas, lower) ==> spec_is_common(
            first_entries(entries, n2),
            lemmas,
            lower,
        ),
{
    let a = first_entries(entries, n1);
    let b = first_entries(entries, n2);
    assert forall|w: Seq<char>| a.contains(w) implies b.contains(w) by {
        let i = choose|i: int| 0 <= i < entries.take(n1 as int).len() && entries.take(n1 as int)[i] == w;
        assert(entries.take(n2 as int)[i] == w);
    }
}

/// The texts of a string vector's first `n` entries are the first `n` texts as a set.
proof fn lemma_texts_of_prefix(v: Seq<String>, n: nat)
    requires
        n <= v.len(),
    ensures
        texts_of(v.take(n as int)) == views_of(v).take(n as int).to_set(),
{
    let a = texts_of(v.take(n as int));
    let b = views_of(v).take(n as int).to_set();
    assert forall|w: Seq<char>| a.contains(w) implies b.contains(w) by {
        let i = choose|i: int| 0 <= i < v.take(n as int).len() && (#[trigger] v.take(n as int)[i])@ == w;
        assert(views_of(v).take(n as int)[i] == w);
    }
    assert forall|w: Seq<char>| b.contains(w) implies a.contains(w) by {
        let i = choose|i: int| 0 <= i < n && views_of(v).take(n as int)[i] == w;
        assert(v.take(n as int)[i]@ == w);
    }
    assert(a =~= b);
}

/// The first `n` strings of `v`, copied.
fn first_strings(v: &Vec<String>, n: usize) -> (r: Vec<String>)
    requires
        n <= v.len(),
    ensures
        r@.len() == n,
        forall|i: int| 0 <= i < n ==> (#[trigger] r@[i])@ == v@[i]@,
        texts_of(r@) == views_of(v@).take(n as int).to_set(),
{
    let mut out: Vec<String> = Vec::new();
    let mut i: usize = 0;
    while i < n
        invariant
            n <= v.len(),
            i <= n,
            out@.len() == i,
            forall|k: int| 0 <= k < i ==> (#[trigger] out@[k])@ == v@[k]@,
        decreases n - i,
    {
        out.push(v[i].clone());
        i = i + 1;
    }
    proof {
        lemma_texts_of_prefix(out@, n as nat);
        assert(out@.take(n as int) =~= out@);
        assert(views_of(out@) =~= views_of(v@).take(n as int));
    }
    out
}

} // verus!
