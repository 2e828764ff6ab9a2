//! Canonicalisation: raw text to the single canonical form everything else indexes into.
//!
//! Every keyword offset in the system is relative to this function's output, and
//! [`crate::canonicalise`] regenerates it on demand so a caller can resolve offsets. The
//! steps, in order: newline and page-break normalisation, NFKC, email quote and
//! signature stripping, typographic-hyphen and soft-hyphen folding, line-break
//! dehyphenation, whitespace collapse.

use unicode_normalization::UnicodeNormalization;
use vstd::prelude::*;

use crate::config::Config;
use crate::parse::SourceKind;
use crate::render::{squeeze, squeezed};
use crate::text::{
    char_is_alphabetic, char_is_lowercase, char_is_whitespace, chars_of, is_alpha, is_lower, is_ws,
    split_lines, split_lines_chars, string_from_chars,
};
use crate::tokenize::{end_non_ws, first_non_ws, lemma_first_non_ws};

verus! {

// ---------------------------------------------------------------------------------------
// Newlines
// ---------------------------------------------------------------------------------------

/// From position `i` on: `\r\n` and lone `\r` become `\n`, and a form feed (the PDF page
/// separator) becomes `\n` too — a page break is a line break for our purposes.
pub open spec fn newlines_from(s: Seq<char>, i: int) -> Seq<char>
    decreases s.len() - i,
{
    if i < 0 || i >= s.len() {
        Seq::empty()
    } else if s[i] == '\r' && i + 1 < s.len() && s[i + 1] == '\n' {
        seq!['\n'] + newlines_from(s, i + 2)
    } else if s[i] == '\r' || s[i] == '\x0c' {
        seq!['\n'] + newlines_from(s, i + 1)
    } else {
        seq![s[i]] + newlines_from(s, i + 1)
    }
}

pub open spec fn normalised_newlines(s: Seq<char>) -> Seq<char> {
    newlines_from(s, 0)
}

fn normalise_newlines(s: &[char]) -> (r: Vec<char>)
    ensures
        r@ == normalised_newlines(s@),
{
    let mut out: Vec<char> = Vec::new();
    let mut i: usize = 0;
    while i < s.len()
        invariant
            i <= s.len(),
            out@ + newlines_from(s@, i as int) == normalised_newlines(s@),
        decreases s.len() - i,
    {
        let c = s[i];
        if c == '\r' && i + 1 < s.len() && s[i + 1] == '\n' {
            proof {
                assert(out@ + (seq!['\n'] + newlines_from(s@, i + 2)) =~= out@.push('\n') + newlines_from(s@, i + 2));
            }
            out.push('\n');
            i = i + 2;
        } else {
            let d = if c == '\r' || c == '\x0c' {
                '\n'
            } else {
                c
            };
            proof {
                assert(out@ + (seq![d] + newlines_from(s@, i + 1)) =~= out@.push(d) + newlines_from(s@, i + 1));
            }
            out.push(d);
            i = i + 1;
        }
    }
    proof {
        assert(out@ + newlines_from(s@, i as int) =~= out@);
    }
    out
}

// ---------------------------------------------------------------------------------------
// Email quotes and signatures
// ---------------------------------------------------------------------------------------

/// The line with leading whitespace removed.
pub open spec fn trim_start(s: Seq<char>) -> Seq<char> {
    s.skip(first_non_ws(s, 0, s.len() as int))
}

/// The line with surrounding whitespace removed.
pub open spec fn trim(s: Seq<char>) -> Seq<char> {
    let a = first_non_ws(s, 0, s.len() as int);
    s.subrange(a, end_non_ws(s, a, s.len() as int))
}

/// ASCII lowercasing, char by char.
pub open spec fn ascii_lowercase(s: Seq<char>) -> Seq<char> {
    s.map_values(|c: char| if 'A' <= c && c <= 'Z' { (((c as u32) + 32) as u8) as char } else { c })
}

pub open spec fn has_suffix(s: Seq<char>, p: Seq<char>) -> bool {
    p.len() <= s.len() && s.skip(s.len() - p.len()) == p
}

pub open spec fn has_prefix(s: Seq<char>, p: Seq<char>) -> bool {
    p.len() <= s.len() && s.take(p.len() as int) == p
}

pub open spec fn contains_seq(s: Seq<char>, p: Seq<char>) -> bool {
    exists|k: int| 0 <= k <= s.len() - p.len() && #[trigger] s.subrange(k, k + p.len()) == p
}

/// The attribution line a client writes above a quoted block: ends in `wrote:` and opens
/// like an attribution, compared without regard to ASCII case.
pub open spec fn spec_is_attribution(line: Seq<char>) -> bool {
    let lower = ascii_lowercase(trim(line));
    has_suffix(lower, "wrote:"@) && (has_prefix(lower, "on "@) || has_prefix(lower, "at "@)
        || contains_seq(lower, " wrote:"@))
}

/// A signature delimiter: `--` or `-- ` once leading whitespace is removed.
pub open spec fn is_signature_line(t: Seq<char>) -> bool {
    t == "--"@ || t == "-- "@
}

/// The lines kept from `lines`: everything before the first signature delimiter, minus
/// quoted lines and attribution lines.
pub open spec fn kept_lines(lines: Seq<Seq<char>>) -> Seq<Seq<char>>
    decreases lines.len(),
{
    if lines.len() == 0 {
        Seq::empty()
    } else {
        let t = trim_start(lines[0]);
        if is_signature_line(t) {
            Seq::empty()
        } else if (t.len() > 0 && t[0] == '>') || spec_is_attribution(t) {
            kept_lines(lines.drop_first())
        } else {
            seq![lines[0]] + kept_lines(lines.drop_first())
        }
    }
}

/// Lines joined with `\n` between them.
pub open spec fn join_lines(lines: Seq<Seq<char>>) -> Seq<char>
    decreases lines.len(),
{
    if lines.len() == 0 {
        Seq::empty()
    } else if lines.len() == 1 {
        lines[0]
    } else {
        join_lines(lines.drop_last()) + seq!['\n'] + lines.last()
    }
}

/// The text with quoted blocks, their attribution lines and the trailing signature
/// removed.
pub open spec fn stripped_email(s: Seq<char>) -> Seq<char> {
    join_lines(kept_lines(split_lines(s)))
}

/// Whether `s` ends with `p`, char by char.
fn ends_with_chars(s: &[char], p: &str) -> (r: bool)
    ensures
        r == has_suffix(s@, p@),
{
    let pc = chars_of(p);
    if pc.len() > s.len() {
        return false;
    }
    let base = s.len() - pc.len();
    let mut i: usize = 0;
    while i < pc.len()
        invariant
            pc@ == p@,
            base + pc.len() == s.len(),
            i <= pc.len(),
            forall|k: int| 0 <= k < i ==> s@[base + k] == pc@[k],
        decreases pc.len() - i,
    {
        if s[base + i] != pc[i] {
            proof {
                assert(s@.skip(base as int)[i as int] != pc@[i as int]);
            }
            return false;
        }
        i = i + 1;
    }
    proof {
        assert(s@.skip(base as int) =~= pc@);
    }
    true
}

/// Whether `s` holds `p` starting at position `k`.
fn matches_at(s: &[char], k: usize, p: &[char]) -> (r: bool)
    requires
        k + p.len() <= s.len(),
    ensures
        r == (s@.subrange(k as int, k + p.len()) == p@),
{
    let mut i: usize = 0;
    while i < p.len()
        invariant
            k + p.len() <= s.len(),
            i <= p.len(),
            forall|j: int| 0 <= j < i ==> s@[k + j] == p@[j],
        decreases p.len() - i,
    {
        if s[k + i] != p[i] {
            proof {
                assert(s@.subrange(k as int, k + p.len())[i as int] != p@[i as int]);
            }
            return false;
        }
        i = i + 1;
    }
    proof {
        assert(s@.subrange(k as int, k + p.len()) =~= p@);
    }
    true
}

fn contains_chars(s: &[char], p: &str) -> (r: bool)
    ensures
        r == contains_seq(s@, p@),
{
    let pc = chars_of(p);
    if pc.len() > s.len() {
        return false;
    }
    let last = s.len() - pc.len();
    let mut k: usize = 0;
    while k < last
        invariant
            pc@ == p@,
            pc.len() <= s.len(),
            last == s.len() - pc.len(),
            k <= last,
            forall|j: int| 0 <= j < k ==> #[trigger] s@.subrange(j, j + pc.len()) != pc@,
        decreases last - k,
    {
        if matches_at(s, k, pc.as_slice()) {
            return true;
        }
        k = k + 1;
    }
    matches_at(s, last, pc.as_slice())
}

pub(crate) fn trimmed_chars(s: &[char]) -> (r: Vec<char>)
    ensures
        r@ == trim(s@),
{
    let n = s.len();
    let mut a: usize = 0;
    while a < n && char_is_whitespace(s[a])
        invariant
            a <= n,
            n == s.len(),
            first_non_ws(s@, 0, n as int) == first_non_ws(s@, a as int, n as int),
        decreases n - a,
    {
        a = a + 1;
    }
    let mut e: usize = n;
    while e > a && char_is_whitespace(s[e - 1])
        invariant
            a <= e <= n,
            n == s.len(),
            end_non_ws(s@, a as int, n as int) == end_non_ws(s@, a as int, e as int),
        decreases e,
    {
        e = e - 1;
    }
    copy_range(s, a, e)
}

fn trim_start_chars(s: &[char]) -> (r: Vec<char>)
    ensures
        r@ == trim_start(s@),
{
    let n = s.len();
    let mut a: usize = 0;
    while a < n && char_is_whitespace(s[a])
        invariant
            a <= n,
            n == s.len(),
            first_non_ws(s@, 0, n as int) == first_non_ws(s@, a as int, n as int),
        decreases n - a,
    {
        a = a + 1;
    }
    let r = copy_range(s, a, n);
    proof {
        assert(s@.subrange(a as int, n as int) =~= s@.skip(a as int));
    }
    r
}

/// A copy of `s[a..e]`.
pub fn copy_range(s: &[char], a: usize, e: usize) -> (r: Vec<char>)
    requires
        a <= e <= s.len(),
    ensures
        r@ == s@.subrange(a as int, e as int),
{
    let mut out: Vec<char> = Vec::new();
    let mut k: usize = a;
    while k < e
        invariant
            a <= k <= e <= s.len(),
            out@ =~= s@.subrange(a as int, k as int),
        decreases e - k,
    {
        out.push(s[k]);
        proof {
            assert(s@.subrange(a as int, k + 1) =~= s@.subrange(a as int, k as int).push(s@[k as int]));
        }
        k = k + 1;
    }
    out
}

/// Recognise the attribution line a client writes above a quoted block.
///
/// Deliberately narrow: it must both open like an attribution and end in `wrote:`. A
/// looser rule silently eats real sentences, and a missing sentence is invisible.
pub fn is_attribution(line: &[char]) -> (r: bool)
    ensures
        r == spec_is_attribution(line@),
{
    let t = trimmed_chars(line);
    let mut lower: Vec<char> = Vec::new();
    let mut i: usize = 0;
    while i < t.len()
        invariant
            i <= t.len(),
            lower@ =~= ascii_lowercase(t@).take(i as int),
        decreases t.len() - i,
    {
        let c = t[i];
        let d = if 'A' <= c && c <= 'Z' {
            ((c as u32) + 32) as u8 as char
        } else {
            c
        };
        lower.push(d);
        i = i + 1;
    }
    proof {
        assert(ascii_lowercase(t@).take(t.len() as int) =~= ascii_lowercase(t@));
    }
    if !ends_with_chars(lower.as_slice(), "wrote:") {
        return false;
    }
    let on = chars_of("on ");
    let at = chars_of("at ");
    (on.len() <= lower.len() && matches_at(lower.as_slice(), 0, on.as_slice())) || (at.len()
        <= lower.len() && matches_at(lower.as_slice(), 0, at.as_slice())) || contains_chars(
        lower.as_slice(),
        " wrote:",
    )
}

/// The lines of `lines` joined with `\n`, computed.
fn join_with_newlines(lines: &Vec<Vec<char>>) -> (r: Vec<char>)
    ensures
        r@ == join_lines(crate::resources::char_vecs(lines@)),
{
    let ghost ls = crate::resources::char_vecs(lines@);
    let mut out: Vec<char> = Vec::new();
    let mut i: usize = 0;
    proof {
        assert(ls.take(0) =~= Seq::<Seq<char>>::empty());
    }
    while i < lines.len()
        invariant
            ls == crate::resources::char_vecs(lines@),
            i <= lines.len(),
            out@ == join_lines(ls.take(i as int)),
        decreases lines.len() - i,
    {
        let line = &lines[i];
        proof {
            assert(ls.take(i + 1).drop_last() =~= ls.take(i as int));
            assert(ls.take(i + 1).last() == line@);
        }
        if i > 0 {
            out.push('\n');
        } else {
            proof {
                assert(ls.take(1).len() == 1);
                assert(out@ == Seq::<char>::empty());
            }
        }
        let ghost before = out@;
        let mut k: usize = 0;
        while k < line.len()
            invariant
                k <= line.len(),
                out@ =~= before + line@.take(k as int),
            decreases line.len() - k,
        {
            out.push(line[k]);
            proof {
                assert(line@.take(k + 1) =~= line@.take(k as int).push(line@[k as int]));
            }
            k = k + 1;
        }
        proof {
            assert(line@.take(line.len() as int) =~= line@);
            if i == 0 {
                assert(out@ =~= line@);
            }
        }
        i = i + 1;
    }
    proof {
        assert(ls.take(lines.len() as int) =~= ls);
    }
    out
}

/// Remove quoted blocks, their attribution lines, and the trailing signature.
///
/// Mandatory rather than an optimisation: a term appearing once in a forty-message thread
/// otherwise reads as occurring forty times, and every footer reads as ubiquitous — which
/// distorts in-document frequency, the one statistic this corpus-blind crate has.
pub fn strip_quoted_and_signature(text: &[char]) -> (r: Vec<char>)
    ensures
        r@ == stripped_email(text@),
{
    let lines = split_lines_chars(text);
    let ghost ls = split_lines(text@);
    let mut kept: Vec<Vec<char>> = Vec::new();
    let ghost mut acc: Seq<Seq<char>> = Seq::empty();
    let mut i: usize = 0;
    let mut stopped = false;
    proof {
        assert(ls.skip(0) =~= ls);
    }
    while i < lines.len() && !stopped
        invariant
            lines@.len() == ls.len(),
            forall|k: int| 0 <= k < lines.len() ==> (#[trigger] lines@[k])@ == ls[k],
            i <= lines.len(),
            crate::resources::char_vecs(kept@) == acc,
            !stopped ==> kept_lines(ls) == acc + kept_lines(ls.skip(i as int)),
            stopped ==> kept_lines(ls) == acc,
        decreases lines.len() - i, if stopped { 0int } else { 1int },
    {
        let line = &lines[i];
        let t = trim_start_chars(line.as_slice());
        proof {
            assert(ls.skip(i as int)[0] == line@);
            assert(ls.skip(i as int).drop_first() =~= ls.skip(i + 1));
        }
        let dashes = chars_of("--");
        let dashes_space = chars_of("-- ");
        let sig = (t.len() == dashes.len() && matches_at(t.as_slice(), 0, dashes.as_slice())) || (
        t.len() == dashes_space.len() && matches_at(t.as_slice(), 0, dashes_space.as_slice()));
        proof {
            assert(t@.subrange(0, t@.len() as int) =~= t@);
            assert(sig == is_signature_line(t@));
        }
        if sig {
            proof {
                assert(acc + Seq::<Seq<char>>::empty() =~= acc);
            }
            stopped = true;
        } else {
            let quoted = t.len() > 0 && t[0] == '>';
            if !quoted && !is_attribution(t.as_slice()) {
                let ghost l = line@;
                kept.push(copy_range(line.as_slice(), 0, line.len()));
                proof {
                    assert(line@.subrange(0, line.len() as int) =~= line@);
                    assert(crate::resources::char_vecs(kept@) =~= acc.push(l));
                    assert(acc + (seq![l] + kept_lines(ls.skip(i + 1))) =~= acc.push(l) + kept_lines(ls.skip(i + 1)));
                    acc = acc.push(l);
                }
            }
            i = i + 1;
        }
    }
    proof {
        if !stopped {
            assert(ls.skip(i as int).len() == 0);
            assert(acc + Seq::<Seq<char>>::empty() =~= acc);
        }
    }
    join_with_newlines(&kept)
}

// ---------------------------------------------------------------------------------------
// Unicode
// ---------------------------------------------------------------------------------------

/// The NFKC normal form of a text (Unicode Standard Annex #15).
pub uninterp spec fn nfkc_form(s: Seq<char>) -> Seq<char>;

/// `UnicodeNormalization::nfkc` collected into a string: the NFKC normal form. Unicode
/// normalisation is idempotent, so the result is its own normal form.
#[verifier::external_body]
fn nfkc(s: &str) -> (r: String)
    ensures
        r@ == nfkc_form(s@),
        nfkc_form(r@) == r@,
{
    s.nfkc().collect()
}

/// One char after NFKC: the hyphens lexically identical to ASCII `-` become `-`, and the
/// non-breaking spaces become ordinary spaces.
pub open spec fn fold_char(c: char) -> char {
    if c == '\u{2010}' || c == '\u{2011}' {
        '-'
    } else if c == '\u{00a0}' || c == '\u{2007}' || c == '\u{202f}' {
        ' '
    } else {
        c
    }
}

/// The chars of `n` with soft hyphens dropped and the rest folded.
pub open spec fn folded_unicode(n: Seq<char>) -> Seq<char>
    decreases n.len(),
{
    if n.len() == 0 {
        Seq::empty()
    } else {
        folded_unicode(n.drop_last()) + if n.last() == '\u{00ad}' {
            Seq::empty()
        } else {
            seq![fold_char(n.last())]
        }
    }
}

/// NFKC, then fold the typographic hyphens that are lexically identical to ASCII.
///
/// Only true hyphens are folded. En and em dashes are punctuation between words, not
/// parts of tokens, and folding them would splice unrelated words into false compounds.
/// The soft hyphen is a rendering hint with no lexical content; left in place it would
/// split `DS-2291` from `DS\u{ad}-2291` invisibly.
pub fn normalise_unicode(text: &str) -> (r: Vec<char>)
    ensures
        r@ == folded_unicode(nfkc_form(text@)),
{
    let n = nfkc(text);
    let cs = chars_of(n.as_str());
    fold_chars(cs.as_slice())
}

/// Fold the typographic hyphens and exotic spaces, and drop soft hyphens.
pub fn fold_chars(cs: &[char]) -> (r: Vec<char>)
    ensures
        r@ == folded_unicode(cs@),
{
    let mut out: Vec<char> = Vec::new();
    let mut i: usize = 0;
    while i < cs.len()
        invariant
            i <= cs.len(),
            out@ == folded_unicode(cs@.take(i as int)),
        decreases cs.len() - i,
    {
        let c = cs[i];
        proof {
            assert(cs@.take(i + 1).drop_last() =~= cs@.take(i as int));
        }
        if c != '\u{00ad}' {
            let d = if c == '\u{2010}' || c == '\u{2011}' {
                '-'
            } else if c == '\u{00a0}' || c == '\u{2007}' || c == '\u{202f}' {
                ' '
            } else {
                c
            };
            out.push(d);
        } else {
            proof {
                assert(out@ + Seq::<char>::empty() =~= out@);
            }
        }
        i = i + 1;
    }
    proof {
        assert(cs@.take(cs.len() as int) =~= cs@);
    }
    out
}

// ---------------------------------------------------------------------------------------
// Dehyphenation
// ---------------------------------------------------------------------------------------

/// The line with trailing whitespace removed.
pub open spec fn trim_end(s: Seq<char>) -> Seq<char> {
    s.take(end_non_ws(s, 0, s.len() as int))
}

/// Whether a line ending in a hyphen joins the next: once trailing whitespace is removed
/// it ends in `-` right after a letter, and the next line, leading whitespace removed,
/// starts with a lowercase letter. (The letter before the hyphen is checked not to be
/// whitespace, and the next line's first char not to be a hyphen itself; Unicode makes
/// both checks redundant, and stating them keeps the rule's proofs free of Unicode
/// tables.)
pub open spec fn joins_next(line: Seq<char>, next: Seq<char>) -> bool {
    let t = trim_end(line);
    let f = first_non_ws(next, 0, next.len() as int);
    &&& t.len() >= 2
    &&& t.last() == '-'
    &&& is_alpha(t[t.len() - 2])
    &&& !is_ws(t[t.len() - 2])
    &&& f < next.len()
    &&& is_lower(next[f])
    &&& next[f] != '-'
}

/// Where a line's text starts: after its leading whitespace when it continues a word
/// split at the end of the line before it, at its first char otherwise.
pub open spec fn line_start(line: Seq<char>, lead: bool) -> int {
    if lead {
        first_non_ws(line, 0, line.len() as int)
    } else {
        0
    }
}

/// A joining line's contribution: from where it starts up to, not including, the hyphen.
/// (A joining line has a letter before its hyphen, so it starts before the hyphen.)
pub open spec fn joined_piece(line: Seq<char>, lead: bool) -> Seq<char> {
    let stop = end_non_ws(line, 0, line.len() as int) - 1;
    let st = line_start(line, lead);
    line.subrange(if st <= stop { st } else { stop }, stop)
}

/// The dehyphenated text of lines `i..`, where `lead` says line `i` continues a word
/// split at the end of line `i - 1`: a line that joins the next loses its hyphen and its
/// line break, and the line it joins loses its leading whitespace; every other line keeps
/// its break to the next.
pub open spec fn dehyphenated_from(ls: Seq<Seq<char>>, i: int, lead: bool) -> Seq<char>
    decreases ls.len() - i,
{
    if i < 0 || i >= ls.len() {
        Seq::empty()
    } else if i + 1 < ls.len() && joins_next(ls[i], ls[i + 1]) {
        joined_piece(ls[i], lead) + dehyphenated_from(ls, i + 1, true)
    } else if i + 1 < ls.len() {
        ls[i].skip(line_start(ls[i], lead)) + seq!['\n'] + dehyphenated_from(ls, i + 1, false)
    } else {
        ls[i].skip(line_start(ls[i], lead))
    }
}

pub open spec fn dehyphenated(s: Seq<char>) -> Seq<char> {
    dehyphenated_from(split_lines(s), 0, false)
}

fn line_joins(line: &[char], next: &[char]) -> (r: bool)
    ensures
        r == joins_next(line@, next@),
{
    let mut e: usize = line.len();
    while e > 0 && char_is_whitespace(line[e - 1])
        invariant
            e <= line.len(),
            end_non_ws(line@, 0, line.len() as int) == end_non_ws(line@, 0, e as int),
        decreases e,
    {
        e = e - 1;
    }
    let mut f: usize = 0;
    while f < next.len() && char_is_whitespace(next[f])
        invariant
            f <= next.len(),
            first_non_ws(next@, 0, next.len() as int) == first_non_ws(next@, f as int, next.len() as int),
        decreases next.len() - f,
    {
        f = f + 1;
    }
    proof {
        crate::tokenize::lemma_end_non_ws(line@, 0, e as int);
    }
    e >= 2 && line[e - 1] == '-' && char_is_alphabetic(line[e - 2]) && !char_is_whitespace(line[e - 2])
        && f < next.len() && char_is_lowercase(next[f]) && next[f] != '-'
}

/// Rejoin words split across a line break by justification.
///
/// Only joins when the next line starts lowercase. `MabSelect SuRe-\nCapto` is a genuine
/// hyphenated pair, not a split word, and joining it would fabricate a token that appears
/// nowhere in the document.
pub fn dehyphenate_line_breaks(text: &[char]) -> (r: Vec<char>)
    ensures
        r@ == dehyphenated(text@),
{
    let lines = split_lines_chars(text);
    let ghost ls = split_lines(text@);
    let mut out: Vec<char> = Vec::new();
    let mut lead = false;
    let mut i: usize = 0;
    while i < lines.len()
        invariant
            lines@.len() == ls.len(),
            forall|k: int| 0 <= k < lines.len() ==> (#[trigger] lines@[k])@ == ls[k],
            i <= lines.len(),
            out@ + dehyphenated_from(ls, i as int, lead) == dehyphenated_from(ls, 0, false),
        decreases lines.len() - i,
    {
        let line = &lines[i];
        let mut st: usize = 0;
        if lead {
            while st < line.len() && char_is_whitespace(line[st])
                invariant
                    st <= line.len(),
                    first_non_ws(line@, 0, line.len() as int) == first_non_ws(line@, st as int, line.len() as int),
                decreases line.len() - st,
            {
                st = st + 1;
            }
        }
        proof {
            lemma_first_non_ws(line@, 0, line.len() as int);
            assert(st == line_start(ls[i as int], lead));
        }
        let has_next = i + 1 < lines.len();
        if has_next && line_joins(line.as_slice(), lines[i + 1].as_slice()) {
            let mut e: usize = line.len();
            while e > 0 && char_is_whitespace(line[e - 1])
                invariant
                    e <= line.len(),
                    end_non_ws(line@, 0, line.len() as int) == end_non_ws(line@, 0, e as int),
                decreases e,
            {
                e = e - 1;
            }
            proof {
                crate::tokenize::lemma_end_non_ws(line@, 0, line.len() as int);
            }
            let from = if st <= e - 1 {
                st
            } else {
                e - 1
            };
            let piece = copy_range(line.as_slice(), from, e - 1);
            proof {
                assert(piece@ =~= joined_piece(ls[i as int], lead));
                assert(out@ + (piece@ + dehyphenated_from(ls, i + 1, true)) =~= (out@ + piece@) + dehyphenated_from(ls, i + 1, true));
            }
            append_all(&mut out, piece.as_slice());
            lead = true;
        } else {
            let ghost before = out@;
            let rest = copy_range(line.as_slice(), st, line.len());
            proof {
                assert(rest@ =~= ls[i as int].skip(st as int));
            }
            append_all(&mut out, rest.as_slice());
            if has_next {
                out.push('\n');
                proof {
                    assert(before + (rest@ + seq!['\n'] + dehyphenated_from(ls, i + 1, false)) =~= out@ + dehyphenated_from(ls, i + 1, false));
                }
            } else {
                proof {
                    assert(dehyphenated_from(ls, i + 1, false) =~= Seq::<char>::empty());
                    assert(out@ + Seq::<char>::empty() =~= out@);
                }
            }
            lead = false;
        }
        i = i + 1;
    }
    proof {
        assert(out@ + dehyphenated_from(ls, i as int, lead) =~= out@);
    }
    out
}

/// Append all of `src` to `out`.
pub fn append_all(out: &mut Vec<char>, src: &[char])
    ensures
        final(out)@ == old(out)@ + src@,
{
    let ghost start = out@;
    let mut k: usize = 0;
    while k < src.len()
        invariant
            k <= src.len(),
            out@ =~= start + src@.take(k as int),
        decreases src.len() - k,
    {
        out.push(src[k]);
        proof {
            assert(src@.take(k + 1) =~= src@.take(k as int).push(src@[k as int]));
        }
        k = k + 1;
    }
    proof {
        assert(src@.take(src.len() as int) =~= src@);
    }
}

// ---------------------------------------------------------------------------------------
// Whitespace
// ---------------------------------------------------------------------------------------

/// The collapsed text of lines `i..`, given the output so far and how many blank lines
/// precede line `i`: each line's words joined by single spaces, blank lines dropped, and
/// one blank line kept wherever at least one separated two kept lines.
pub open spec fn collapse_from(ls: Seq<Seq<char>>, i: int, out: Seq<char>, blank: nat) -> Seq<char>
    decreases ls.len() - i,
{
    if i < 0 || i >= ls.len() {
        out
    } else {
        let c = squeezed(ls[i]);
        if c.len() == 0 {
            collapse_from(ls, i + 1, out, blank + 1)
        } else {
            let sep = if out.len() == 0 {
                Seq::empty()
            } else if blank > 0 {
                seq!['\n', '\n']
            } else {
                seq!['\n']
            };
            collapse_from(ls, i + 1, out + sep + c, 0)
        }
    }
}

pub open spec fn collapsed(s: Seq<char>) -> Seq<char> {
    collapse_from(split_lines(s), 0, Seq::empty(), 0)
}

/// Collapse horizontal runs to one space and vertical runs to one blank line, then trim.
///
/// Paragraph boundaries survive because the prose heuristic and the Schwartz–Hearst pass
/// both need sentence and block structure to mean something.
pub fn collapse_whitespace(text: &[char]) -> (r: Vec<char>)
    ensures
        r@ == collapsed(text@),
{
    let lines = split_lines_chars(text);
    let ghost ls = split_lines(text@);
    let mut out: Vec<char> = Vec::new();
    let mut blank: usize = 0;
    let mut i: usize = 0;
    while i < lines.len()
        invariant
            lines@.len() == ls.len(),
            forall|k: int| 0 <= k < lines.len() ==> (#[trigger] lines@[k])@ == ls[k],
            i <= lines.len(),
            blank <= i,
            collapse_from(ls, i as int, out@, blank as nat) == collapsed(text@),
        decreases lines.len() - i,
    {
        let c = squeeze(lines[i].as_slice());
        let ghost old_out = out@;
        if c.len() == 0 {
            blank = blank + 1;
        } else {
            let ghost sep = if out@.len() == 0 {
                Seq::<char>::empty()
            } else if blank > 0 {
                seq!['\n', '\n']
            } else {
                seq!['\n']
            };
            if out.len() > 0 {
                out.push('\n');
                if blank > 0 {
                    out.push('\n');
                }
            }
            proof {
                assert(out@ =~= old_out + sep);
            }
            append_all(&mut out, c.as_slice());
            blank = 0;
        }
        i = i + 1;
    }
    out
}

// ---------------------------------------------------------------------------------------
// The whole
// ---------------------------------------------------------------------------------------

/// The canonical form of raw text from a `source` document.
pub open spec fn canonical_form(raw: Seq<char>, source: SourceKind, strip_quoted: bool) -> Seq<char> {
    let n = nfkc_form(normalised_newlines(raw));
    let t = if source == SourceKind::Email && strip_quoted {
        stripped_email(n)
    } else {
        n
    };
    collapsed(dehyphenated(folded_unicode(t)))
}

/// The canonical text: newlines normalised, NFKC, email quotes and signatures stripped
/// when configured, typographic-hyphen and soft-hyphen folding, line-break
/// dehyphenation, whitespace collapse. NFKC comes before stripping, so a compatibility
/// form of `>` marks a quote as `>` itself does.
pub fn canonicalise(raw: &str, source: SourceKind, cfg: &Config) -> (r: String)
    ensures
        r@ == canonical_form(raw@, source, cfg.strip_quoted_blocks),
{
    let cs = chars_of(raw);
    let t1 = normalise_newlines(cs.as_slice());
    let s1 = string_from_chars(t1.as_slice());
    let n = nfkc(s1.as_str());
    let nc = chars_of(n.as_str());
    let t2 = if source == SourceKind::Email && cfg.strip_quoted_blocks {
        strip_quoted_and_signature(nc.as_slice())
    } else {
        nc
    };
    let t3 = fold_chars(t2.as_slice());
    let t4 = dehyphenate_line_breaks(t3.as_slice());
    let t5 = collapse_whitespace(t4.as_slice());
    string_from_chars(t5.as_slice())
}

} // verus!
