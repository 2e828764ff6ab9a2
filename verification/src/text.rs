//! Character classification and UTF-8 bookkeeping shared by every stage.
//!
//! Text is walked as a sequence of `char`s, while every offset the library reports is a
//! byte offset into the UTF-8 text. [`utf8_len`] ties the two together through vstd's
//! own UTF-8 encoder, so a byte offset here means exactly what `str` slicing means.

use vstd::prelude::*;
use vstd::utf8::*;

verus! {

/// Unicode `White_Space`, as `char::is_whitespace` reports it: tab through carriage
/// return, space, next line, no-break space, ogham space mark, en quad through hair
/// space, line and paragraph separators, narrow no-break space, medium mathematical space
/// and ideographic space.
pub open spec fn is_ws(c: char) -> bool {
    let v = c as u32;
    ||| 0x09 <= v <= 0x0d
    ||| v == 0x20
    ||| v == 0x85
    ||| v == 0xa0
    ||| v == 0x1680
    ||| 0x2000 <= v <= 0x200a
    ||| v == 0x2028
    ||| v == 0x2029
    ||| v == 0x202f
    ||| v == 0x205f
    ||| v == 0x3000
}

/// `Alphabetic` or `Numeric`, as `char::is_alphanumeric` reports it.
pub uninterp spec fn is_alnum(c: char) -> bool;

/// Unicode `Alphabetic`, as `char::is_alphabetic` reports it.
pub uninterp spec fn is_alpha(c: char) -> bool;

/// Unicode `Uppercase`, as `char::is_uppercase` reports it.
pub uninterp spec fn is_upper(c: char) -> bool;

/// Unicode `Lowercase`, as `char::is_lowercase` reports it.
pub uninterp spec fn is_lower(c: char) -> bool;

/// Full Unicode lowercasing of a string, as `str::to_lowercase` performs it.
pub uninterp spec fn lowercase(s: Seq<char>) -> Seq<char>;

/// Whether `c` has the Unicode `White_Space` property, as `char::is_whitespace` decides.
pub fn char_is_whitespace(c: char) -> (r: bool)
    ensures
        r == is_ws(c),
{
    let v = c as u32;
    (0x09 <= v && v <= 0x0d) || v == 0x20 || v == 0x85 || v == 0xa0 || v == 0x1680 || (0x2000 <= v && v <= 0x200a)
        || v == 0x2028 || v == 0x2029 || v == 0x202f || v == 0x205f || v == 0x3000
}

/// `char::is_alphanumeric`: `Alphabetic` or `Numeric`. Its documentation defines it as
/// `is_alphabetic() || is_numeric()`, so every alphabetic character is alphanumeric.
#[verifier::external_body]
pub fn char_is_alphanumeric(c: char) -> (r: bool)
    ensures
        r == is_alnum(c),
        is_alpha(c) ==> r,
{
    c.is_alphanumeric()
}

/// `char::is_alphabetic`: whether `c` has the Unicode `Alphabetic` property.
#[verifier::external_body]
pub fn char_is_alphabetic(c: char) -> (r: bool)
    ensures
        r == is_alpha(c),
{
    c.is_alphabetic()
}

/// `char::is_uppercase`: whether `c` has the Unicode `Uppercase` property.
#[verifier::external_body]
pub fn char_is_uppercase(c: char) -> (r: bool)
    ensures
        r == is_upper(c),
{
    c.is_uppercase()
}

/// `char::is_lowercase`: whether `c` has the Unicode `Lowercase` property.
#[verifier::external_body]
pub fn char_is_lowercase(c: char) -> (r: bool)
    ensures
        r == is_lower(c),
{
    c.is_lowercase()
}

/// `str::to_lowercase`: the full Unicode lowercase mapping of the whole string.
#[verifier::external_body]
pub fn str_to_lowercase(s: &str) -> (r: String)
    ensures
        r@ == lowercase(s@),
{
    s.to_lowercase()
}

/// `String::from_iter` over chars: a string holding exactly these characters.
#[verifier::external_body]
pub fn string_from_chars(cs: &[char]) -> (r: String)
    ensures
        r@ == cs@,
{
    String::from_iter(cs.iter())
}

/// ASCII decimal digit, as `char::is_ascii_digit` defines it.
pub open spec fn is_digit(c: char) -> bool {
    '0' <= c && c <= '9'
}

pub fn char_is_ascii_digit(c: char) -> (r: bool)
    ensures
        r == is_digit(c),
{
    '0' <= c && c <= '9'
}

/// Number of bytes `c` occupies in UTF-8.
pub open spec fn utf8_width(c: char) -> nat {
    let v = c as u32;
    if v < 0x80 {
        1
    } else if v < 0x800 {
        2
    } else if v < 0x10000 {
        3
    } else {
        4
    }
}

/// Byte length of the UTF-8 encoding of `s`.
pub open spec fn utf8_len(s: Seq<char>) -> nat {
    encode_utf8(s).len()
}

/// Byte offset of the char at index `i` of `s`.
pub open spec fn byte_at(s: Seq<char>, i: int) -> nat {
    utf8_len(s.take(i))
}

/// `char::len_utf8`.
pub fn char_width(c: char) -> (w: usize)
    ensures
        w == utf8_width(c),
        1 <= w <= 4,
{
    let v = c as u32;
    if v < 0x80 {
        1
    } else if v < 0x800 {
        2
    } else if v < 0x10000 {
        3
    } else {
        4
    }
}

pub proof fn lemma_scalar_width(c: char)
    ensures
        encode_scalar(c as u32).len() == utf8_width(c),
{
    char_is_scalar(c);
}

/// Appending a char grows the encoding by that char's width.
pub proof fn lemma_utf8_len_push(s: Seq<char>, c: char)
    ensures
        utf8_len(s.push(c)) == utf8_len(s) + utf8_width(c),
    decreases s.len(),
{
    lemma_scalar_width(c);
    let e = Seq::<char>::empty();
    assert(encode_utf8(e).len() == 0);
    if s.len() == 0 {
        assert(s.push(c).drop_first() =~= e);
        assert(s.push(c)[0] == c);
        assert(encode_utf8(s.push(c)) == encode_scalar(c as u32) + encode_utf8(e));
    } else {
        assert(s.push(c).drop_first() =~= s.drop_first().push(c));
        assert(s.push(c)[0] == s[0]);
        lemma_utf8_len_push(s.drop_first(), c);
        assert(encode_utf8(s.push(c)) == encode_scalar(s[0] as u32) + encode_utf8(s.drop_first().push(c)));
        assert(encode_utf8(s) == encode_scalar(s[0] as u32) + encode_utf8(s.drop_first()));
    }
}

/// The encoding of a concatenation is as long as both encodings together.
pub proof fn lemma_utf8_len_add(a: Seq<char>, b: Seq<char>)
    ensures
        utf8_len(a + b) == utf8_len(a) + utf8_len(b),
    decreases b.len(),
{
    if b.len() == 0 {
        assert(a + b =~= a);
        assert(encode_utf8(b) =~= Seq::<u8>::empty());
    } else {
        let bl = b.drop_last();
        let c = b.last();
        assert(a + b =~= (a + bl).push(c));
        assert(b =~= bl.push(c));
        lemma_utf8_len_add(a, bl);
        lemma_utf8_len_push(a + bl, c);
        lemma_utf8_len_push(bl, c);
    }
}

/// Every char takes at least one byte.
pub proof fn lemma_len_le_utf8_len(s: Seq<char>)
    ensures
        s.len() <= utf8_len(s),
    decreases s.len(),
{
    if s.len() == 0 {
        assert(encode_utf8(s).len() == 0);
    } else {
        assert(s =~= s.drop_last().push(s.last()));
        lemma_len_le_utf8_len(s.drop_last());
        lemma_utf8_len_push(s.drop_last(), s.last());
    }
}

/// Byte offsets grow with char offsets.
pub proof fn lemma_byte_at_mono(s: Seq<char>, i: int, j: int)
    requires
        0 <= i <= j <= s.len(),
    ensures
        byte_at(s, i) <= byte_at(s, j),
{
    assert(s.take(j) =~= s.take(i) + s.subrange(i, j));
    lemma_utf8_len_add(s.take(i), s.subrange(i, j));
}

/// Byte length of a char range is the difference of the byte offsets of its ends.
pub proof fn lemma_utf8_len_subrange(s: Seq<char>, a: int, b: int)
    requires
        0 <= a <= b <= s.len(),
    ensures
        utf8_len(s.subrange(a, b)) == byte_at(s, b) - byte_at(s, a),
{
    assert(s.take(b) =~= s.take(a) + s.subrange(a, b));
    lemma_utf8_len_add(s.take(a), s.subrange(a, b));
}

/// The chars of a string, in order.
pub fn chars_of(s: &str) -> (v: Vec<char>)
    ensures
        v@ == s@,
{
    let mut v: Vec<char> = Vec::new();
    for c in it: s.chars()
        invariant
            it.seq() == s@,
            v@ == it.seq().take(it.index() as int),
    {
        v.push(c);
        proof {
            assert(it.seq().take(it.index() + 1) =~= it.seq().take(it.index() as int).push(c));
        }
    }
    v
}

/// Byte offset of every char boundary of `s`: `offs[k]` is where char `k` starts, and
/// `offs[s.len()]` is the byte length of the whole text.
pub fn byte_offsets(s: &[char]) -> (offs: Vec<usize>)
    requires
        utf8_len(s@) <= usize::MAX,
    ensures
        offs.len() == s.len() + 1,
        forall|k: int| 0 <= k <= s.len() ==> offs[k] == byte_at(s@, k),
{
    let mut offs: Vec<usize> = Vec::new();
    let mut b: usize = 0;
    let mut k: usize = 0;
    proof {
        assert(s@.take(0) =~= Seq::<char>::empty());
        assert(encode_utf8(Seq::<char>::empty()).len() == 0);
    }
    while k < s.len()
        invariant
            k <= s.len(),
            utf8_len(s@) <= usize::MAX,
            offs.len() == k,
            b == byte_at(s@, k as int),
            forall|j: int| 0 <= j < k ==> offs[j] == byte_at(s@, j),
        decreases s.len() - k,
    {
        offs.push(b);
        let w = char_width(s[k]);
        proof {
            assert(s@.take(k + 1) =~= s@.take(k as int).push(s@[k as int]));
            lemma_utf8_len_push(s@.take(k as int), s@[k as int]);
            lemma_byte_at_mono(s@, k + 1, s.len() as int);
            assert(s@.take(s.len() as int) =~= s@);
        }
        b = b + w;
        k = k + 1;
    }
    offs.push(b);
    offs
}

/// `&s[start..end]`, where the byte offsets `start` and `end` are where chars `cs` and
/// `ce` begin: the slice holds exactly those chars.
#[verifier::external_body]
pub fn str_slice<'a>(s: &'a str, start: usize, end: usize, _cs: usize, _ce: usize) -> (r: &'a str)
    requires
        _cs <= _ce <= s@.len(),
        start == byte_at(s@, _cs as int),
        end == byte_at(s@, _ce as int),
    ensures
        r@ == s@.subrange(_cs as int, _ce as int),
{
    &s[start..end]
}

} // verus!

verus! {

/// The pieces of `s` between `'\n'` separators, from position `start` on: a text with
/// `k` newlines has `k + 1` pieces, the last of them possibly empty.
pub open spec fn lines_from(s: Seq<char>, start: int) -> Seq<Seq<char>>
    decreases s.len() - start,
{
    if start < 0 || start > s.len() {
        Seq::empty()
    } else {
        let e = newline_at_or_after(s, start);
        proof {
            lemma_newline_at_or_after(s, start);
        }
        if e >= s.len() {
            seq![s.subrange(start, s.len() as int)]
        } else {
            seq![s.subrange(start, e)] + lines_from(s, e + 1)
        }
    }
}

/// The first `'\n'` at or after `k`, or the end of `s`.
pub open spec fn newline_at_or_after(s: Seq<char>, k: int) -> int
    decreases s.len() - k,
{
    if k < 0 || k >= s.len() {
        s.len() as int
    } else if s[k] == '\n' {
        k
    } else {
        newline_at_or_after(s, k + 1)
    }
}

pub proof fn lemma_newline_at_or_after(s: Seq<char>, k: int)
    requires
        0 <= k <= s.len(),
    ensures
        k <= newline_at_or_after(s, k) <= s.len(),
        forall|j: int| k <= j < newline_at_or_after(s, k) ==> s[j] != '\n',
        newline_at_or_after(s, k) < s.len() ==> s[newline_at_or_after(s, k)] == '\n',
    decreases s.len() - k,
{
    if k < s.len() && s[k] != '\n' {
        lemma_newline_at_or_after(s, k + 1);
    }
}

/// The pieces of `s` between newlines — what `str::split('\n')` yields.
pub open spec fn split_lines(s: Seq<char>) -> Seq<Seq<char>> {
    lines_from(s, 0)
}

/// `split('\n')` over chars.
pub fn split_lines_chars(s: &[char]) -> (out: Vec<Vec<char>>)
    ensures
        out@.len() == split_lines(s@).len(),
        forall|i: int| 0 <= i < out.len() ==> (#[trigger] out@[i])@ == split_lines(s@)[i],
{
    let mut out: Vec<Vec<char>> = Vec::new();
    let ghost mut acc: Seq<Seq<char>> = Seq::empty();
    let mut start: usize = 0;
    let mut done = false;
    while !done
        invariant
            start <= s.len(),
            !done ==> split_lines(s@) == acc + lines_from(s@, start as int),
            done ==> split_lines(s@) == acc,
            out.len() == acc.len(),
            forall|i: int| 0 <= i < out.len() ==> (#[trigger] out@[i])@ == acc[i],
        decreases s.len() - start, if done { 0int } else { 1int },
    {
        let mut e = start;
        let mut line: Vec<char> = Vec::new();
        while e < s.len() && s[e] != '\n'
            invariant
                start <= e <= s.len(),
                newline_at_or_after(s@, start as int) == newline_at_or_after(s@, e as int),
                line@ == s@.subrange(start as int, e as int),
            decreases s.len() - e,
        {
            line.push(s[e]);
            proof {
                assert(s@.subrange(start as int, e + 1) =~= s@.subrange(start as int, e as int).push(s@[e as int]));
            }
            e = e + 1;
        }
        proof {
            lemma_newline_at_or_after(s@, start as int);
            let piece = s@.subrange(start as int, e as int);
            if e >= s.len() {
                assert(lines_from(s@, start as int) == seq![piece]);
            } else {
                assert(lines_from(s@, start as int) == seq![piece] + lines_from(s@, e + 1));
            }
            assert(acc + (seq![piece] + lines_from(s@, e + 1)) =~= acc.push(piece) + lines_from(s@, e + 1));
            assert(acc + seq![piece] =~= acc.push(piece));
            acc = acc.push(piece);
        }
        out.push(line);
        if e >= s.len() {
            done = true;
        } else {
            start = e + 1;
        }
    }
    out
}

/// The maximal runs of non-whitespace chars of `s` from position `i` on — what
/// `str::split_whitespace` yields.
pub open spec fn words_from_pos(s: Seq<char>, i: int) -> Seq<Seq<char>>
    decreases s.len() - i,
{
    if i < 0 || i >= s.len() {
        Seq::empty()
    } else if is_ws(s[i]) {
        words_from_pos(s, i + 1)
    } else {
        let e = ws_at_or_after(s, i + 1);
        proof {
            lemma_ws_at_or_after(s, i + 1);
        }
        seq![s.subrange(i, e)] + words_from_pos(s, e)
    }
}

/// The first whitespace char at or after `k`, or the end of `s`.
pub open spec fn ws_at_or_after(s: Seq<char>, k: int) -> int
    decreases s.len() - k,
{
    if k < 0 || k >= s.len() {
        s.len() as int
    } else if is_ws(s[k]) {
        k
    } else {
        ws_at_or_after(s, k + 1)
    }
}

pub proof fn lemma_ws_at_or_after(s: Seq<char>, k: int)
    requires
        0 <= k <= s.len(),
    ensures
        k <= ws_at_or_after(s, k) <= s.len(),
        forall|j: int| k <= j < ws_at_or_after(s, k) ==> !is_ws(#[trigger] s[j]),
        ws_at_or_after(s, k) < s.len() ==> is_ws(s[ws_at_or_after(s, k)]),
    decreases s.len() - k,
{
    if k < s.len() && !is_ws(s[k]) {
        lemma_ws_at_or_after(s, k + 1);
    }
}

/// The whitespace-separated words of `s`.
pub open spec fn split_ws(s: Seq<char>) -> Seq<Seq<char>> {
    words_from_pos(s, 0)
}

/// `split_whitespace` over chars.
pub fn split_ws_chars(s: &[char]) -> (out: Vec<Vec<char>>)
    ensures
        out@.len() == split_ws(s@).len(),
        forall|i: int| 0 <= i < out.len() ==> (#[trigger] out@[i])@ == split_ws(s@)[i],
{
    let mut out: Vec<Vec<char>> = Vec::new();
    let ghost mut acc: Seq<Seq<char>> = Seq::empty();
    let mut i: usize = 0;
    while i < s.len()
        invariant
            i <= s.len(),
            split_ws(s@) == acc + words_from_pos(s@, i as int),
            out.len() == acc.len(),
            forall|k: int| 0 <= k < out.len() ==> (#[trigger] out@[k])@ == acc[k],
        decreases s.len() - i,
    {
        if char_is_whitespace(s[i]) {
            i = i + 1;
        } else {
            let mut e = i + 1;
            let mut word: Vec<char> = Vec::new();
            word.push(s[i]);
            proof {
                assert(word@ =~= s@.subrange(i as int, i + 1));
            }
            while e < s.len() && !char_is_whitespace(s[e])
                invariant
                    i < e <= s.len(),
                    ws_at_or_after(s@, i + 1) == ws_at_or_after(s@, e as int),
                    word@ == s@.subrange(i as int, e as int),
                decreases s.len() - e,
            {
                word.push(s[e]);
                proof {
                    assert(s@.subrange(i as int, e + 1) =~= s@.subrange(i as int, e as int).push(s@[e as int]));
                }
                e = e + 1;
            }
            proof {
                lemma_ws_at_or_after(s@, i + 1);
                let w = s@.subrange(i as int, e as int);
                assert(acc + (seq![w] + words_from_pos(s@, e as int)) =~= acc.push(w) + words_from_pos(s@, e as int));
                acc = acc.push(w);
            }
            out.push(word);
            i = e;
        }
    }
    proof {
        assert(acc + words_from_pos(s@, i as int) =~= acc);
    }
    out
}

} // verus!
