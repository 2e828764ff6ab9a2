//! Canonical text is a fixed point of canonicalisation.
//!
//! Re-canonicalising to resolve an offset must reproduce the string the offsets refer
//! to. Each step leaves canonical text alone: it holds no carriage return or form feed,
//! no soft hyphen, typographic hyphen or exotic space, no line that joins the next, and
//! its whitespace is already collapsed. NFKC is the one step whose behaviour on it is the
//! normaliser's, not ours.

use vstd::prelude::*;

use crate::canonical::{
    canonical_form, collapse_from, collapsed, dehyphenated, dehyphenated_from, fold_char, joined_piece,
    line_start,
    folded_unicode, join_lines, joins_next, newlines_from, nfkc_form, normalised_newlines,
    stripped_email, trim_end,
};
use crate::parse::SourceKind;
use crate::tokenize::{
    end_non_ws, first_non_ws, lemma_end_non_ws, lemma_end_non_ws_from, lemma_first_non_ws,
};
use crate::render::{squeeze_from, squeezed};
use crate::text::{
    is_alpha, is_lower, is_ws, lemma_newline_at_or_after, lines_from, newline_at_or_after, split_lines,
};

verus! {

// ---------------------------------------------------------------------------------------
// Squeezing
// ---------------------------------------------------------------------------------------

/// Text already in squeezed shape: single spaces between runs of non-whitespace chars,
/// no space at either end, and no other whitespace.
pub open spec fn is_squeezed(t: Seq<char>) -> bool {
    &&& forall|k: int| 0 <= k < t.len() ==> #[trigger] t[k] == ' ' || !is_ws(t[k])
    &&& t.len() > 0 ==> t[0] != ' ' && t[t.len() - 1] != ' '
    &&& forall|k: int| 0 <= k < t.len() - 1 ==> !(#[trigger] t[k] == ' ' && t[k + 1] == ' ')
}

/// What squeezing from position `i` yields, whatever the state.
proof fn lemma_squeeze_from_shape(s: Seq<char>, i: int, pending: bool, started: bool)
    requires
        0 <= i <= s.len(),
        pending ==> started,
    ensures
        ({
            let out = squeeze_from(s, i, pending, started);
            &&& forall|k: int| 0 <= k < out.len() ==> #[trigger] out[k] == ' ' || (!is_ws(out[k]) && exists|j: int| i <= j < s.len() && s[j] == out[k])
            &&& out.len() > 0 ==> out[out.len() - 1] != ' '
            &&& forall|k: int| 0 <= k < out.len() - 1 ==> !(#[trigger] out[k] == ' ' && out[k + 1] == ' ')
            &&& out.len() > 0 && out[0] == ' ' ==> started
        }),
    decreases s.len() - i,
{
    if i < s.len() {
        if is_ws(s[i]) {
            lemma_squeeze_from_shape(s, i + 1, started, started);
            let out = squeeze_from(s, i, pending, started);
            assert forall|k: int| 0 <= k < out.len() implies #[trigger] out[k] == ' ' || (!is_ws(out[k]) && exists|j: int| i <= j < s.len() && s[j] == out[k]) by {
                if out[k] != ' ' {
                    let j = choose|j: int| i + 1 <= j < s.len() && s[j] == out[k];
                    assert(i <= j < s.len() && s[j] == out[k]);
                }
            }
        } else {
            lemma_squeeze_from_shape(s, i + 1, false, true);
            let rest = squeeze_from(s, i + 1, false, true);
            let pre: Seq<char> = if pending {
                seq![' ']
            } else {
                Seq::empty()
            };
            let out = squeeze_from(s, i, pending, started);
            assert(out == pre + seq![s[i]] + rest);
            assert forall|k: int| 0 <= k < out.len() implies #[trigger] out[k] == ' ' || (!is_ws(out[k]) && exists|j: int| i <= j < s.len() && s[j] == out[k]) by {
                if k < pre.len() {
                } else if k == pre.len() {
                    assert(out[k] == s[i]);
                } else {
                    assert(out[k] == rest[k - pre.len() - 1]);
                    if out[k] != ' ' {
                        let j = choose|j: int| i + 1 <= j < s.len() && s[j] == rest[k - pre.len() - 1];
                        assert(i <= j < s.len() && s[j] == out[k]);
                    }
                }
            }
            assert forall|k: int| 0 <= k < out.len() - 1 implies !(#[trigger] out[k] == ' ' && out[k + 1] == ' ') by {
                if k < pre.len() {
                    assert(out[k + 1] == s[i]);
                } else if k == pre.len() {
                    assert(out[k] == s[i]);
                } else {
                    assert(out[k] == rest[k - pre.len() - 1]);
                    assert(out[k + 1] == rest[k - pre.len()]);
                }
            }
            if rest.len() > 0 {
                assert(out[out.len() - 1] == rest[rest.len() - 1]);
            } else {
                assert(out[out.len() - 1] == s[i]);
            }
        }
    }
}

/// Squeezed text is in squeezed shape, and holds only spaces and chars of the input.
pub proof fn lemma_squeezed_shape(s: Seq<char>)
    ensures
        is_squeezed(squeezed(s)),
        forall|k: int|
            0 <= k < squeezed(s).len() ==> #[trigger] squeezed(s)[k] == ' ' || exists|j: int|
                0 <= j < s.len() && s[j] == squeezed(s)[k],
{
    lemma_squeeze_from_shape(s, 0, false, false);
}

/// Squeezing text in squeezed shape from a word boundary gives it back.
proof fn lemma_squeeze_fixed_from(t: Seq<char>, i: int)
    requires
        is_squeezed(t),
        0 <= i <= t.len(),
        i > 0 ==> t[i - 1] != ' ',
    ensures
        squeeze_from(t, i, false, i > 0) == t.skip(i),
    decreases t.len() - i,
{
    if i < t.len() {
        if t[i] == ' ' {
            assert(i > 0);
            assert(i + 1 < t.len());
            assert(t[i + 1] != ' ');
            assert(!is_ws(t[i + 1]));
            lemma_squeeze_fixed_from(t, i + 2);
            assert(squeeze_from(t, i + 1, true, true) == seq![' '] + seq![t[i + 1]] + squeeze_from(t, i + 2, false, true));
            assert(t.skip(i) =~= seq![' '] + seq![t[i + 1]] + t.skip(i + 2));
        } else {
            assert(!is_ws(t[i]));
            lemma_squeeze_fixed_from(t, i + 1);
            assert(t.skip(i) =~= seq![t[i]] + t.skip(i + 1));
        }
    } else {
        assert(t.skip(i) =~= Seq::<char>::empty());
    }
}

/// Squeezing is idempotent.
pub proof fn lemma_squeezed_fixed(t: Seq<char>)
    requires
        is_squeezed(t),
    ensures
        squeezed(t) == t,
{
    lemma_squeeze_fixed_from(t, 0);
    assert(t.skip(0) =~= t);
}

// ---------------------------------------------------------------------------------------
// Lines
// ---------------------------------------------------------------------------------------

pub open spec fn no_newline(t: Seq<char>) -> bool {
    forall|k: int| 0 <= k < t.len() ==> #[trigger] t[k] != '\n'
}

proof fn lemma_no_newline_after(s: Seq<char>, k: int)
    requires
        0 <= k <= s.len(),
        forall|j: int| k <= j < s.len() ==> #[trigger] s[j] != '\n',
    ensures
        newline_at_or_after(s, k) == s.len(),
    decreases s.len() - k,
{
    if k < s.len() {
        lemma_no_newline_after(s, k + 1);
    }
}

proof fn lemma_newline_concat(a: Seq<char>, b: Seq<char>, k: int)
    requires
        0 <= k <= a.len(),
    ensures
        ({
            let s = a + seq!['\n'] + b;
            let ea = newline_at_or_after(a, k);
            newline_at_or_after(s, k) == if ea < a.len() {
                ea
            } else {
                a.len() as int
            }
        }),
    decreases a.len() - k,
{
    let s = a + seq!['\n'] + b;
    if k < a.len() {
        assert(s[k] == a[k]);
        if a[k] != '\n' {
            lemma_newline_concat(a, b, k + 1);
        }
    } else {
        assert(s[k] == '\n');
    }
}

/// Splitting at a newline between `a` and a newline-free `b` adds `b` as one more line.
proof fn lemma_lines_concat(a: Seq<char>, b: Seq<char>, k: int)
    requires
        0 <= k <= a.len(),
        no_newline(b),
    ensures
        lines_from(a + seq!['\n'] + b, k) == lines_from(a, k).push(b),
    decreases a.len() - k,
{
    let s = a + seq!['\n'] + b;
    lemma_newline_concat(a, b, k);
    lemma_newline_at_or_after(a, k);
    lemma_newline_at_or_after(s, k);
    let ea = newline_at_or_after(a, k);
    if ea < a.len() {
        lemma_lines_concat(a, b, ea + 1);
        assert(s.subrange(k, ea) =~= a.subrange(k, ea));
        assert(lines_from(s, k) == seq![s.subrange(k, ea)] + lines_from(s, ea + 1));
        assert(lines_from(a, k) == seq![a.subrange(k, ea)] + lines_from(a, ea + 1));
        assert(lines_from(s, k) =~= lines_from(a, k).push(b));
    } else {
        let n = a.len() as int;
        assert forall|j: int| n + 1 <= j < s.len() implies #[trigger] s[j] != '\n' by {
            assert(s[j] == b[j - n - 1]);
        }
        lemma_no_newline_after(s, n + 1);
        assert(s.subrange(n + 1, s.len() as int) =~= b);
        assert(lines_from(s, n + 1) == seq![b]);
        assert(s.subrange(k, n) =~= a.subrange(k, n));
        assert(lines_from(a, k) == seq![a.subrange(k, n)]);
        assert(lines_from(s, k) =~= lines_from(a, k).push(b));
    }
}

proof fn lemma_lines_single(b: Seq<char>)
    requires
        no_newline(b),
    ensures
        split_lines(b) == seq![b],
{
    lemma_no_newline_after(b, 0);
    assert(b.subrange(0, b.len() as int) =~= b);
}

/// Lines without newlines, joined, split back into themselves.
pub proof fn lemma_split_join(ls: Seq<Seq<char>>)
    requires
        ls.len() >= 1,
        forall|i: int| 0 <= i < ls.len() ==> no_newline(#[trigger] ls[i]),
    ensures
        split_lines(join_lines(ls)) == ls,
    decreases ls.len(),
{
    if ls.len() == 1 {
        lemma_lines_single(ls[0]);
        assert(ls =~= seq![ls[0]]);
    } else {
        let init = ls.drop_last();
        lemma_split_join(init);
        assert(no_newline(ls.last()));
        lemma_lines_concat(join_lines(init), ls.last(), 0);
        assert(ls =~= init.push(ls.last()));
    }
}

/// Joining two non-empty runs of lines puts one newline between them.
proof fn lemma_join_concat(a: Seq<Seq<char>>, b: Seq<Seq<char>>)
    requires
        a.len() >= 1,
        b.len() >= 1,
    ensures
        join_lines(a + b) == join_lines(a) + seq!['\n'] + join_lines(b),
    decreases b.len(),
{
    if b.len() == 1 {
        assert((a + b).drop_last() =~= a);
        assert((a + b).last() == b[0]);
    } else {
        lemma_join_concat(a, b.drop_last());
        assert((a + b).drop_last() =~= a + b.drop_last());
        assert((a + b).last() == b.last());
    }
}

// ---------------------------------------------------------------------------------------
// Collapsed text, line by line
// ---------------------------------------------------------------------------------------

/// The lines collapsing keeps from `ls[i..]`: each line with any words, squeezed, and one
/// empty line standing for each run of blank lines between two kept ones.
pub open spec fn collapse_lines(ls: Seq<Seq<char>>, i: int, started: bool, blank: bool) -> Seq<Seq<char>>
    decreases ls.len() - i,
{
    if i < 0 || i >= ls.len() {
        Seq::empty()
    } else {
        let c = squeezed(ls[i]);
        if c.len() == 0 {
            collapse_lines(ls, i + 1, started, started)
        } else {
            (if blank {
                seq![Seq::<char>::empty(), c]
            } else {
                seq![c]
            }) + collapse_lines(ls, i + 1, true, false)
        }
    }
}

/// `out`, followed by the lines `l` each on a line of its own.
pub open spec fn join_after(out: Seq<char>, l: Seq<Seq<char>>) -> Seq<char> {
    if l.len() == 0 {
        out
    } else if out.len() == 0 {
        join_lines(l)
    } else {
        out + seq!['\n'] + join_lines(l)
    }
}

proof fn lemma_collapse_from_lines(ls: Seq<Seq<char>>, i: int, out: Seq<char>, b: nat)
    requires
        0 <= i,
    ensures
        collapse_from(ls, i, out, b) == join_after(out, collapse_lines(ls, i, out.len() > 0, out.len() > 0 && b > 0)),
    decreases ls.len() - i,
{
    if i < ls.len() {
        let c = squeezed(ls[i]);
        let st = out.len() > 0;
        if c.len() == 0 {
            lemma_collapse_from_lines(ls, i + 1, out, b + 1);
        } else {
            let sep: Seq<char> = if out.len() == 0 {
                Seq::empty()
            } else if b > 0 {
                seq!['\n', '\n']
            } else {
                seq!['\n']
            };
            let out2 = out + sep + c;
            lemma_collapse_from_lines(ls, i + 1, out2, 0);
            let r = collapse_lines(ls, i + 1, true, false);
            let bl = st && b > 0;
            let pre: Seq<Seq<char>> = if bl {
                seq![Seq::<char>::empty(), c]
            } else {
                seq![c]
            };
            assert(collapse_lines(ls, i, st, bl) == pre + r);
            assert(out2.len() > 0);
            if bl {
                assert(join_lines(pre) =~= seq!['\n'] + c) by {
                    assert(pre.drop_last() =~= seq![Seq::<char>::empty()]);
                    assert(join_lines(seq![Seq::<char>::empty()]) == Seq::<char>::empty());
                    assert(pre.last() == c);
                    assert(join_lines(pre) == join_lines(pre.drop_last()) + seq!['\n'] + pre.last());
                }
            } else {
                assert(join_lines(pre) == c);
            }
            if r.len() > 0 {
                lemma_join_concat(pre, r);
            } else {
                assert(pre + r =~= pre);
            }
            if st {
                assert(out2 =~= out + seq!['\n'] + join_lines(pre));
            } else {
                assert(out2 =~= join_lines(pre));
            }
        }
    }
}

/// The shape of the kept lines: each squeezed, the last one non-empty, never two empty
/// lines in a row, and an empty first line only once something has been kept or a blank
/// run is owed.
proof fn lemma_collapse_lines_shape(ls: Seq<Seq<char>>, i: int, started: bool, blank: bool)
    requires
        0 <= i,
    ensures
        ({
            let r = collapse_lines(ls, i, started, blank);
            &&& forall|k: int| 0 <= k < r.len() ==> is_squeezed(#[trigger] r[k])
            &&& r.len() > 0 ==> r[r.len() - 1].len() > 0
            &&& forall|k: int| 0 <= k < r.len() - 1 ==> (#[trigger] r[k]).len() == 0 ==> r[k + 1].len() > 0
            &&& r.len() > 0 && r[0].len() == 0 ==> blank || started
        }),
    decreases ls.len() - i,
{
    if i < ls.len() {
        let c = squeezed(ls[i]);
        if c.len() == 0 {
            lemma_collapse_lines_shape(ls, i + 1, started, started);
        } else {
            lemma_collapse_lines_shape(ls, i + 1, true, false);
            lemma_squeezed_shape(ls[i]);
            let r = collapse_lines(ls, i + 1, true, false);
            let pre: Seq<Seq<char>> = if blank {
                seq![Seq::<char>::empty(), c]
            } else {
                seq![c]
            };
            let all = pre + r;
            assert(collapse_lines(ls, i, started, blank) == all);
            assert(is_squeezed(Seq::<char>::empty()));
            assert forall|k: int| 0 <= k < all.len() implies is_squeezed(#[trigger] all[k]) by {
                if k >= pre.len() {
                    assert(all[k] == r[k - pre.len()]);
                }
            }
            assert forall|k: int| 0 <= k < all.len() - 1 implies (#[trigger] all[k]).len() == 0 ==> all[k + 1].len() > 0 by {
                if k >= pre.len() {
                    assert(all[k] == r[k - pre.len()]);
                    assert(all[k + 1] == r[k + 1 - pre.len()]);
                } else if k == pre.len() - 1 {
                    assert(all[k] == c);
                }
            }
            if r.len() > 0 {
                assert(all[all.len() - 1] == r[r.len() - 1]);
            }
        }
    }
}

/// Lines in the shape collapsing leaves them: each squeezed, first and last non-empty, and
/// never two empty lines in a row.
pub open spec fn collapse_shaped(l: Seq<Seq<char>>) -> bool {
    &&& forall|k: int| 0 <= k < l.len() ==> is_squeezed(#[trigger] l[k])
    &&& l.len() > 0 ==> l[0].len() > 0 && l[l.len() - 1].len() > 0
    &&& forall|k: int| 0 <= k < l.len() - 1 ==> (#[trigger] l[k]).len() == 0 ==> l[k + 1].len() > 0
}

proof fn lemma_collapse_lines_fixed(l: Seq<Seq<char>>, i: int)
    requires
        collapse_shaped(l),
        0 <= i <= l.len(),
        i > 0 ==> l[i - 1].len() > 0,
    ensures
        collapse_lines(l, i, i > 0, false) == l.skip(i),
    decreases l.len() - i,
{
    if i < l.len() {
        lemma_squeezed_fixed(l[i]);
        if l[i].len() > 0 {
            lemma_collapse_lines_fixed(l, i + 1);
            assert(l.skip(i) =~= seq![l[i]] + l.skip(i + 1));
        } else {
            assert(i > 0);
            assert(i + 1 < l.len());
            assert(l[i + 1].len() > 0);
            lemma_squeezed_fixed(l[i + 1]);
            lemma_collapse_lines_fixed(l, i + 2);
            assert(l[i] =~= Seq::<char>::empty());
            assert(collapse_lines(l, i, true, false) == collapse_lines(l, i + 1, true, true));
            assert(l.skip(i) =~= seq![Seq::<char>::empty(), l[i + 1]] + l.skip(i + 2));
        }
    } else {
        assert(l.skip(i) =~= Seq::<Seq<char>>::empty());
    }
}

/// The collapsed text is its kept lines joined, and those lines are collapse-shaped.
pub proof fn lemma_collapsed_lines(x: Seq<char>)
    ensures
        collapse_shaped(collapse_lines(split_lines(x), 0, false, false)),
        collapsed(x) == join_after(Seq::empty(), collapse_lines(split_lines(x), 0, false, false)),
{
    lemma_collapse_from_lines(split_lines(x), 0, Seq::empty(), 0);
    lemma_collapse_lines_shape(split_lines(x), 0, false, false);
}

/// A squeezed line holds no newline.
proof fn lemma_squeezed_no_newline(t: Seq<char>)
    requires
        is_squeezed(t),
    ensures
        no_newline(t),
{
    assert forall|k: int| 0 <= k < t.len() implies #[trigger] t[k] != '\n' by {
        assert(t[k] == ' ' || !is_ws(t[k]));
    }
}

/// Collapsing whitespace is idempotent.
pub proof fn lemma_collapse_idempotent(x: Seq<char>)
    ensures
        collapsed(collapsed(x)) == collapsed(x),
{
    lemma_collapsed_lines(x);
    let l = collapse_lines(split_lines(x), 0, false, false);
    let c = collapsed(x);
    if l.len() == 0 {
        assert(c == Seq::<char>::empty());
        lemma_lines_single(c);
        assert(squeezed(Seq::<char>::empty()) == Seq::<char>::empty());
        assert(collapsed(c) == collapse_from(seq![c], 1, Seq::<char>::empty(), 1));
    } else {
        assert(c == join_lines(l));
        assert forall|k: int| 0 <= k < l.len() implies no_newline(#[trigger] l[k]) by {
            lemma_squeezed_no_newline(l[k]);
        }
        lemma_split_join(l);
        lemma_collapse_from_lines(l, 0, Seq::empty(), 0);
        lemma_collapse_lines_fixed(l, 0);
        assert(l.skip(0) =~= l);
    }
}

// ---------------------------------------------------------------------------------------
// Which chars survive
// ---------------------------------------------------------------------------------------

/// Every char of `s` satisfies `p`.
pub open spec fn all_chars(s: Seq<char>, p: spec_fn(char) -> bool) -> bool {
    forall|k: int| 0 <= k < s.len() ==> p(#[trigger] s[k])
}

proof fn lemma_join_all(l: Seq<Seq<char>>, p: spec_fn(char) -> bool)
    requires
        forall|i: int| 0 <= i < l.len() ==> all_chars(#[trigger] l[i], p),
        p('\n'),
    ensures
        all_chars(join_lines(l), p),
    decreases l.len(),
{
    if l.len() > 1 {
        lemma_join_all(l.drop_last(), p);
        let a = join_lines(l.drop_last());
        let j = join_lines(l);
        assert(j == a + seq!['\n'] + l.last());
        assert(all_chars(l[l.len() - 1], p));
        assert forall|k: int| 0 <= k < j.len() implies p(#[trigger] j[k]) by {
            if k < a.len() {
                assert(j[k] == a[k]);
            } else if k == a.len() {
                assert(j[k] == '\n');
            } else {
                assert(j[k] == l.last()[k - a.len() - 1]);
            }
        }
    } else if l.len() == 1 {
        assert(all_chars(l[0], p));
    }
}

proof fn lemma_lines_all(s: Seq<char>, k: int, p: spec_fn(char) -> bool)
    requires
        all_chars(s, p),
        0 <= k <= s.len(),
    ensures
        forall|i: int| 0 <= i < lines_from(s, k).len() ==> all_chars(#[trigger] lines_from(s, k)[i], p),
    decreases s.len() - k,
{
    lemma_newline_at_or_after(s, k);
    let e = newline_at_or_after(s, k);
    let r = lines_from(s, k);
    let first = if e >= s.len() {
        s.subrange(k, s.len() as int)
    } else {
        s.subrange(k, e)
    };
    assert(all_chars(first, p)) by {
        assert forall|q: int| 0 <= q < first.len() implies p(#[trigger] first[q]) by {
            assert(first[q] == s[k + q]);
        }
    }
    if e < s.len() {
        lemma_lines_all(s, e + 1, p);
        assert forall|i: int| 0 <= i < r.len() implies all_chars(#[trigger] r[i], p) by {
            if i > 0 {
                assert(r[i] == lines_from(s, e + 1)[i - 1]);
            }
        }
    }
}

proof fn lemma_squeezed_all(s: Seq<char>, p: spec_fn(char) -> bool)
    requires
        all_chars(s, p),
        p(' '),
    ensures
        all_chars(squeezed(s), p),
{
    lemma_squeezed_shape(s);
    let t = squeezed(s);
    assert forall|k: int| 0 <= k < t.len() implies p(#[trigger] t[k]) by {
        if t[k] != ' ' {
            let j = choose|j: int| 0 <= j < s.len() && s[j] == t[k];
            assert(p(s[j]));
        }
    }
}

proof fn lemma_collapse_lines_all(ls: Seq<Seq<char>>, i: int, started: bool, blank: bool, p: spec_fn(char) -> bool)
    requires
        0 <= i,
        forall|q: int| 0 <= q < ls.len() ==> all_chars(#[trigger] ls[q], p),
        p(' '),
    ensures
        forall|k: int|
            0 <= k < collapse_lines(ls, i, started, blank).len() ==> all_chars(
                #[trigger] collapse_lines(ls, i, started, blank)[k],
                p,
            ),
    decreases ls.len() - i,
{
    if i < ls.len() {
        let c = squeezed(ls[i]);
        if c.len() == 0 {
            lemma_collapse_lines_all(ls, i + 1, started, started, p);
            let r = collapse_lines(ls, i + 1, started, started);
            assert(collapse_lines(ls, i, started, blank) == r);
            assert forall|k: int| 0 <= k < r.len() implies all_chars(#[trigger] r[k], p) by {}
        } else {
            lemma_collapse_lines_all(ls, i + 1, true, false, p);
            assert(all_chars(ls[i], p));
            lemma_squeezed_all(ls[i], p);
            let r = collapse_lines(ls, i + 1, true, false);
            let pre: Seq<Seq<char>> = if blank {
                seq![Seq::<char>::empty(), c]
            } else {
                seq![c]
            };
            let all = pre + r;
            assert(collapse_lines(ls, i, started, blank) == all);
            assert forall|k: int| 0 <= k < all.len() implies all_chars(#[trigger] all[k], p) by {
                if k >= pre.len() {
                    assert(all[k] == r[k - pre.len()]);
                } else if k == pre.len() - 1 {
                    assert(all[k] == c);
                } else {
                    assert(all[k] =~= Seq::<char>::empty());
                }
            }
        }
    }
}

/// Collapsing keeps every char property that spaces and newlines have.
pub proof fn lemma_collapsed_all(x: Seq<char>, p: spec_fn(char) -> bool)
    requires
        all_chars(x, p),
        p(' '),
        p('\n'),
    ensures
        all_chars(collapsed(x), p),
{
    lemma_collapsed_lines(x);
    lemma_lines_all(x, 0, p);
    lemma_collapse_lines_all(split_lines(x), 0, false, false, p);
    let l = collapse_lines(split_lines(x), 0, false, false);
    if l.len() > 0 {
        lemma_join_all(l, p);
    }
}

/// The only whitespace in collapsed text is spaces and newlines.
pub open spec fn spaced(c: char) -> bool {
    c == ' ' || c == '\n' || !is_ws(c)
}

/// Collapsed text holds no whitespace but spaces and newlines.
pub proof fn lemma_collapsed_spaced(x: Seq<char>)
    ensures
        all_chars(collapsed(x), |c: char| spaced(c)),
{
    lemma_collapsed_lines(x);
    let l = collapse_lines(split_lines(x), 0, false, false);
    let p = |c: char| spaced(c);
    assert forall|i: int| 0 <= i < l.len() implies all_chars(#[trigger] l[i], p) by {
        assert(is_squeezed(l[i]));
        assert forall|k: int| 0 <= k < l[i].len() implies p(#[trigger] l[i][k]) by {
            assert(l[i][k] == ' ' || !is_ws(l[i][k]));
        }
    }
    if l.len() > 0 {
        lemma_join_all(l, p);
    }
}

/// Two adjacent chars a collapsed text never holds: two spaces, or a space beside a
/// newline.
pub open spec fn bad_pair(c: Seq<char>, k: int) -> bool {
    ||| c[k] == ' ' && c[k + 1] == ' '
    ||| c[k] == ' ' && c[k + 1] == '\n'
    ||| c[k] == '\n' && c[k + 1] == ' '
}

/// Three newlines in a row: more than one blank line.
pub open spec fn bad_triple(c: Seq<char>, k: int) -> bool {
    c[k] == '\n' && c[k + 1] == '\n' && c[k + 2] == '\n'
}

/// Text whose whitespace is single spaces between words and single newlines between
/// lines, with at most one blank line at a time and none at either end.
pub open spec fn single_spaced(c: Seq<char>) -> bool {
    &&& forall|k: int| 0 <= k < c.len() - 1 ==> !#[trigger] bad_pair(c, k)
    &&& forall|k: int| 0 <= k < c.len() - 2 ==> !#[trigger] bad_triple(c, k)
    &&& c.len() > 0 ==> c[0] != ' ' && c[0] != '\n' && c[c.len() - 1] != ' ' && c[c.len() - 1] != '\n'
}

/// Joined collapse-shaped lines: single spaced, and how the text ends tells whether its
/// last line is empty.
proof fn lemma_join_single_spaced(l: Seq<Seq<char>>)
    requires
        l.len() >= 1,
        forall|k: int| 0 <= k < l.len() ==> is_squeezed(#[trigger] l[k]),
        l[0].len() > 0,
        forall|k: int| 0 <= k < l.len() - 1 ==> (#[trigger] l[k]).len() == 0 ==> l[k + 1].len() > 0,
    ensures
        ({
            let c = join_lines(l);
            &&& forall|k: int| 0 <= k < c.len() - 1 ==> !#[trigger] bad_pair(c, k)
            &&& forall|k: int| 0 <= k < c.len() - 2 ==> !#[trigger] bad_triple(c, k)
            &&& c.len() > 0
            &&& c[0] != ' ' && c[0] != '\n'
            &&& l.last().len() > 0 ==> c[c.len() - 1] != ' ' && c[c.len() - 1] != '\n'
            &&& l.last().len() == 0 ==> c.len() >= 2 && c[c.len() - 1] == '\n' && c[c.len() - 2] != ' '
                && c[c.len() - 2] != '\n'
        }),
    decreases l.len(),
{
    let c = join_lines(l);
    if l.len() == 1 {
        let b = l[0];
        assert(c == b);
        assert forall|k: int| 0 <= k < c.len() - 1 implies !#[trigger] bad_pair(c, k) by {
            assert(c[k] == ' ' || !is_ws(c[k]));
            assert(c[k + 1] == ' ' || !is_ws(c[k + 1]));
        }
        assert forall|k: int| 0 <= k < c.len() - 2 implies !#[trigger] bad_triple(c, k) by {
            assert(c[k] == ' ' || !is_ws(c[k]));
        }
        assert(c[0] == ' ' || !is_ws(c[0]));
        assert(c[c.len() - 1] == ' ' || !is_ws(c[c.len() - 1]));
    } else {
        let init = l.drop_last();
        assert forall|k: int| 0 <= k < init.len() implies is_squeezed(#[trigger] init[k]) by {
            assert(init[k] == l[k]);
        }
        assert forall|k: int| 0 <= k < init.len() - 1 implies (#[trigger] init[k]).len() == 0 ==> init[k + 1].len() > 0 by {
            assert(init[k] == l[k]);
            assert(init[k + 1] == l[k + 1]);
        }
        lemma_join_single_spaced(init);
        let a = join_lines(init);
        let b = l.last();
        assert(is_squeezed(b));
        assert(c == a + seq!['\n'] + b);
        let n = a.len() as int;
        assert(init.last() == l[l.len() - 2]);
        assert(init.last().len() == 0 ==> b.len() > 0);
        assert forall|k: int| 0 <= k < b.len() implies #[trigger] b[k] != '\n' by {
            assert(b[k] == ' ' || !is_ws(b[k]));
        }
        assert(c[n] == '\n');
        assert forall|k: int| 0 <= k < n implies #[trigger] c[k] == a[k] by {}
        assert forall|k: int| n + 1 <= k < c.len() implies #[trigger] c[k] == b[k - n - 1] by {}
        assert forall|k: int| 0 <= k < c.len() - 1 implies !#[trigger] bad_pair(c, k) by {
            if k < n - 1 {
                assert(c[k] == a[k] && c[k + 1] == a[k + 1]);
                assert(!bad_pair(a, k));
            } else if k == n - 1 {
                assert(c[k] == a[n - 1]);
            } else if k == n {
                assert(c[k + 1] == b[0]);
            } else {
                let j = k - n - 1;
                assert(c[k] == b[j] && c[k + 1] == b[j + 1]);
            }
        }
        assert forall|k: int| 0 <= k < c.len() - 2 implies !#[trigger] bad_triple(c, k) by {
            if k < n - 2 {
                assert(c[k] == a[k] && c[k + 1] == a[k + 1] && c[k + 2] == a[k + 2]);
                assert(!bad_triple(a, k));
            } else if k == n - 2 {
                assert(c[k + 1] == a[n - 1]);
                assert(c[k] == a[n - 2]);
            } else if k == n - 1 {
                assert(c[k] == a[n - 1]);
                assert(c[k + 2] == b[0]);
            } else if k == n {
                assert(c[k + 1] == b[0]);
            } else {
                let j = k - n - 1;
                assert(c[k] == b[j]);
            }
        }
        assert(c[0] == a[0]);
        if b.len() > 0 {
            assert(c[c.len() - 1] == b[b.len() - 1]);
            assert(b[b.len() - 1] == ' ' || !is_ws(b[b.len() - 1]));
        } else {
            assert(c[c.len() - 2] == a[n - 1]);
        }
    }
}

/// Collapsed whitespace is single spacing: no two spaces in a row, no space beside a
/// line break, never more than one blank line, nothing blank at either end, and no
/// whitespace but spaces and newlines.
pub proof fn lemma_collapsed_single_spaced(x: Seq<char>)
    ensures
        single_spaced(collapsed(x)),
        all_chars(collapsed(x), |c: char| spaced(c)),
{
    lemma_collapsed_spaced(x);
    lemma_collapsed_lines(x);
    let l = collapse_lines(split_lines(x), 0, false, false);
    let c = collapsed(x);
    if l.len() > 0 {
        assert(c == join_lines(l));
        lemma_join_single_spaced(l);
    } else {
        assert(c.len() == 0);
    }
}

/// The kept lines `k` of `ls`, squeezed, each on a line of its own, with one blank line
/// between two that had blank lines between them.
pub open spec fn glue(ls: Seq<Seq<char>>, k: Seq<int>) -> Seq<char>
    decreases k.len(),
{
    if k.len() == 0 {
        Seq::empty()
    } else if k.len() == 1 {
        squeezed(ls[k[0]])
    } else {
        glue(ls, k.drop_last()) + (if k.last() > k[k.len() - 2] + 1 {
            seq!['\n', '\n']
        } else {
            seq!['\n']
        }) + squeezed(ls[k.last()])
    }
}

/// `k` lists, in increasing order, exactly the lines among the first `n` of `ls` that
/// hold a word.
pub open spec fn word_lines(ls: Seq<Seq<char>>, n: int, k: Seq<int>) -> bool {
    &&& forall|a: int, b: int| 0 <= a < b < k.len() ==> #[trigger] k[a] < #[trigger] k[b]
    &&& forall|a: int| 0 <= a < k.len() ==> 0 <= #[trigger] k[a] < n
    &&& forall|j: int| 0 <= j < n ==> (squeezed(#[trigger] ls[j]).len() > 0 <==> k.contains(j))
}

proof fn lemma_collapse_glue(ls: Seq<Seq<char>>, i: int, out: Seq<char>, blank: nat, k: Seq<int>) -> (k2: Seq<int>)
    requires
        0 <= i <= ls.len(),
        word_lines(ls, i, k),
        out == glue(ls, k),
        k.len() > 0 ==> blank == i - 1 - k.last(),
    ensures
        word_lines(ls, ls.len() as int, k2),
        collapse_from(ls, i, out, blank) == glue(ls, k2),
    decreases ls.len() - i,
{
    if i == ls.len() {
        k
    } else {
        let c = squeezed(ls[i]);
        if k.len() > 0 {
            assert(squeezed(ls[k[0]]).len() > 0) by {
                assert(k.contains(k[0]));
            }
            lemma_glue_nonempty(ls, k);
        }
        if c.len() == 0 {
            assert forall|j: int| 0 <= j < i + 1 implies (squeezed(#[trigger] ls[j]).len() > 0 <==> k.contains(j)) by {
                if j == i {
                    if k.contains(i) {
                        let a = choose|a: int| 0 <= a < k.len() && k[a] == i;
                        assert(k[a] < i);
                    }
                }
            }
            lemma_collapse_glue(ls, i + 1, out, blank + 1, k)
        } else {
            let sep = if out.len() == 0 {
                Seq::<char>::empty()
            } else if blank > 0 {
                seq!['\n', '\n']
            } else {
                seq!['\n']
            };
            let k1 = k.push(i);
            assert(k1.drop_last() =~= k);
            if k.len() == 0 {
                assert(out.len() == 0);
                assert(glue(ls, k1) == squeezed(ls[k1[0]]));
                assert(out + sep + c =~= c);
            } else {
                assert(out.len() > 0);
                assert(k1[k1.len() - 2] == k.last());
            }
            assert(out + sep + c == glue(ls, k1));
            assert forall|a: int, b: int| 0 <= a < b < k1.len() implies #[trigger] k1[a] < #[trigger] k1[b] by {
                if b < k.len() {
                    assert(k1[a] == k[a] && k1[b] == k[b]);
                } else {
                    assert(k1[a] == k[a]);
                }
            }
            assert forall|a: int| 0 <= a < k1.len() implies 0 <= #[trigger] k1[a] < i + 1 by {
                if a < k.len() {
                    assert(k1[a] == k[a]);
                }
            }
            assert forall|j: int| 0 <= j < i + 1 implies (squeezed(#[trigger] ls[j]).len() > 0 <==> k1.contains(j)) by {
                if j == i {
                    assert(k1[k.len() as int] == i);
                } else {
                    if k.contains(j) {
                        let a = choose|a: int| 0 <= a < k.len() && k[a] == j;
                        assert(k1[a] == j);
                    }
                    if k1.contains(j) {
                        let a = choose|a: int| 0 <= a < k1.len() && k1[a] == j;
                        assert(a < k.len());
                        assert(k[a] == j);
                    }
                }
            }
            lemma_collapse_glue(ls, i + 1, out + sep + c, 0, k1)
        }
    }
}

proof fn lemma_glue_nonempty(ls: Seq<Seq<char>>, k: Seq<int>)
    requires
        k.len() > 0,
        squeezed(ls[k[0]]).len() > 0,
    ensures
        glue(ls, k).len() > 0,
    decreases k.len(),
{
    if k.len() > 1 {
        assert(k.drop_last()[0] == k[0]);
        lemma_glue_nonempty(ls, k.drop_last());
    }
}

/// What collapsing whitespace keeps: the lines that hold a word, in order, each with its
/// whitespace runs made single spaces and its ends trimmed, joined by a newline — or by a
/// blank line where blank lines lay between them.
pub proof fn lemma_collapsed_keeps_word_lines(x: Seq<char>)
    ensures
        exists|k: Seq<int>| word_lines(split_lines(x), split_lines(x).len() as int, k) && collapsed(x) == glue(split_lines(x), k),
{
    let ls = split_lines(x);
    let k = lemma_collapse_glue(ls, 0, Seq::empty(), 0, Seq::empty());
    assert(word_lines(ls, ls.len() as int, k) && collapsed(x) == glue(ls, k));
}

/// Dehyphenation keeps every char property that newlines have: its output is pieces of
/// the input lines and newlines.
pub proof fn lemma_dehyphenated_all(ls: Seq<Seq<char>>, i: int, lead: bool, p: spec_fn(char) -> bool)
    requires
        0 <= i,
        forall|q: int| 0 <= q < ls.len() ==> all_chars(#[trigger] ls[q], p),
        p('\n'),
    ensures
        all_chars(dehyphenated_from(ls, i, lead), p),
    decreases ls.len() - i,
{
    if i < ls.len() {
        let l = ls[i];
        assert(all_chars(l, p));
        let out = dehyphenated_from(ls, i, lead);
        lemma_first_non_ws(l, 0, l.len() as int);
        let st = line_start(l, lead);
        if i + 1 < ls.len() && joins_next(ls[i], ls[i + 1]) {
            lemma_dehyphenated_all(ls, i + 1, true, p);
            let rest = dehyphenated_from(ls, i + 1, true);
            let piece = joined_piece(l, lead);
            lemma_end_non_ws(l, 0, l.len() as int);
            let stop = end_non_ws(l, 0, l.len() as int) - 1;
            let from = if st <= stop { st } else { stop };
            assert(all_chars(piece, p)) by {
                assert forall|k: int| 0 <= k < piece.len() implies p(#[trigger] piece[k]) by {
                    assert(piece[k] == l[from + k]);
                }
            }
            assert(out == piece + rest);
            assert forall|k: int| 0 <= k < out.len() implies p(#[trigger] out[k]) by {
                if k < piece.len() {
                    assert(out[k] == piece[k]);
                } else {
                    assert(out[k] == rest[k - piece.len()]);
                }
            }
        } else {
            let m = l.skip(st);
            assert(all_chars(m, p)) by {
                assert forall|k: int| 0 <= k < m.len() implies p(#[trigger] m[k]) by {
                    assert(m[k] == l[st + k]);
                }
            }
            if i + 1 < ls.len() {
                lemma_dehyphenated_all(ls, i + 1, false, p);
                let rest = dehyphenated_from(ls, i + 1, false);
                assert(out == m + seq!['\n'] + rest);
                assert forall|k: int| 0 <= k < out.len() implies p(#[trigger] out[k]) by {
                    if k < m.len() {
                        assert(out[k] == m[k]);
                    } else if k == m.len() {
                        assert(out[k] == '\n');
                    } else {
                        assert(out[k] == rest[k - m.len() - 1]);
                    }
                }
            } else {
                assert(out == m);
            }
        }
    }
}

/// Not a soft hyphen and not a typographic hyphen: what folding leaves.
pub open spec fn unfolded(c: char) -> bool {
    c != '\u{00ad}' && c != '\u{2010}' && c != '\u{2011}'
}

/// Folded text holds no soft hyphen and no typographic hyphen.
pub proof fn lemma_folded_unfolded(n: Seq<char>)
    ensures
        all_chars(folded_unicode(n), |c: char| unfolded(c)),
    decreases n.len(),
{
    if n.len() > 0 {
        lemma_folded_unfolded(n.drop_last());
        let a = folded_unicode(n.drop_last());
        let f = folded_unicode(n);
        assert forall|k: int| 0 <= k < f.len() implies unfolded(#[trigger] f[k]) by {
            if k < a.len() {
                assert(f[k] == a[k]);
            } else {
                assert(f[k] == fold_char(n.last()));
            }
        }
    }
}

/// Folding leaves text alone that holds nothing to fold.
pub proof fn lemma_fold_identity(n: Seq<char>)
    requires
        all_chars(n, |c: char| unfolded(c) && spaced(c)),
    ensures
        folded_unicode(n) == n,
    decreases n.len(),
{
    if n.len() > 0 {
        let init = n.drop_last();
        assert(all_chars(init, |c: char| unfolded(c) && spaced(c))) by {
            assert forall|k: int| 0 <= k < init.len() implies unfolded(#[trigger] init[k]) && spaced(init[k]) by {
                assert(init[k] == n[k]);
            }
        }
        lemma_fold_identity(init);
        let c = n.last();
        assert(unfolded(c) && spaced(c));
        assert(fold_char(c) == c);
        assert(n =~= init.push(c));
    }
}

/// Newline normalisation leaves text alone that holds no carriage return or form feed.
pub proof fn lemma_newlines_identity(s: Seq<char>, i: int)
    requires
        0 <= i <= s.len(),
        all_chars(s, |c: char| spaced(c)),
    ensures
        newlines_from(s, i) == s.skip(i),
    decreases s.len() - i,
{
    if i < s.len() {
        assert(spaced(s[i]));
        assert(s[i] != '\r' && s[i] != '\x0c');
        lemma_newlines_identity(s, i + 1);
        assert(s.skip(i) =~= seq![s[i]] + s.skip(i + 1));
    } else {
        assert(s.skip(i) =~= Seq::<char>::empty());
    }
}

// ---------------------------------------------------------------------------------------
// Line joins
// ---------------------------------------------------------------------------------------

proof fn lemma_first_non_ws_at(s: Seq<char>, k: int, f: int)
    requires
        0 <= k <= f < s.len(),
        forall|j: int| k <= j < f ==> is_ws(#[trigger] s[j]),
        !is_ws(s[f]),
    ensures
        first_non_ws(s, k, s.len() as int) == f,
    decreases f - k,
{
    if k < f {
        lemma_first_non_ws_at(s, k + 1, f);
    }
}

/// Moving the lower bound down changes nothing once a non-whitespace char lies above the
/// old one.
proof fn lemma_end_non_ws_base(s: Seq<char>, a: int, a2: int, k: int)
    requires
        0 <= a <= a2 <= k <= s.len(),
        end_non_ws(s, a2, k) > a2,
    ensures
        end_non_ws(s, a, k) == end_non_ws(s, a2, k),
    decreases k,
{
    if k > a2 && is_ws(s[k - 1]) {
        lemma_end_non_ws_base(s, a, a2, k - 1);
    }
}

proof fn lemma_squeeze_pending(s: Seq<char>, j: int)
    ensures
        squeeze_from(s, j, true, true).len() > 0 ==> squeeze_from(s, j, true, true)[0] == ' ',
    decreases s.len() - j,
{
    if 0 <= j < s.len() && is_ws(s[j]) {
        lemma_squeeze_pending(s, j + 1);
    }
}

proof fn lemma_squeeze_empty(s: Seq<char>, j: int, pending: bool, started: bool)
    requires
        0 <= j,
    ensures
        squeeze_from(s, j, pending, started).len() == 0 ==> forall|k: int|
            j <= k < s.len() ==> is_ws(#[trigger] s[k]),
    decreases s.len() - j,
{
    if j < s.len() && is_ws(s[j]) {
        lemma_squeeze_empty(s, j + 1, started, started);
    }
}

/// A squeezed line starts with the line's first non-whitespace char.
proof fn lemma_squeeze_first(s: Seq<char>, i: int)
    requires
        0 <= i <= s.len(),
    ensures
        ({
            let out = squeeze_from(s, i, false, false);
            let f = first_non_ws(s, i, s.len() as int);
            out.len() > 0 ==> f < s.len() && out[0] == s[f]
        }),
    decreases s.len() - i,
{
    if i < s.len() {
        if is_ws(s[i]) {
            lemma_squeeze_first(s, i + 1);
        } else {
            let out = squeeze_from(s, i, false, false);
            assert(out == Seq::<char>::empty() + seq![s[i]] + squeeze_from(s, i + 1, false, true));
            assert(out[0] == s[i]);
        }
    }
}

/// When a squeezed line ends in two non-space chars, the line itself ends in them once
/// trailing whitespace is dropped.
proof fn lemma_squeeze_last_two(s: Seq<char>, i: int, pending: bool, started: bool)
    requires
        0 <= i <= s.len(),
    ensures
        ({
            let out = squeeze_from(s, i, pending, started);
            let e = end_non_ws(s, i, s.len() as int);
            out.len() >= 2 && out[out.len() - 1] != ' ' && out[out.len() - 2] != ' ' ==> i <= e - 2
                && s[e - 1] == out[out.len() - 1] && s[e - 2] == out[out.len() - 2]
        }),
    decreases s.len() - i,
{
    let out = squeeze_from(s, i, pending, started);
    let n = s.len() as int;
    if i < n {
        if is_ws(s[i]) {
            lemma_squeeze_last_two(s, i + 1, started, started);
            if out.len() >= 2 && out[out.len() - 1] != ' ' && out[out.len() - 2] != ' ' {
                lemma_end_non_ws_base(s, i, i + 1, n);
            }
        } else {
            let rest = squeeze_from(s, i + 1, false, true);
            lemma_squeeze_last_two(s, i + 1, false, true);
            let pre: Seq<char> = if pending {
                seq![' ']
            } else {
                Seq::empty()
            };
            assert(out == pre + seq![s[i]] + rest);
            if out.len() >= 2 && out[out.len() - 1] != ' ' && out[out.len() - 2] != ' ' {
                if rest.len() >= 2 {
                    assert(out[out.len() - 1] == rest[rest.len() - 1]);
                    assert(out[out.len() - 2] == rest[rest.len() - 2]);
                    lemma_end_non_ws_base(s, i, i + 1, n);
                } else if rest.len() == 1 {
                    assert(out[out.len() - 1] == rest[0]);
                    assert(out[out.len() - 2] == s[i]);
                    assert(i + 1 < n);
                    if is_ws(s[i + 1]) {
                        lemma_squeeze_pending(s, i + 2);
                        assert(rest == squeeze_from(s, i + 2, true, true));
                        assert(false);
                    }
                    let tail = squeeze_from(s, i + 2, false, true);
                    assert(rest == Seq::<char>::empty() + seq![s[i + 1]] + tail);
                    assert(tail.len() == 0);
                    lemma_squeeze_empty(s, i + 2, false, true);
                    lemma_end_non_ws_from(s, i, n, i + 2);
                    assert(end_non_ws(s, i, i + 2) == i + 2);
                } else {
                    assert(out.len() == pre.len() + 1);
                    assert(out[out.len() - 2] == ' ');
                }
            }
        }
    }
}

/// Two squeezed lines join only where the lines they came from join.
proof fn lemma_squeezed_joins(x: Seq<char>, y: Seq<char>)
    requires
        joins_next(squeezed(x), squeezed(y)),
    ensures
        joins_next(x, y),
{
    let sx = squeezed(x);
    let sy = squeezed(y);
    lemma_squeezed_shape(x);
    lemma_squeezed_shape(y);
    let n = sx.len() as int;
    lemma_end_non_ws(sx, 0, n);
    assert(n >= 2);
    assert(sx[n - 1] == ' ' || !is_ws(sx[n - 1]));
    assert(end_non_ws(sx, 0, n) == n);
    assert(trim_end(sx) =~= sx);
    assert(is_alpha(sx[n - 2]));
    assert(sx[n - 2] != ' ');
    lemma_squeeze_last_two(x, 0, false, false);
    lemma_end_non_ws(x, 0, x.len() as int);
    let e = end_non_ws(x, 0, x.len() as int);
    assert(trim_end(x).len() == e);
    assert(trim_end(x).last() == x[e - 1]);
    assert(trim_end(x)[e - 2] == x[e - 2]);
    assert(sy.len() > 0);
    assert(sy[0] == ' ' || !is_ws(sy[0]));
    assert(first_non_ws(sy, 0, sy.len() as int) == 0);
    lemma_squeeze_first(y, 0);
}

/// No line of `l` joins the next.
pub open spec fn no_joins(l: Seq<Seq<char>>) -> bool {
    forall|k: int| 0 <= k < l.len() - 1 ==> !#[trigger] joins_next(l[k], l[k + 1])
}

/// No squeezed line of `l` joins the next squeezed line.
pub open spec fn no_squeezed_joins(l: Seq<Seq<char>>) -> bool {
    forall|k: int| 0 <= k < l.len() - 1 ==> !#[trigger] joins_next(squeezed(l[k]), squeezed(l[k + 1]))
}

/// The lines of the dehyphenated text of `ls[i..]`: a line that joins the next loses its
/// hyphen and runs on into it, less that line's leading whitespace.
pub open spec fn dehyphenated_lines(ls: Seq<Seq<char>>, i: int, lead: bool) -> Seq<Seq<char>>
    decreases ls.len() - i,
{
    if i < 0 || i >= ls.len() {
        Seq::empty()
    } else if i + 1 < ls.len() && joins_next(ls[i], ls[i + 1]) {
        let r = dehyphenated_lines(ls, i + 1, true);
        seq![joined_piece(ls[i], lead) + r[0]] + r.drop_first()
    } else if i + 1 < ls.len() {
        seq![ls[i].skip(line_start(ls[i], lead))] + dehyphenated_lines(ls, i + 1, false)
    } else {
        seq![ls[i].skip(line_start(ls[i], lead))]
    }
}

proof fn lemma_join_front(a: Seq<char>, r: Seq<Seq<char>>)
    requires
        r.len() >= 1,
    ensures
        join_lines(seq![a + r[0]] + r.drop_first()) == a + join_lines(r),
{
    if r.len() == 1 {
        assert(seq![a + r[0]] + r.drop_first() =~= seq![a + r[0]]);
        assert(r =~= seq![r[0]]);
    } else {
        lemma_join_concat(seq![a + r[0]], r.drop_first());
        lemma_join_concat(seq![r[0]], r.drop_first());
        assert(seq![r[0]] + r.drop_first() =~= r);
        assert(join_lines(seq![a + r[0]]) == a + r[0]);
        assert(join_lines(seq![r[0]]) == r[0]);
        assert(a + r[0] + seq!['\n'] + join_lines(r.drop_first()) =~= a + (r[0] + seq!['\n'] + join_lines(
            r.drop_first(),
        )));
    }
}

/// `g` starts with the same non-whitespace char as `l`, or, like `l`, has none.
pub open spec fn starts_like(g: Seq<char>, l: Seq<char>) -> bool {
    let f = first_non_ws(l, 0, l.len() as int);
    let fg = first_non_ws(g, 0, g.len() as int);
    &&& f < l.len() ==> fg < g.len() && g[fg] == l[f]
    &&& f >= l.len() ==> fg >= g.len()
}

/// Whether two lines join depends on the next line only through its first
/// non-whitespace char.
proof fn lemma_joins_same_start(x: Seq<char>, a: Seq<char>, b: Seq<char>)
    requires
        starts_like(b, a),
    ensures
        joins_next(x, b) == joins_next(x, a),
{
}

proof fn lemma_end_non_ws_skip(l: Seq<char>, f: int, k: int)
    requires
        0 <= f <= k <= l.len(),
    ensures
        end_non_ws(l.skip(f), 0, k - f) == end_non_ws(l, f, k) - f,
    decreases k,
{
    if k > f {
        assert(l.skip(f)[k - f - 1] == l[k - 1]);
        if is_ws(l[k - 1]) {
            lemma_end_non_ws_skip(l, f, k - 1);
        }
    }
}

/// Dropping a line's leading whitespace never makes it join a line it did not join.
proof fn lemma_joins_skip(l: Seq<char>, n: Seq<char>, lead: bool)
    ensures
        joins_next(l.skip(line_start(l, lead)), n) ==> joins_next(l, n),
{
    let len = l.len() as int;
    lemma_first_non_ws(l, 0, len);
    let f = first_non_ws(l, 0, len);
    if lead && f < len {
        let m = l.skip(f);
        lemma_end_non_ws_skip(l, f, len);
        lemma_end_non_ws(l, f, len);
        lemma_end_non_ws_base(l, 0, f, len);
        let e = end_non_ws(l, 0, len);
        assert(m.len() == len - f);
        if joins_next(m, n) {
            let t = trim_end(m);
            assert(t.len() == e - f);
            assert(t.last() == l[e - 1]);
            assert(t[t.len() - 2] == l[e - 2]);
            assert(trim_end(l).len() == e);
            assert(trim_end(l).last() == l[e - 1]);
            assert(trim_end(l)[e - 2] == l[e - 2]);
        }
    } else if lead {
        assert(l.skip(f).len() == 0);
        assert(end_non_ws(l.skip(f), 0, 0) == 0);
    } else {
        assert(l.skip(0) =~= l);
    }
}

/// A line of text, its leading whitespace dropped or not, starts like the line.
proof fn lemma_skip_starts_like(l: Seq<char>, lead: bool)
    ensures
        starts_like(l.skip(line_start(l, lead)), l),
{
    let len = l.len() as int;
    lemma_first_non_ws(l, 0, len);
    let f = first_non_ws(l, 0, len);
    if lead {
        let m = l.skip(f);
        if f < len {
            assert(m[0] == l[f]);
            assert(first_non_ws(m, 0, m.len() as int) == 0);
        } else {
            assert(m.len() == 0);
        }
    } else {
        assert(l.skip(0) =~= l);
    }
}

/// The dehyphenated text is its lines joined; those lines hold no newline, start like
/// the first source line, and none of them joins the next.
proof fn lemma_dehyphenated_lines(ls: Seq<Seq<char>>, i: int, lead: bool)
    requires
        0 <= i < ls.len(),
        forall|k: int| 0 <= k < ls.len() ==> no_newline(#[trigger] ls[k]),
    ensures
        ({
            let g = dehyphenated_lines(ls, i, lead);
            &&& g.len() >= 1
            &&& join_lines(g) == dehyphenated_from(ls, i, lead)
            &&& forall|k: int| 0 <= k < g.len() ==> no_newline(#[trigger] g[k])
            &&& starts_like(g[0], ls[i])
            &&& no_joins(g)
        }),
    decreases ls.len() - i,
{
    let g = dehyphenated_lines(ls, i, lead);
    let l = ls[i];
    lemma_first_non_ws(l, 0, l.len() as int);
    let f = first_non_ws(l, 0, l.len() as int);
    let st = line_start(l, lead);
    assert(no_newline(l));
    if i + 1 < ls.len() && joins_next(ls[i], ls[i + 1]) {
        lemma_dehyphenated_lines(ls, i + 1, true);
        let r = dehyphenated_lines(ls, i + 1, true);
        let l2 = ls[i + 1];
        let f2 = first_non_ws(l2, 0, l2.len() as int);
        lemma_end_non_ws(l, 0, l.len() as int);
        let e = end_non_ws(l, 0, l.len() as int);
        assert(trim_end(l)[e - 2] == l[e - 2]);
        assert(is_alpha(l[e - 2]));
        assert(!is_ws(l[e - 2]));
        assert(f <= e - 2);
        assert(st <= f);
        let piece = joined_piece(l, lead);
        assert(piece =~= l.subrange(st, e - 1));
        assert(piece.len() == e - 1 - st);
        let h = piece + r[0];
        assert(g == seq![h] + r.drop_first());
        lemma_join_front(piece, r);
        assert forall|k: int| 0 <= k < g.len() implies no_newline(#[trigger] g[k]) by {
            if k == 0 {
                assert forall|q: int| 0 <= q < h.len() implies #[trigger] h[q] != '\n' by {
                    if q < piece.len() {
                        assert(h[q] == l[st + q]);
                    } else {
                        assert(h[q] == r[0][q - piece.len()]);
                    }
                }
            } else {
                assert(g[k] == r[k]);
            }
        }
        assert forall|j: int| 0 <= j < f - st implies is_ws(#[trigger] h[j]) by {
            assert(h[j] == l[st + j]);
        }
        assert(h[f - st] == l[f]);
        lemma_first_non_ws_at(h, 0, f - st);
        let r0 = r[0];
        lemma_first_non_ws(l2, 0, l2.len() as int);
        assert(f2 < l2.len() && is_lower(l2[f2]));
        lemma_first_non_ws(r0, 0, r0.len() as int);
        let f0 = first_non_ws(r0, 0, r0.len() as int);
        assert(f0 < r0.len() && r0[f0] == l2[f2]);
        lemma_end_non_ws(r0, 0, r0.len() as int);
        let e0 = end_non_ws(r0, 0, r0.len() as int);
        assert(f0 < e0) by {
            assert(!is_ws(r0[f0]));
        }
        let p = piece.len() as int;
        assert forall|x: int| p + e0 <= x < h.len() implies is_ws(#[trigger] h[x]) by {
            assert(h[x] == r0[x - p]);
        }
        lemma_end_non_ws_from(h, 0, h.len() as int, p + e0);
        assert(h[p + e0 - 1] == r0[e0 - 1]);
        assert(end_non_ws(h, 0, p + e0) == p + e0);
        let th = trim_end(h);
        let t0 = trim_end(r0);
        assert(th.len() == p + e0);
        assert(th.last() == t0.last());
        if e0 >= 2 {
            assert(th[th.len() - 2] == t0[t0.len() - 2]);
        } else {
            assert(f0 == 0);
            assert(t0.last() == r0[0]);
            assert(r0[0] != '-');
        }
        assert forall|k: int| 0 <= k < g.len() - 1 implies !#[trigger] joins_next(g[k], g[k + 1]) by {
            assert(g[k + 1] == r[k + 1]);
            if k == 0 {
                assert(!joins_next(r[0], r[1]));
                assert(joins_next(h, r[1]) == joins_next(r0, r[1]));
            } else {
                assert(g[k] == r[k]);
            }
        }
    } else {
        let m = l.skip(st);
        lemma_skip_starts_like(l, lead);
        assert(no_newline(m)) by {
            assert forall|q: int| 0 <= q < m.len() implies #[trigger] m[q] != '\n' by {
                assert(m[q] == l[st + q]);
            }
        }
        if i + 1 < ls.len() {
            lemma_dehyphenated_lines(ls, i + 1, false);
            let r = dehyphenated_lines(ls, i + 1, false);
            assert(g == seq![m] + r);
            lemma_join_concat(seq![m], r);
            assert(join_lines(seq![m]) == m);
            assert forall|k: int| 0 <= k < g.len() implies no_newline(#[trigger] g[k]) by {
                if k > 0 {
                    assert(g[k] == r[k - 1]);
                }
            }
            lemma_joins_same_start(m, ls[i + 1], r[0]);
            lemma_joins_skip(l, ls[i + 1], lead);
            assert(!joins_next(m, r[0]));
            assert forall|k: int| 0 <= k < g.len() - 1 implies !#[trigger] joins_next(g[k], g[k + 1]) by {
                assert(g[k + 1] == r[k]);
                if k > 0 {
                    let j = k - 1;
                    assert(g[k] == r[j]);
                    assert(!joins_next(r[j], r[j + 1]));
                } else {
                    assert(g[0] == m);
                }
            }
        } else {
            assert(g == seq![m]);
        }
    }
}

proof fn lemma_lines_no_newline(s: Seq<char>, k: int)
    requires
        0 <= k <= s.len(),
    ensures
        lines_from(s, k).len() >= 1,
        forall|i: int| 0 <= i < lines_from(s, k).len() ==> no_newline(#[trigger] lines_from(s, k)[i]),
    decreases s.len() - k,
{
    lemma_newline_at_or_after(s, k);
    let e = newline_at_or_after(s, k);
    let r = lines_from(s, k);
    let first = if e >= s.len() {
        s.subrange(k, s.len() as int)
    } else {
        s.subrange(k, e)
    };
    assert(no_newline(first)) by {
        assert forall|q: int| 0 <= q < first.len() implies #[trigger] first[q] != '\n' by {
            assert(first[q] == s[k + q]);
        }
    }
    if e < s.len() {
        lemma_lines_no_newline(s, e + 1);
        assert forall|i: int| 0 <= i < r.len() implies no_newline(#[trigger] r[i]) by {
            if i > 0 {
                assert(r[i] == lines_from(s, e + 1)[i - 1]);
            }
        }
    }
}

proof fn lemma_collapse_blank_first(ls: Seq<Seq<char>>, i: int)
    ensures
        collapse_lines(ls, i, true, true).len() > 0 ==> collapse_lines(ls, i, true, true)[0].len() == 0,
    decreases ls.len() - i,
{
    if 0 <= i < ls.len() && squeezed(ls[i]).len() == 0 {
        lemma_collapse_blank_first(ls, i + 1);
    }
}

/// After a kept line, the next kept line is an empty one or the very next line squeezed.
proof fn lemma_collapse_first(ls: Seq<Seq<char>>, i: int)
    requires
        0 <= i,
    ensures
        collapse_lines(ls, i, true, false).len() > 0 ==> i < ls.len() && (
        collapse_lines(ls, i, true, false)[0].len() == 0 || collapse_lines(ls, i, true, false)[0]
            == squeezed(ls[i])),
{
    if i < ls.len() && squeezed(ls[i]).len() == 0 {
        lemma_collapse_blank_first(ls, i + 1);
    }
}

proof fn lemma_collapse_lines_no_joins(ls: Seq<Seq<char>>, i: int, started: bool, blank: bool)
    requires
        0 <= i,
        no_squeezed_joins(ls),
    ensures
        no_joins(collapse_lines(ls, i, started, blank)),
    decreases ls.len() - i,
{
    if i < ls.len() {
        let c = squeezed(ls[i]);
        if c.len() == 0 {
            lemma_collapse_lines_no_joins(ls, i + 1, started, started);
        } else {
            lemma_collapse_lines_no_joins(ls, i + 1, true, false);
            lemma_collapse_first(ls, i + 1);
            let r = collapse_lines(ls, i + 1, true, false);
            let pre: Seq<Seq<char>> = if blank {
                seq![Seq::<char>::empty(), c]
            } else {
                seq![c]
            };
            let all = pre + r;
            assert(collapse_lines(ls, i, started, blank) == all);
            let q = pre.len() as int;
            assert forall|k: int| 0 <= k < all.len() - 1 implies !#[trigger] joins_next(all[k], all[k + 1]) by {
                if k >= q {
                    let j = k - q;
                    assert(all[k] == r[j]);
                    assert(all[k + 1] == r[j + 1]);
                    assert(!joins_next(r[j], r[j + 1]));
                } else if k == q - 1 {
                    assert(all[k] == c);
                    assert(all[k + 1] == r[0]);
                    if r[0].len() > 0 {
                        assert(r[0] == squeezed(ls[i + 1]));
                        assert(!joins_next(squeezed(ls[i]), squeezed(ls[i + 1])));
                    }
                } else {
                    assert(all[k] =~= Seq::<char>::empty());
                    assert(end_non_ws(all[k], 0, 0) == 0);
                }
            }
        }
    }
}

/// Text whose lines never join is its own dehyphenation.
proof fn lemma_dehyphenated_no_joins(l: Seq<Seq<char>>, i: int)
    requires
        0 <= i < l.len(),
        no_joins(l),
    ensures
        dehyphenated_from(l, i, false) == join_lines(l.skip(i)),
    decreases l.len() - i,
{
    if i + 1 < l.len() {
        lemma_dehyphenated_no_joins(l, i + 1);
        assert(!joins_next(l[i], l[i + 1]));
        assert(l[i].skip(0) =~= l[i]);
        lemma_join_concat(seq![l[i]], l.skip(i + 1));
        assert(seq![l[i]] + l.skip(i + 1) =~= l.skip(i));
        assert(join_lines(seq![l[i]]) == l[i]);
    } else {
        assert(l.skip(i) =~= seq![l[i]]);
        assert(l[i].skip(0) =~= l[i]);
    }
}

/// Collapsed dehyphenated text is its own dehyphenation.
pub proof fn lemma_dehyphenation_settles(f: Seq<char>)
    requires
    ensures
        dehyphenated(collapsed(dehyphenated(f))) == collapsed(dehyphenated(f)),
{
    let ls = split_lines(f);
    lemma_lines_no_newline(f, 0);
    lemma_dehyphenated_lines(ls, 0, false);
    let g = dehyphenated_lines(ls, 0, false);
    let d = dehyphenated(f);
    assert(d == join_lines(g));
    lemma_split_join(g);
    assert forall|k: int| 0 <= k < g.len() - 1 implies !#[trigger] joins_next(
        squeezed(g[k]),
        squeezed(g[k + 1]),
    ) by {
        if joins_next(squeezed(g[k]), squeezed(g[k + 1])) {
            lemma_squeezed_joins(g[k], g[k + 1]);
        }
    }
    lemma_collapsed_lines(d);
    let l = collapse_lines(g, 0, false, false);
    lemma_collapse_lines_no_joins(g, 0, false, false);
    let c = collapsed(d);
    if l.len() == 0 {
        assert(c == Seq::<char>::empty());
        lemma_lines_single(c);
        assert(c.skip(0) =~= c);
        assert(dehyphenated(c) == dehyphenated_from(seq![c], 0, false));
    } else {
        assert(c == join_lines(l));
        assert forall|k: int| 0 <= k < l.len() implies no_newline(#[trigger] l[k]) by {
            lemma_squeezed_no_newline(l[k]);
        }
        lemma_split_join(l);
        lemma_dehyphenated_no_joins(l, 0);
        assert(l.skip(0) =~= l);
    }
}

// ---------------------------------------------------------------------------------------
// The whole
// ---------------------------------------------------------------------------------------

/// Canonicalisation is idempotent: canonicalising canonical text gives the same text
/// back, so offsets computed against it resolve in a regenerated copy.
///
/// It holds wherever NFKC leaves the canonical text as it is and, for an email whose
/// quotes are stripped, stripping leaves it as it is too. Removing a soft hyphen can
/// bring a base letter and a combining mark together, which NFKC then composes, so the
/// first condition is needed; collapsing `x\twrote:` to `x wrote:` makes an attribution
/// line of it, so the second is too.
pub proof fn lemma_canonical_idempotent(x: Seq<char>, source: SourceKind, strip: bool)
    requires
        nfkc_form(canonical_form(x, source, strip)) == canonical_form(x, source, strip),
        source == SourceKind::Email && strip ==> stripped_email(canonical_form(x, source, strip))
            == canonical_form(x, source, strip),
    ensures
        canonical_form(canonical_form(x, source, strip), source, strip) == canonical_form(x, source, strip),
{
    let n = nfkc_form(normalised_newlines(x));
    let t = if source == SourceKind::Email && strip {
        stripped_email(n)
    } else {
        n
    };
    let f = folded_unicode(t);
    let d = dehyphenated(f);
    let c = collapsed(d);
    assert(c == canonical_form(x, source, strip));
    lemma_collapsed_spaced(d);
    lemma_newlines_identity(c, 0);
    assert(c.skip(0) =~= c);
    assert(normalised_newlines(c) == c);
    let un = |ch: char| unfolded(ch);
    lemma_folded_unfolded(t);
    lemma_lines_all(f, 0, un);
    lemma_dehyphenated_all(split_lines(f), 0, false, un);
    lemma_collapsed_all(d, un);
    assert(all_chars(c, |ch: char| unfolded(ch) && spaced(ch))) by {
        assert forall|k: int| 0 <= k < c.len() implies unfolded(#[trigger] c[k]) && spaced(c[k]) by {
            assert(un(c[k]));
            assert((|ch: char| spaced(ch))(c[k]));
        }
    }
    lemma_fold_identity(c);
    lemma_dehyphenation_settles(f);
    lemma_collapse_idempotent(d);
}

} // verus!
