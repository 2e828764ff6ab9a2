//! A run's per-status counts, the trailer that reports them, and the exit status they
//! decide.
//!
//! An unreadable file is an error on our side and fails the run; a document that was
//! read but yielded no keywords is not, unless the caller asks for strictness.

use vstd::prelude::*;

use crate::resources::append_chars;
use crate::text::string_from_chars;
use crate::types::DocumentStatus;

verus! {

/// Per-status counts for the trailer, printed on every run including the all-clear.
#[derive(Debug, Clone, Copy, PartialEq, Eq, Structural)]
pub struct Tally {
    pub ok: usize,
    pub no_text_layer: usize,
    pub encrypted: usize,
    pub unsupported: usize,
    pub parse_error: usize,
    pub too_short: usize,
    /// Files that could not be read at all.
    pub unreadable: usize,
}

/// The count a status adds to.
pub open spec fn count_for(t: Tally, status: DocumentStatus) -> usize {
    match status {
        DocumentStatus::Success => t.ok,
        DocumentStatus::NoTextLayer => t.no_text_layer,
        DocumentStatus::Encrypted => t.encrypted,
        DocumentStatus::UnsupportedFormat => t.unsupported,
        DocumentStatus::ParseError(_) => t.parse_error,
        DocumentStatus::TooShort => t.too_short,
    }
}

/// The tally with one more document of `status`.
pub open spec fn counted(t: Tally, status: DocumentStatus) -> Tally {
    match status {
        DocumentStatus::Success => Tally { ok: (t.ok + 1) as usize, ..t },
        DocumentStatus::NoTextLayer => Tally { no_text_layer: (t.no_text_layer + 1) as usize, ..t },
        DocumentStatus::Encrypted => Tally { encrypted: (t.encrypted + 1) as usize, ..t },
        DocumentStatus::UnsupportedFormat => Tally { unsupported: (t.unsupported + 1) as usize, ..t },
        DocumentStatus::ParseError(_) => Tally { parse_error: (t.parse_error + 1) as usize, ..t },
        DocumentStatus::TooShort => Tally { too_short: (t.too_short + 1) as usize, ..t },
    }
}

/// Every document the tally has seen.
pub open spec fn total(t: Tally) -> nat {
    (t.ok + t.no_text_layer + t.encrypted + t.unsupported + t.parse_error + t.too_short
        + t.unreadable) as nat
}

/// The decimal digits of `n`.
pub open spec fn decimal(n: nat) -> Seq<char>
    decreases n,
{
    if n < 10 {
        seq![((48 + n) as u8) as char]
    } else {
        decimal(n / 10).push(((48 + n % 10) as u8) as char)
    }
}

/// The trailer's parts, in order: a name and its count.
pub open spec fn parts(t: Tally) -> Seq<(Seq<char>, nat)> {
    seq![
        ("ok"@, t.ok as nat),
        ("no-text-layer"@, t.no_text_layer as nat),
        ("encrypted"@, t.encrypted as nat),
        ("unsupported"@, t.unsupported as nat),
        ("parse-error"@, t.parse_error as nat),
        ("too-short"@, t.too_short as nat),
        ("unreadable"@, t.unreadable as nat),
    ]
}

/// One part as the trailer writes it: `3 encrypted`.
pub open spec fn part_text(name: Seq<char>, n: nat) -> Seq<char> {
    decimal(n) + " "@ + name
}

/// The parts with a non-zero count, written out and separated by `, `.
pub open spec fn detail(ps: Seq<(Seq<char>, nat)>) -> Seq<char>
    decreases ps.len(),
{
    if ps.len() == 0 {
        Seq::empty()
    } else {
        let rest = detail(ps.drop_first());
        if ps[0].1 == 0 {
            rest
        } else if rest.len() == 0 {
            part_text(ps[0].0, ps[0].1)
        } else {
            part_text(ps[0].0, ps[0].1) + ", "@ + rest
        }
    }
}

/// The trailer: `kep 5 documents: 4 ok, 1 encrypted`, or `nothing to do` in place of the
/// parts when every count is zero.
pub open spec fn summary_text(t: Tally) -> Seq<char> {
    let d = detail(parts(t));
    "kep "@ + decimal(total(t)) + (if total(t) == 1 {
        " document"@
    } else {
        " documents"@
    }) + ": "@ + (if d.len() == 0 {
        "nothing to do"@
    } else {
        d
    })
}

/// The decimal digits of `n`, computed.
fn decimal_chars(n: usize) -> (r: Vec<char>)
    ensures
        r@ == decimal(n as nat),
    decreases n,
{
    let d = (n % 10) as u8;
    let c = (48u8 + d) as char;
    if n < 10 {
        let mut v: Vec<char> = Vec::new();
        v.push(c);
        proof {
            assert(v@ =~= seq![((48 + n) as u8) as char]);
        }
        v
    } else {
        let mut v = decimal_chars(n / 10);
        v.push(c);
        v
    }
}

/// Append the chars of `src` to `out`.
fn append_vec(out: &mut Vec<char>, src: &Vec<char>)
    ensures
        final(out)@ == old(out)@ + src@,
{
    let ghost start = out@;
    let mut k: usize = 0;
    while k < src.len()
        invariant
            k <= src.len(),
            out@ =~= start + src@.take(k as int),
        decreases src.len() - k,
    {
        out.push(src[k]);
        proof {
            assert(src@.take(k + 1) =~= src@.take(k as int).push(src@[k as int]));
        }
        k = k + 1;
    }
    proof {
        assert(src@.take(src.len() as int) =~= src@);
    }
}

impl Default for Tally {
    /// Nothing counted yet.
    fn default() -> (r: Self)
        ensures
            r == (Tally {
                ok: 0,
                no_text_layer: 0,
                encrypted: 0,
                unsupported: 0,
                parse_error: 0,
                too_short: 0,
                unreadable: 0,
            }),
    {
        Tally { ok: 0, no_text_layer: 0, encrypted: 0, unsupported: 0, parse_error: 0, too_short: 0, unreadable: 0 }
    }
}

impl Tally {
    /// Count one more document of `status`.
    pub fn count(&mut self, status: &DocumentStatus)
        requires
            count_for(*old(self), *status) < usize::MAX,
        ensures
            *final(self) == counted(*old(self), *status),
    {
        match status {
            DocumentStatus::Success => self.ok = self.ok + 1,
            DocumentStatus::NoTextLayer => self.no_text_layer = self.no_text_layer + 1,
            DocumentStatus::Encrypted => self.encrypted = self.encrypted + 1,
            DocumentStatus::UnsupportedFormat => self.unsupported = self.unsupported + 1,
            DocumentStatus::ParseError(_) => self.parse_error = self.parse_error + 1,
            DocumentStatus::TooShort => self.too_short = self.too_short + 1,
        }
    }

    /// The trailer line.
    pub fn summary(&self) -> (r: String)
        requires
            total(*self) <= usize::MAX,
        ensures
            r@ == summary_text(*self),
    {
        let t = self.ok + self.no_text_layer + self.encrypted + self.unsupported + self.parse_error
            + self.too_short + self.unreadable;
        let names: [&'static str; 7] = [
            "ok",
            "no-text-layer",
            "encrypted",
            "unsupported",
            "parse-error",
            "too-short",
            "unreadable",
        ];
        let counts: [usize; 7] = [
            self.ok,
            self.no_text_layer,
            self.encrypted,
            self.unsupported,
            self.parse_error,
            self.too_short,
            self.unreadable,
        ];
        let ghost ps = parts(*self);
        proof {
            assert forall|k: int| 0 <= k < 7 implies names@[k]@ == (#[trigger] ps[k]).0 && counts@[k] == ps[k].1 by {}
        }
        let mut d: Vec<char> = Vec::new();
        let mut i: usize = 7;
        while i > 0
            invariant
                i <= 7,
                ps.len() == 7,
                forall|k: int| 0 <= k < 7 ==> names@[k]@ == (#[trigger] ps[k]).0 && counts@[k] == ps[k].1,
                d@ == detail(ps.skip(i as int)),
            decreases i,
        {
            i = i - 1;
            let n = counts[i];
            proof {
                assert(ps.skip(i as int).drop_first() =~= ps.skip(i + 1));
                assert(ps.skip(i as int)[0] == ps[i as int]);
            }
            if n > 0 {
                let mut item = decimal_chars(n);
                append_chars(&mut item, " ");
                append_chars(&mut item, names[i]);
                if d.len() > 0 {
                    append_chars(&mut item, ", ");
                    append_vec(&mut item, &d);
                }
                d = item;
            }
        }
        proof {
            assert(ps.skip(0) =~= ps);
        }
        let mut out: Vec<char> = Vec::new();
        append_chars(&mut out, "kep ");
        let digits = decimal_chars(t);
        append_vec(&mut out, &digits);
        if t == 1 {
            append_chars(&mut out, " document");
        } else {
            append_chars(&mut out, " documents");
        }
        append_chars(&mut out, ": ");
        if d.len() == 0 {
            append_chars(&mut out, "nothing to do");
        } else {
            append_vec(&mut out, &d);
        }
        string_from_chars(out.as_slice())
    }
}

/// The run's exit status: 1 when any file could not be read; otherwise 2 under `strict`
/// when not every one of the `documents` came through with status ok; otherwise 0.
pub fn exit_status(t: &Tally, strict: bool, documents: usize) -> (r: u8)
    ensures
        r == if t.unreadable > 0 {
            1u8
        } else if strict && t.ok != documents {
            2u8
        } else {
            0u8
        },
{
    if t.unreadable > 0 {
        1
    } else if strict && t.ok != documents {
        2
    } else {
        0
    }
}

} // verus!
