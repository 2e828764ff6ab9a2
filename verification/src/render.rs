//! What the command-line front end decides before it writes anything: which output
//! format, which kinds to show, and how a surface form is fitted into a table column or
//! a CSV field. The writing itself is I/O and lives with the binary.

use vstd::prelude::*;
use vstd::string::StringExecFns;
use vstd::view::View as _;

use crate::text::{char_is_whitespace, is_ws, string_from_chars};
use crate::types::{kind_order, Kind};

verus! {

/// Output format of `kep extract`.
#[derive(Debug, Clone, Copy, PartialEq, Eq, Structural)]
pub enum Format {
    /// Aligned, human-readable, one block per document.
    Table,
    /// One JSON object per line. The batch interchange format.
    Jsonl,
    /// A single pretty-printed JSON array.
    Json,
    /// One row per keyword, with the document path repeated.
    Csv,
}

/// A kind as it is named on the command line.
#[derive(Debug, Clone, Copy, PartialEq, Eq, Structural)]
pub enum KindArg {
    Identifier,
    Technical,
    Topical,
}

pub open spec fn kind_of_arg(k: KindArg) -> Kind {
    match k {
        KindArg::Identifier => Kind::Identifier,
        KindArg::Technical => Kind::Technical,
        KindArg::Topical => Kind::Topical,
    }
}

impl From<KindArg> for Kind {
    fn from(k: KindArg) -> (r: Kind) {
        match k {
            KindArg::Identifier => Kind::Identifier,
            KindArg::Technical => Kind::Technical,
            KindArg::Topical => Kind::Topical,
        }
    }
}

impl vstd::std_specs::convert::FromSpecImpl<KindArg> for Kind {
    open spec fn obeys_from_spec() -> bool {
        true
    }

    open spec fn from_spec(k: KindArg) -> Kind {
        kind_of_arg(k)
    }
}

/// What the caller asked to see. Applied at render time only — filtering never changes
/// what was extracted, so `rank` still refers to the full uncapped set.
#[derive(Clone, Copy)]
pub struct View {
    /// Which kinds to show, by position Identifier, Technical, Topical; `None` shows all.
    pub kinds: Option<[bool; 3]>,
    /// At most this many keywords per kind per document.
    pub top: Option<usize>,
}

/// Whether a view shows keywords of `kind`.
pub open spec fn shows(v: View, kind: Kind) -> bool {
    match v.kinds {
        None => true,
        Some(mask) => mask@[kind_order(kind)],
    }
}

impl View {
    /// Whether keywords of `kind` are shown.
    pub fn wants(&self, kind: Kind) -> (r: bool)
        ensures
            r == shows(*self, kind),
    {
        match self.kinds {
            None => true,
            Some(mask) => mask[kind.index()],
        }
    }

    /// How many of a kind's `available` ranked keywords are shown: all of them, or the
    /// first `top` when a limit was asked for.
    pub fn shown(&self, kind: Kind, available: usize) -> (r: usize)
        ensures
            r == if !shows(*self, kind) {
                0
            } else {
                match self.top {
                    None => available,
                    Some(n) => if n < available {
                        n
                    } else {
                        available
                    },
                }
            },
    {
        if !self.wants(kind) {
            return 0;
        }
        match self.top {
            None => available,
            Some(n) => if n < available {
                n
            } else {
                available
            },
        }
    }
}

/// The header row of the CSV format.
pub fn csv_header() -> (r: &'static str)
    ensures
        r@ == "path,status,kind,rank,score,frequency,surface,normalised,origin,expansion"@,
{
    "path,status,kind,rank,score,frequency,surface,normalised,origin,expansion"
}

/// The text with every whitespace run between words replaced by one space and leading
/// and trailing whitespace dropped — `split_whitespace` joined by single spaces — from
/// position `i` on, where `pending` says a space is owed before the next word and
/// `started` whether any word has been written yet.
pub open spec fn squeeze_from(s: Seq<char>, i: int, pending: bool, started: bool) -> Seq<char>
    decreases s.len() - i,
{
    if i < 0 || i >= s.len() {
        Seq::empty()
    } else if is_ws(s[i]) {
        squeeze_from(s, i + 1, started, started)
    } else {
        (if pending {
            seq![' ']
        } else {
            Seq::empty()
        }) + seq![s[i]] + squeeze_from(s, i + 1, false, true)
    }
}

/// The words of `s` joined by single spaces.
pub open spec fn squeezed(s: Seq<char>) -> Seq<char> {
    squeeze_from(s, 0, false, false)
}

/// The words of `cs` joined by single spaces, computed.
pub fn squeeze(cs: &[char]) -> (r: Vec<char>)
    ensures
        r@ == squeezed(cs@),
{
    let mut out: Vec<char> = Vec::new();
    let mut pending = false;
    let mut started = false;
    let mut i: usize = 0;
    while i < cs.len()
        invariant
            i <= cs.len(),
            out@ + squeeze_from(cs@, i as int, pending, started) == squeezed(cs@),
        decreases cs.len() - i,
    {
        let c = cs[i];
        if char_is_whitespace(c) {
            pending = started;
        } else {
            proof {
                let pre = if pending {
                    seq![' ']
                } else {
                    Seq::<char>::empty()
                };
                let rest = squeeze_from(cs@, i + 1, false, true);
                assert(out@ + (pre + seq![c] + rest) =~= (out@ + pre + seq![c]) + rest);
            }
            if pending {
                out.push(' ');
            }
            out.push(c);
            pending = false;
            started = true;
        }
        i = i + 1;
    }
    proof {
        assert(out@ + squeeze_from(cs@, i as int, pending, started) =~= out@);
    }
    out
}

/// A surface fitted into a column of `width` chars: its words joined by single spaces,
/// and when that is longer than the column, its first `width - 1` chars followed by `…`.
pub open spec fn fitted(s: Seq<char>, width: nat) -> Seq<char> {
    let t = squeezed(s);
    if t.len() <= width {
        t
    } else {
        t.take(if width >= 1 {
            width - 1
        } else {
            0
        }) + seq!['…']
    }
}

/// Fit a surface into its column.
///
/// Whitespace is collapsed first: a long form that straddled a line wrap keeps the
/// newline in its surface, faithfully, and printing that raw would tear the table in
/// half.
pub fn truncate(s: &str, width: usize) -> (r: String)
    ensures
        r@ == fitted(s@, width as nat),
{
    let cs = crate::text::chars_of(s);
    let t = squeeze(cs.as_slice());
    if t.len() <= width {
        return string_from_chars(t.as_slice());
    }
    let keep = if width >= 1 {
        width - 1
    } else {
        0
    };
    let mut out: Vec<char> = Vec::new();
    let mut i: usize = 0;
    while i < keep
        invariant
            i <= keep < t.len(),
            out@ == t@.take(i as int),
        decreases keep - i,
    {
        out.push(t[i]);
        proof {
            assert(t@.take(i + 1) =~= t@.take(i as int).push(t@[i as int]));
        }
        i = i + 1;
    }
    out.push('…');
    string_from_chars(out.as_slice())
}

/// Whether a CSV field must be quoted: it holds a comma, a double quote or a newline.
pub open spec fn needs_quoting(s: Seq<char>) -> bool {
    exists|i: int| 0 <= i < s.len() && (s[i] == ',' || s[i] == '"' || s[i] == '\n')
}

/// Every double quote doubled.
pub open spec fn doubled_quotes(s: Seq<char>) -> Seq<char>
    decreases s.len(),
{
    if s.len() == 0 {
        Seq::empty()
    } else {
        doubled_quotes(s.drop_last()) + if s.last() == '"' {
            seq!['"', '"']
        } else {
            seq![s.last()]
        }
    }
}

/// The CSV field for `s`: `s` itself, or `s` with quotes doubled inside double quotes
/// when it needs quoting.
pub open spec fn csv_field(s: Seq<char>) -> Seq<char> {
    if needs_quoting(s) {
        seq!['"'] + doubled_quotes(s) + seq!['"']
    } else {
        s
    }
}

/// Minimal RFC 4180 quoting. Surfaces contain commas and quotes often enough that
/// emitting them raw would produce a file no spreadsheet reads back correctly.
pub fn quote(s: &str) -> (r: String)
    ensures
        r@ == csv_field(s@),
{
    let cs = crate::text::chars_of(s);
    let mut needs = false;
    let mut body: Vec<char> = Vec::new();
    let mut i: usize = 0;
    while i < cs.len()
        invariant
            i <= cs.len(),
            cs@ == s@,
            body@ == doubled_quotes(cs@.take(i as int)),
            needs == exists|k: int| 0 <= k < i && (cs@[k] == ',' || cs@[k] == '"' || cs@[k] == '\n'),
        decreases cs.len() - i,
    {
        let c = cs[i];
        proof {
            assert(cs@.take(i + 1).drop_last() =~= cs@.take(i as int));
        }
        if c == '"' {
            body.push('"');
            body.push('"');
        } else {
            body.push(c);
        }
        if c == ',' || c == '"' || c == '\n' {
            needs = true;
        }
        proof {
            assert(body@ =~= doubled_quotes(cs@.take(i + 1)));
            if !needs {
                assert forall|k: int| 0 <= k < i + 1 implies !(cs@[k] == ',' || cs@[k] == '"' || cs@[k] == '\n') by {
                    if k < i {
                    }
                }
            }
        }
        i = i + 1;
    }
    proof {
        assert(cs@.take(cs.len() as int) =~= cs@);
    }
    if needs {
        let mut out: Vec<char> = Vec::new();
        out.push('"');
        let mut j: usize = 0;
        while j < body.len()
            invariant
                j <= body.len(),
                out@ == seq!['"'] + body@.take(j as int),
            decreases body.len() - j,
        {
            out.push(body[j]);
            proof {
                assert(body@.take(j + 1) =~= body@.take(j as int).push(body@[j as int]));
            }
            j = j + 1;
        }
        out.push('"');
        proof {
            assert(body@.take(body.len() as int) =~= body@);
        }
        string_from_chars(out.as_slice())
    } else {
        String::from_str(s)
    }
}

} // verus!
