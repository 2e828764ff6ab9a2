//! Lowercase hex for the 32-byte digests in the public output.
//!
//! `[u8; 32]` is unreadable as a list of numbers, unusable as a filename and four times
//! the bytes. Hex is the form every other tool in the chain already speaks, and it
//! round-trips: [`decode32`] gives back exactly what [`encode`] was given.

use vstd::prelude::*;
use vstd::string::StringSliceAdditionalSpecFns;
use vstd::utf8::*;

use crate::text::string_from_chars;

verus! {

/// The lowercase hex digit for a value below 16.
pub open spec fn hex_digit(v: int) -> char {
    if v < 10 {
        ('0' as int + v) as char
    } else {
        ('a' as int + v - 10) as char
    }
}

/// Two lowercase hex digits per byte, most significant first.
pub open spec fn hex_of(bytes: Seq<u8>) -> Seq<char> {
    Seq::new(
        2 * bytes.len(),
        |i: int|
            if i % 2 == 0 {
                hex_digit((bytes[i / 2] / 16) as int)
            } else {
                hex_digit((bytes[i / 2] % 16) as int)
            },
    )
}

/// The value of an ASCII hex digit, either case; `None` for any other byte.
pub open spec fn hex_value(b: u8) -> Option<u8> {
    if 0x30 <= b <= 0x39 {
        Some((b - 0x30) as u8)
    } else if 0x61 <= b <= 0x66 {
        Some((b - 0x61 + 10) as u8)
    } else if 0x41 <= b <= 0x46 {
        Some((b - 0x41 + 10) as u8)
    } else {
        None
    }
}

/// The byte two hex digits spell, high digit first; `None` unless both are hex digits.
pub open spec fn pair_value(b0: u8, b1: u8) -> Option<u8> {
    match (hex_value(b0), hex_value(b1)) {
        (Some(h), Some(l)) => Some((h * 16 + l) as u8),
        _ => None,
    }
}

/// Whether every byte pair of a 64-byte text parses.
pub open spec fn all_pairs_parse(b: Seq<u8>) -> bool {
    forall|i: int| 0 <= i < 32 ==> (#[trigger] pair_value(b[2 * i], b[2 * i + 1])) is Some
}

/// The 32 bytes a 64-byte text of parsing pairs decodes to.
pub open spec fn decoded_bytes(b: Seq<u8>) -> Seq<u8> {
    Seq::new(32, |i: int| pair_value(b[2 * i], b[2 * i + 1])->0)
}

fn hex_char(v: u8) -> (c: char)
    requires
        v < 16,
    ensures
        c == hex_digit(v as int),
{
    if v < 10 {
        ((0x30u8 + v) as char)
    } else {
        ((0x61u8 + v - 10) as char)
    }
}

/// Lowercase hex of `bytes`, two digits per byte.
pub fn encode(bytes: &[u8]) -> (r: String)
    requires
        bytes.len() <= usize::MAX / 2,
    ensures
        r@ == hex_of(bytes@),
{
    let mut out: Vec<char> = Vec::new();
    let mut i: usize = 0;
    while i < bytes.len()
        invariant
            i <= bytes.len() <= usize::MAX / 2,
            out@ =~= hex_of(bytes@.take(i as int)),
        decreases bytes.len() - i,
    {
        let b = bytes[i];
        out.push(hex_char(b / 16));
        out.push(hex_char(b % 16));
        proof {
            let t = bytes@.take(i + 1);
            assert(t.take(i as int) =~= bytes@.take(i as int));
            assert(hex_of(t) =~= hex_of(bytes@.take(i as int)).push(hex_digit((b / 16) as int)).push(
                hex_digit((b % 16) as int),
            )) by {
                assert forall|k: int| 0 <= k < 2 * i implies #[trigger] hex_of(t)[k] == hex_of(
                    bytes@.take(i as int),
                )[k] by {
                    assert(k / 2 < i);
                }
                assert((2 * i as int) / 2 == i);
                assert((2 * i as int + 1) / 2 == i);
            }
        }
        i = i + 1;
    }
    proof {
        assert(bytes@.take(bytes.len() as int) =~= bytes@);
    }
    string_from_chars(out.as_slice())
}

/// The UTF-8 encoding of ASCII chars is their codes, one byte each.
pub proof fn lemma_ascii_bytes(cs: Seq<char>)
    requires
        forall|i: int| 0 <= i < cs.len() ==> (#[trigger] cs[i] as u32) < 0x80,
    ensures
        encode_utf8(cs) =~= Seq::new(cs.len(), |i: int| (cs[i] as u32) as u8),
    decreases cs.len(),
{
    if cs.len() > 0 {
        let rest = cs.drop_first();
        assert forall|i: int| 0 <= i < rest.len() implies (#[trigger] rest[i] as u32) < 0x80 by {
            assert(rest[i] == cs[i + 1]);
        }
        lemma_ascii_bytes(rest);
        let u = cs[0] as u32;
        assert(u < 0x80);
        assert(u & 0x7f == u) by (bit_vector)
            requires
                u < 0x80,
        ;
        assert((u & 0x7f) as u8 == u as u8);
        assert(encode_scalar(u) =~= seq![(cs[0] as u32) as u8]);
    }
}

/// Parse exactly 32 bytes of lowercase or uppercase hex.
///
/// Text of any length other than 64 bytes is rejected with "expected 64 hex characters",
/// never padded or truncated; 64 bytes of which some pair is not a hex number are
/// rejected with "not hex".
pub fn decode32(s: &str) -> (r: Result<[u8; 32], &'static str>)
    ensures
        s.spec_bytes().len() != 64 ==> r == Err::<[u8; 32], &'static str>(
            "expected 64 hex characters",
        ),
        s.spec_bytes().len() == 64 && !all_pairs_parse(s.spec_bytes()) ==> r == Err::<
            [u8; 32],
            &'static str,
        >("not hex"),
        s.spec_bytes().len() == 64 && all_pairs_parse(s.spec_bytes()) ==> r is Ok && r->Ok_0@
            == decoded_bytes(s.spec_bytes()),
{
    let b = s.as_bytes();
    if b.len() != 64 {
        return Err("expected 64 hex characters");
    }
    let mut out = [0u8; 32];
    let mut i: usize = 0;
    while i < 32
        invariant
            b@ == s.spec_bytes(),
            b.len() == 64,
            i <= 32,
            forall|k: int| 0 <= k < i ==> (#[trigger] pair_value(b@[2 * k], b@[2 * k + 1])) is Some,
            forall|k: int| 0 <= k < i ==> out@[k] == pair_value(b@[2 * k], b@[2 * k + 1])->0,
        decreases 32 - i,
    {
        let b0 = b[2 * i];
        let b1 = b[2 * i + 1];
        let lo = match hex_byte(b1) {
            Some(v) => v,
            None => {
                proof {
                    assert(pair_value(b@[2 * i as int], b@[2 * i as int + 1]) is None);
                }
                return Err("not hex");
            },
        };
        let v = match hex_byte(b0) {
            Some(h) => h * 16 + lo,
            None => {
                proof {
                    assert(pair_value(b@[2 * i as int], b@[2 * i as int + 1]) is None);
                }
                return Err("not hex");
            },
        };
        out[i] = v;
        i = i + 1;
    }
    proof {
        assert(out@ =~= decoded_bytes(b@));
    }
    Ok(out)
}

fn hex_byte(b: u8) -> (r: Option<u8>)
    ensures
        r == hex_value(b),
        r is Some ==> r->0 < 16,
{
    if 0x30 <= b && b <= 0x39 {
        Some(b - 0x30)
    } else if 0x61 <= b && b <= 0x66 {
        Some(b - 0x61 + 10)
    } else if 0x41 <= b && b <= 0x46 {
        Some(b - 0x41 + 10)
    } else {
        None
    }
}

/// Decoding what was encoded gives back the same 32 bytes: a digest survives its trip
/// through text unchanged. (`encode` returns `hex_of` of its bytes, and `decode32` reads
/// the UTF-8 bytes of its text, so `decode32(&encode(b))` is `Ok(b)`.)
pub proof fn lemma_hex_round_trip(bytes: Seq<u8>)
    requires
        bytes.len() == 32,
    ensures
        encode_utf8(hex_of(bytes)).len() == 64,
        all_pairs_parse(encode_utf8(hex_of(bytes))),
        decoded_bytes(encode_utf8(hex_of(bytes))) =~= bytes,
{
    let h = hex_of(bytes);
    assert forall|i: int| 0 <= i < h.len() implies (#[trigger] h[i] as u32) < 0x80 by {
        let v = if i % 2 == 0 { bytes[i / 2] / 16 } else { bytes[i / 2] % 16 };
        assert(v < 16);
    }
    lemma_ascii_bytes(h);
    let e = encode_utf8(h);
    assert forall|i: int| 0 <= i < 32 implies #[trigger] pair_value(e[2 * i], e[2 * i + 1])
        == Some(bytes[i]) by {
        assert((2 * i) % 2 == 0);
        assert((2 * i + 1) % 2 == 1);
        assert((2 * i) / 2 == i);
        assert((2 * i + 1) / 2 == i);
        let hi = bytes[i] / 16;
        let lo = bytes[i] % 16;
        assert(e[2 * i] == (h[2 * i] as u32) as u8);
        assert(e[2 * i + 1] == (h[2 * i + 1] as u32) as u8);
        assert(hex_value(e[2 * i]) == Some(hi as u8));
        assert(hex_value(e[2 * i + 1]) == Some(lo as u8));
        assert(hi * 16 + lo == bytes[i]);
    }
}

/// An ASCII lowercase letter made uppercase; every other char left alone.
pub open spec fn upper_ascii(c: char) -> char {
    if 'a' <= c && c <= 'z' {
        ((c as u32) - 32) as char
    } else {
        c
    }
}

/// Uppercase hex decodes as lowercase hex does: the ASCII-uppercased encoding of a digest
/// decodes back to the same 32 bytes.
pub proof fn lemma_upper_hex_round_trip(bytes: Seq<u8>)
    requires
        bytes.len() == 32,
    ensures
        ({
            let u = hex_of(bytes).map_values(|c: char| upper_ascii(c));
            &&& encode_utf8(u).len() == 64
            &&& all_pairs_parse(encode_utf8(u))
            &&& decoded_bytes(encode_utf8(u)) =~= bytes
        }),
{
    let h = hex_of(bytes);
    let u = h.map_values(|c: char| upper_ascii(c));
    assert forall|i: int| 0 <= i < u.len() implies (#[trigger] u[i] as u32) < 0x80 by {
        let v = if i % 2 == 0 { bytes[i / 2] / 16 } else { bytes[i / 2] % 16 };
        assert(v < 16);
        assert(u[i] == upper_ascii(h[i]));
    }
    lemma_ascii_bytes(u);
    let e = encode_utf8(u);
    assert forall|i: int| 0 <= i < 32 implies #[trigger] pair_value(e[2 * i], e[2 * i + 1])
        == Some(bytes[i]) by {
        assert((2 * i) % 2 == 0);
        assert((2 * i + 1) % 2 == 1);
        assert((2 * i) / 2 == i);
        assert((2 * i + 1) / 2 == i);
        let hi = bytes[i] / 16;
        let lo = bytes[i] % 16;
        assert(u[2 * i] == upper_ascii(h[2 * i]));
        assert(u[2 * i + 1] == upper_ascii(h[2 * i + 1]));
        assert(e[2 * i] == (u[2 * i] as u32) as u8);
        assert(e[2 * i + 1] == (u[2 * i + 1] as u32) as u8);
        assert(hex_value(e[2 * i]) == Some(hi as u8));
        assert(hex_value(e[2 * i + 1]) == Some(lo as u8));
        assert(hi * 16 + lo == bytes[i]);
    }
}

} // verus!
