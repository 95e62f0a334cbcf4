//! Byte-level codec: little-endian views of 32-bit words, significant-byte
//! trimming, padding of byte buffers to whole dwords, and the safe-alphabet
//! predicate on bytes.

use vstd::prelude::*;
use vstd::arithmetic::div_mod::{
    lemma_fundamental_div_mod, lemma_fundamental_div_mod_converse_div,
    lemma_fundamental_div_mod_converse_mod,
};

verus! {

/// Filler byte used to pad a payload to a whole number of dwords.  It is
/// deliberately non-zero so padding can never introduce a terminator.
pub const FILLER: u8 = 0x90;

/// Place value of byte position `b` (little endian) inside a 32-bit word.
pub open spec fn pow_b(b: int) -> int {
    if b == 0 {
        1
    } else if b == 1 {
        0x100
    } else if b == 2 {
        0x10000
    } else {
        0x1000000
    }
}

/// The byte of `v` at little-endian position `b`.
pub open spec fn byte_at(v: int, b: int) -> int {
    (v / pow_b(b)) % 256
}

/// The four little-endian bytes of a 32-bit value.
pub open spec fn le4(v: int) -> Seq<u8> {
    seq![
        byte_at(v, 0) as u8,
        byte_at(v, 1) as u8,
        byte_at(v, 2) as u8,
        byte_at(v, 3) as u8,
    ]
}

/// The two little-endian bytes of a 16-bit value.
pub open spec fn le2(v: int) -> Seq<u8> {
    seq![(v % 256) as u8, ((v / 0x100) % 256) as u8]
}

/// The 32-bit value held by the first four bytes of `s`, little endian.
pub open spec fn word4(s: Seq<u8>) -> int
    recommends
        s.len() >= 4,
{
    s[0] + 0x100 * s[1] + 0x10000 * s[2] + 0x1000000 * s[3]
}

/// Number of significant bytes of a 32-bit value: trailing zero bytes are
/// dropped, except that a 3-byte value is held at 4 bytes, because no 3-byte
/// immediate encoding exists.
pub open spec fn sig_width(v: int) -> int {
    if v == 0 {
        0
    } else if v < 0x100 {
        1
    } else if v < 0x10000 {
        2
    } else {
        4
    }
}

/// A byte of the safe alphabet: anything in `0x01..=0x7F`.
pub open spec fn byte_is_safe(b: u8) -> bool {
    1 <= b <= 0x7f
}

/// A 32-bit line is safe when each of its significant bytes is safe.
pub open spec fn line_ok(v: int) -> bool {
    forall|b: int| 0 <= b < sig_width(v) ==> 1 <= #[trigger] byte_at(v, b) <= 0x7f
}

/// `s` with its trailing zero bytes removed.
pub open spec fn trimmed(s: Seq<u8>) -> Seq<u8>
    decreases s.len(),
{
    if s.len() > 0 && s.last() == 0 {
        trimmed(s.drop_last())
    } else {
        s
    }
}

/// `s` with trailing zeros removed, re-padded to four bytes if the trim left
/// exactly three.
pub open spec fn stripped(s: Seq<u8>) -> Seq<u8> {
    if trimmed(s).len() == 3 {
        trimmed(s).push(0)
    } else {
        trimmed(s)
    }
}

/// How many filler bytes a buffer of length `n` needs to reach a dword
/// boundary.
pub open spec fn pad_count(n: int) -> int {
    (4 - n % 4) % 4
}

/// `s` padded with the filler byte to a whole number of dwords.
pub open spec fn padded(s: Seq<u8>) -> Seq<u8> {
    s + Seq::new(pad_count(s.len() as int) as nat, |i: int| FILLER)
}

/// The dwords of a padded buffer, in reverse order (the order they must be
/// pushed so the stack holds the buffer in its original order).
pub open spec fn dwords(s: Seq<u8>) -> Seq<u32> {
    let p = padded(s);
    let n = p.len() as int / 4;
    Seq::new(n as nat, |j: int| word4(p.subrange(4 * (n - 1 - j), 4 * (n - 1 - j) + 4)) as u32)
}

/// Reduction of a (possibly negative) integer to a 32-bit value.
pub open spec fn w32(v: int) -> int {
    v % 0x1_0000_0000
}

/// 32-bit wrapping subtraction.
pub fn wrap_sub32(a: u32, b: u32) -> (r: u32)
    ensures
        r as int == w32(a - b),
{
    let r: u32 = if a >= b {
        a - b
    } else {
        ((a as u64 + 0x1_0000_0000) - b as u64) as u32
    };
    proof {
        if a >= b {
            lemma_fundamental_div_mod_converse_mod(a - b, 0x1_0000_0000, 0, a - b);
        } else {
            lemma_fundamental_div_mod_converse_mod(
                a - b,
                0x1_0000_0000,
                -1,
                a - b + 0x1_0000_0000,
            );
        }
    }
    r
}

/// 32-bit wrapping addition.
pub fn wrap_add32(a: u32, b: u32) -> (r: u32)
    ensures
        r as int == w32(a + b),
{
    let wide = a as u64 + b as u64;
    let r: u32 = if wide <= 0xffff_ffff {
        wide as u32
    } else {
        (wide - 0x1_0000_0000) as u32
    };
    proof {
        if wide <= 0xffff_ffff {
            lemma_fundamental_div_mod_converse_mod(a + b, 0x1_0000_0000, 0, a + b);
        } else {
            lemma_fundamental_div_mod_converse_mod(
                a + b,
                0x1_0000_0000,
                1,
                a + b - 0x1_0000_0000,
            );
        }
    }
    r
}

/// Reading the four little-endian bytes of a 32-bit value back as a word
/// returns the value.
pub proof fn lemma_word4_le4(v: int)
    requires
        0 <= v < 0x1_0000_0000,
    ensures
        word4(le4(v)) == v,
{
    let q1 = v / 0x100;
    let q2 = q1 / 0x100;
    let q3 = q2 / 0x100;
    lemma_fundamental_div_mod(v, 0x100);
    lemma_fundamental_div_mod(q1, 0x100);
    lemma_fundamental_div_mod(q2, 0x100);
    assert(q2 == v / 0x10000) by (nonlinear_arith)
        requires q1 == v / 0x100 && q2 == q1 / 0x100 && v >= 0,
    ;
    assert(q3 == v / 0x1000000) by (nonlinear_arith)
        requires q2 == v / 0x10000 && q3 == q2 / 0x100 && v >= 0,
    ;
    assert(q3 < 0x100);
    assert(q3 % 256 == q3);
}

/// Reassembling four bytes into a word and taking its bytes returns the
/// original bytes.
pub proof fn lemma_le4_word4(s: Seq<u8>)
    requires
        s.len() == 4,
    ensures
        0 <= word4(s) < 0x1_0000_0000,
        le4(word4(s)) == s,
{
    let v = word4(s);
    let q1 = s[1] + 0x100 * s[2] + 0x10000 * s[3];
    let q2 = s[2] + 0x100 * s[3];
    let q3 = s[3] as int;
    lemma_fundamental_div_mod_converse_div(v, 0x100, q1, s[0] as int);
    lemma_fundamental_div_mod_converse_mod(v, 0x100, q1, s[0] as int);
    lemma_fundamental_div_mod_converse_div(q1, 0x100, q2, s[1] as int);
    lemma_fundamental_div_mod_converse_mod(q1, 0x100, q2, s[1] as int);
    lemma_fundamental_div_mod_converse_div(q2, 0x100, q3, s[2] as int);
    lemma_fundamental_div_mod_converse_mod(q2, 0x100, q3, s[2] as int);
    assert(v / 0x10000 == q2) by (nonlinear_arith)
        requires v / 0x100 == q1 && q1 / 0x100 == q2 && v >= 0,
    ;
    assert(v / 0x1000000 == q3) by (nonlinear_arith)
        requires v / 0x10000 == q2 && q2 / 0x100 == q3 && v >= 0,
    ;
    assert(q3 % 256 == q3);
    assert(le4(v) =~= s);
}

/// The place value of byte position `b`.
pub fn pow_byte(b: usize) -> (r: u32)
    requires
        b < 4,
    ensures
        r as int == pow_b(b as int),
{
    if b == 0 {
        1
    } else if b == 1 {
        0x100
    } else if b == 2 {
        0x10000
    } else {
        0x1000000
    }
}

/// The number of significant bytes of a 32-bit value.
pub fn sig_width_of(v: u32) -> (r: usize)
    ensures
        r == sig_width(v as int),
{
    if v == 0 {
        0
    } else if v < 0x100 {
        1
    } else if v < 0x10000 {
        2
    } else {
        4
    }
}

/// Whether every significant byte of `v` lies in the safe alphabet.
pub fn line_is_ok(v: u32) -> (r: bool)
    ensures
        r == line_ok(v as int),
{
    let w = sig_width_of(v);
    let mut b: usize = 0;
    while b < w
        invariant
            b <= w == sig_width(v as int),
            forall|t: int| 0 <= t < b ==> 1 <= #[trigger] byte_at(v as int, t) <= 0x7f,
        decreases w - b,
    {
        let p = pow_byte(b);
        let c = (v / p) % 0x100;
        if c == 0 || c > 0x7f {
            assert(byte_at(v as int, b as int) == c);
            return false;
        }
        assert(byte_at(v as int, b as int) == c);
        b = b + 1;
    }
    true
}

/// True iff `b` lies in the safe alphabet.
pub fn is_safe_byte(b: u8) -> (r: bool)
    ensures
        r == byte_is_safe(b),
{
    1 <= b && b <= 0x7f
}

/// The full four-byte little-endian representation of a 32-bit value.
pub fn get_full_bytes32(val: u32) -> (r: Vec<u8>)
    ensures
        r@ == le4(val as int),
{
    let mut r: Vec<u8> = Vec::new();
    r.push((val % 0x100) as u8);
    r.push(((val / 0x100) % 0x100) as u8);
    r.push(((val / 0x10000) % 0x100) as u8);
    r.push(((val / 0x1000000) % 0x100) as u8);
    assert(r@ =~= le4(val as int));
    r
}

/// The full two-byte little-endian representation of a 16-bit value.
pub fn get_full_bytes16(val: u16) -> (r: Vec<u8>)
    ensures
        r@ == le2(val as int),
{
    let mut r: Vec<u8> = Vec::new();
    r.push((val % 0x100) as u8);
    r.push(((val / 0x100) % 0x100) as u8);
    assert(r@ =~= le2(val as int));
    r
}

/// Strips trailing zero bytes from a byte array, re-padding a 3-byte result
/// to 4 bytes.
pub fn strip_trailing_zero(bytes: &Vec<u8>) -> (r: Vec<u8>)
    ensures
        r@ == stripped(bytes@),
{
    let mut end: usize = bytes.len();
    proof {
        assert(bytes@.subrange(0, end as int) =~= bytes@);
    }
    while end > 0 && bytes[end - 1] == 0
        invariant
            end <= bytes.len(),
            trimmed(bytes@) == trimmed(bytes@.subrange(0, end as int)),
        decreases end,
    {
        proof {
            assert(bytes@.subrange(0, end as int).drop_last() =~= bytes@.subrange(
                0,
                end as int - 1,
            ));
        }
        end = end - 1;
    }
    let mut r: Vec<u8> = Vec::new();
    let mut i: usize = 0;
    while i < end
        invariant
            i <= end <= bytes.len(),
            r@ == bytes@.subrange(0, i as int),
        decreases end - i,
    {
        r.push(bytes[i]);
        proof {
            assert(r@ =~= bytes@.subrange(0, i as int + 1));
        }
        i = i + 1;
    }
    proof {
        assert(trimmed(bytes@.subrange(0, end as int)) == bytes@.subrange(0, end as int)) by {
            if end > 0 {
                assert(bytes@.subrange(0, end as int).last() == bytes@[end as int - 1]);
            }
        }
        assert(r@ == trimmed(bytes@));
    }
    if r.len() == 3 {
        r.push(0);
    }
    r
}

/// The significant bytes of a 32-bit value (§ trimming rules above).
pub fn get_bytes32(val: u32) -> (r: Vec<u8>)
    ensures
        r@ == stripped(le4(val as int)),
        r@.len() == sig_width(val as int),
{
    let full = get_full_bytes32(val);
    let r = strip_trailing_zero(&full);
    proof {
        lemma_stripped_width(val as int);
    }
    r
}

/// The stripped form of a 32-bit value's bytes has exactly `sig_width` bytes,
/// and is a prefix of (or equal to) the full four-byte form.
pub proof fn lemma_stripped_width(v: int)
    requires
        0 <= v < 0x1_0000_0000,
    ensures
        stripped(le4(v)).len() == sig_width(v),
        stripped(le4(v)) == le4(v).subrange(0, sig_width(v)),
{
    let s = le4(v);
    lemma_word4_le4(v);
    assert(s.drop_last() =~= s.subrange(0, 3));
    assert(s.subrange(0, 3).drop_last() =~= s.subrange(0, 2));
    assert(s.subrange(0, 2).drop_last() =~= s.subrange(0, 1));
    assert(s.subrange(0, 1).drop_last() =~= s.subrange(0, 0));
    if v == 0 {
        assert(byte_at(v, 0) == 0 && byte_at(v, 1) == 0 && byte_at(v, 2) == 0 && byte_at(v, 3)
            == 0);
        assert(trimmed(s) == trimmed(s.subrange(0, 3)));
        assert(trimmed(s.subrange(0, 3)) == trimmed(s.subrange(0, 2)));
        assert(trimmed(s.subrange(0, 2)) == trimmed(s.subrange(0, 1)));
        assert(trimmed(s.subrange(0, 1)) == trimmed(s.subrange(0, 0)));
        assert(trimmed(s) =~= s.subrange(0, 0));
    } else if v < 0x100 {
        assert(byte_at(v, 0) == v && byte_at(v, 1) == 0 && byte_at(v, 2) == 0 && byte_at(v, 3)
            == 0);
        assert(trimmed(s) == trimmed(s.subrange(0, 3)));
        assert(trimmed(s.subrange(0, 3)) == trimmed(s.subrange(0, 2)));
        assert(trimmed(s.subrange(0, 2)) == trimmed(s.subrange(0, 1)));
        assert(s.subrange(0, 1).last() == byte_at(v, 0) as u8);
        assert(trimmed(s.subrange(0, 1)) == s.subrange(0, 1));
        assert(trimmed(s) =~= s.subrange(0, 1));
    } else if v < 0x10000 {
        assert(byte_at(v, 1) == v / 0x100) by {
            assert(v / 0x100 < 0x100) by (nonlinear_arith)
                requires v < 0x10000,
            ;
        }
        assert(byte_at(v, 1) != 0) by {
            assert(v / 0x100 >= 1) by (nonlinear_arith)
                requires v >= 0x100,
            ;
        }
        assert(byte_at(v, 2) == 0 && byte_at(v, 3) == 0) by {
            assert(v / 0x10000 == 0 && v / 0x1000000 == 0) by (nonlinear_arith)
                requires 0 <= v < 0x10000,
            ;
        }
        assert(trimmed(s) == trimmed(s.subrange(0, 3)));
        assert(trimmed(s.subrange(0, 3)) == trimmed(s.subrange(0, 2)));
        assert(s.subrange(0, 2).last() == byte_at(v, 1) as u8);
        assert(trimmed(s.subrange(0, 2)) == s.subrange(0, 2));
        assert(trimmed(s) =~= s.subrange(0, 2));
    } else if v < 0x1000000 {
        assert(byte_at(v, 2) != 0) by {
            assert(1 <= v / 0x10000 < 0x100) by (nonlinear_arith)
                requires 0x10000 <= v < 0x1000000,
            ;
        }
        assert(byte_at(v, 3) == 0) by {
            assert(v / 0x1000000 == 0) by (nonlinear_arith)
                requires 0 <= v < 0x1000000,
            ;
        }
        assert(trimmed(s) == trimmed(s.subrange(0, 3)));
        assert(s.subrange(0, 3).last() == byte_at(v, 2) as u8);
        assert(trimmed(s.subrange(0, 3)) == s.subrange(0, 3));
        assert(stripped(s) =~= s.subrange(0, 4));
        assert(s.subrange(0, 4) =~= s);
    } else {
        assert(byte_at(v, 3) != 0) by {
            assert(v / 0x1000000 >= 1) by (nonlinear_arith)
                requires v >= 0x1000000,
            ;
        }
        assert(trimmed(s) == s);
        assert(s.subrange(0, 4) =~= s);
    }
}

/// Pads a byte array with the filler byte up to a dword boundary.
pub fn to_dword(bytes: &mut Vec<u8>)
    ensures
        final(bytes)@ == padded(old(bytes)@),
        final(bytes)@.len() % 4 == 0,
{
    let pad = bytes.len() % 4;
    if pad != 0 {
        let mut k: usize = 0;
        let ghost orig = bytes@;
        while k < 4 - pad
            invariant
                0 < pad < 4,
                pad == orig.len() % 4,
                k <= 4 - pad,
                bytes@ == orig + Seq::new(k as nat, |i: int| FILLER),
            decreases 4 - pad - k,
        {
            bytes.push(FILLER);
            proof {
                assert(bytes@ =~= orig + Seq::new(k as nat + 1, |i: int| FILLER));
            }
            k = k + 1;
        }
    }
    proof {
        assert(final(bytes)@ =~= padded(old(bytes)@));
    }
}

/// The first dword of a byte array after padding.
pub fn get32(bytes: &Vec<u8>) -> (r: u32)
    requires
        bytes@.len() > 0,
    ensures
        r as int == word4(padded(bytes@)),
{
    let mut work = bytes.clone();
    to_dword(&mut work);
    let b0 = work[0];
    let b1 = work[1];
    let b2 = work[2];
    let b3 = work[3];
    proof {
        lemma_le4_word4(padded(bytes@).subrange(0, 4));
    }
    let r: u32 = b0 as u32 + 0x100 * (b1 as u32) + 0x10000 * (b2 as u32) + 0x1000000 * (b3 as u32);
    assert(r as int == word4(padded(bytes@)));
    r
}

/// Splits a byte array into dwords (padding first), returned in reverse
/// order, ready to be pushed.
pub fn get_dwords(bytes: &Vec<u8>) -> (r: Vec<u32>)
    ensures
        r@ == dwords(bytes@),
{
    let mut work = bytes.clone();
    to_dword(&mut work);
    let n = work.len() / 4;
    let ghost p = padded(bytes@);
    let mut r: Vec<u32> = Vec::new();
    let mut j: usize = 0;
    while j < n
        invariant
            work@ == p,
            p.len() == 4 * n,
            4 * n <= usize::MAX,
            r@.len() == j <= n,
            forall|t: int|
                0 <= t < j ==> r@[t] == word4(p.subrange(4 * (n - 1 - t), 4 * (n - 1 - t) + 4)),
        decreases n - j,
    {
        let base = 4 * (n - 1 - j);
        let b0 = work[base];
        let b1 = work[base + 1];
        let b2 = work[base + 2];
        let b3 = work[base + 3];
        proof {
            lemma_le4_word4(p.subrange(base as int, base as int + 4));
        }
        let w: u32 = b0 as u32 + 0x100 * (b1 as u32) + 0x10000 * (b2 as u32) + 0x1000000 * (
        b3 as u32);
        r.push(w);
        j = j + 1;
    }
    proof {
        assert(p.len() % 4 == 0);
        assert(4 * (p.len() as int / 4) == p.len());
        assert(r@ =~= dwords(bytes@));
    }
    r
}

} // verus!
