//! Binary framing primitives for the profile archive's record format.
//!
//! Every value the store persists is built from four shapes: fixed-width
//! big-endian integers, single-byte booleans, length-prefixed byte strings,
//! and tagged options. Big-endian integers are required so that the
//! lexicographic order of encoded keys agrees with numeric order.

use vstd::prelude::*;
use vstd::arithmetic::div_mod::{
    lemma_fundamental_div_mod_converse_div, lemma_fundamental_div_mod_converse_mod,
};

verus! {

/// Numeric value of eight bytes of `s` starting at `pos`, most significant first.
pub open spec fn be_val_8(s: Seq<u8>, pos: int) -> int {
    s[pos] * 0x100_0000_0000_0000 + s[pos + 1] * 0x1_0000_0000_0000 + s[pos + 2] * 0x100_0000_0000
        + s[pos + 3] * 0x1_0000_0000 + s[pos + 4] * 0x100_0000 + s[pos + 5] * 0x1_0000
        + s[pos + 6] * 0x100 + s[pos + 7]
}

/// Numeric value of four bytes of `s` starting at `pos`, most significant first.
pub open spec fn be_val_4(s: Seq<u8>, pos: int) -> int {
    s[pos] * 0x100_0000 + s[pos + 1] * 0x1_0000 + s[pos + 2] * 0x100 + s[pos + 3]
}

/// Eight-byte big-endian encoding of a 64-bit integer.
pub open spec fn u64_be(v: u64) -> Seq<u8> {
    seq![
        ((v / 0x100_0000_0000_0000) % 0x100) as u8,
        ((v / 0x1_0000_0000_0000) % 0x100) as u8,
        ((v / 0x100_0000_0000) % 0x100) as u8,
        ((v / 0x1_0000_0000) % 0x100) as u8,
        ((v / 0x100_0000) % 0x100) as u8,
        ((v / 0x1_0000) % 0x100) as u8,
        ((v / 0x100) % 0x100) as u8,
        (v % 0x100) as u8,
    ]
}

/// Four-byte big-endian encoding of a 32-bit integer.
pub open spec fn u32_be(v: u32) -> Seq<u8> {
    seq![
        ((v / 0x100_0000) % 0x100) as u8,
        ((v / 0x1_0000) % 0x100) as u8,
        ((v / 0x100) % 0x100) as u8,
        (v % 0x100) as u8,
    ]
}

/// Each quotient by 256 splits off one more low byte.
proof fn lemma_div_chain(x: int, c: int)
    requires
        0 <= x,
        0 < c,
    ensures
        x / c == (x / c / 0x100) * 0x100 + (x / c) % 0x100,
        x / c / 0x100 == x / (c * 0x100),
        0 <= x / c,
{
    vstd::arithmetic::div_mod::lemma_fundamental_div_mod(x / c, 0x100);
    vstd::arithmetic::div_mod::lemma_div_denominator(x, c, 0x100);
    vstd::arithmetic::div_mod::lemma_div_pos_is_pos(x, c);
}

/// The value reconstructed from the encoding of `v` is `v` itself.
pub proof fn lemma_u64_be_val(v: u64)
    ensures
        be_val_8(u64_be(v), 0) == v,
{
    let x = v as int;
    vstd::arithmetic::div_mod::lemma_fundamental_div_mod(x, 0x100);
    lemma_div_chain(x, 0x100);
    lemma_div_chain(x, 0x1_0000);
    lemma_div_chain(x, 0x100_0000);
    lemma_div_chain(x, 0x1_0000_0000);
    lemma_div_chain(x, 0x100_0000_0000);
    lemma_div_chain(x, 0x1_0000_0000_0000);
    assert(x / 0x100_0000_0000_0000 < 0x100);
    assert(x / 0x100_0000_0000_0000 % 0x100 == x / 0x100_0000_0000_0000) by {
        vstd::arithmetic::div_mod::lemma_small_mod(
            (x / 0x100_0000_0000_0000) as nat,
            0x100 as nat,
        );
    }
    assert(x == (x / 0x100_0000_0000_0000) % 0x100 * 0x100_0000_0000_0000 + (x
        / 0x1_0000_0000_0000) % 0x100 * 0x1_0000_0000_0000 + (x / 0x100_0000_0000) % 0x100
        * 0x100_0000_0000 + (x / 0x1_0000_0000) % 0x100 * 0x1_0000_0000 + (x / 0x100_0000) % 0x100
        * 0x100_0000 + (x / 0x1_0000) % 0x100 * 0x1_0000 + (x / 0x100) % 0x100 * 0x100 + x
        % 0x100);
}

/// Encoding the value read from eight bytes reproduces those bytes.
pub proof fn lemma_u64_val_be(s: Seq<u8>, pos: int)
    requires
        0 <= pos,
        pos + 8 <= s.len(),
    ensures
        0 <= be_val_8(s, pos) < 0x1_0000_0000_0000_0000,
        u64_be(be_val_8(s, pos) as u64) == s.subrange(pos, pos + 8),
{
    let b0 = s[pos] as int;
    let b1 = s[pos + 1] as int;
    let b2 = s[pos + 2] as int;
    let b3 = s[pos + 3] as int;
    let b4 = s[pos + 4] as int;
    let b5 = s[pos + 5] as int;
    let b6 = s[pos + 6] as int;
    let b7 = s[pos + 7] as int;
    let v = be_val_8(s, pos);
    assert(v == ((((((b0 * 0x100 + b1) * 0x100 + b2) * 0x100 + b3) * 0x100 + b4) * 0x100 + b5)
        * 0x100 + b6) * 0x100 + b7) by (nonlinear_arith)
        requires
            v == b0 * 0x100_0000_0000_0000 + b1 * 0x1_0000_0000_0000 + b2 * 0x100_0000_0000 + b3
                * 0x1_0000_0000 + b4 * 0x100_0000 + b5 * 0x1_0000 + b6 * 0x100 + b7,
    ;
    lemma_byte_peel(((((((b0 * 0x100 + b1) * 0x100 + b2) * 0x100 + b3) * 0x100 + b4) * 0x100 + b5)
        * 0x100 + b6), b7);
    lemma_byte_peel((((((b0 * 0x100 + b1) * 0x100 + b2) * 0x100 + b3) * 0x100 + b4) * 0x100 + b5),
        b6);
    lemma_byte_peel(((((b0 * 0x100 + b1) * 0x100 + b2) * 0x100 + b3) * 0x100 + b4), b5);
    lemma_byte_peel((((b0 * 0x100 + b1) * 0x100 + b2) * 0x100 + b3), b4);
    lemma_byte_peel(((b0 * 0x100 + b1) * 0x100 + b2), b3);
    lemma_byte_peel((b0 * 0x100 + b1), b2);
    lemma_byte_peel(b0, b1);
    assert(u64_be(v as u64) =~= s.subrange(pos, pos + 8));
}

/// The value reconstructed from the encoding of `v` is `v` itself.
pub proof fn lemma_u32_be_val(v: u32)
    ensures
        be_val_4(u32_be(v), 0) == v,
{
    let s = u32_be(v);
    assert(be_val_4(s, 0) == v) by (nonlinear_arith)
        requires
            be_val_4(s, 0) == (v / 0x100_0000) % 0x100 * 0x100_0000 + (v / 0x1_0000) % 0x100
                * 0x1_0000 + (v / 0x100) % 0x100 * 0x100 + v % 0x100,
    ;
}

/// Encoding the value read from four bytes reproduces those bytes.
pub proof fn lemma_u32_val_be(s: Seq<u8>, pos: int)
    requires
        0 <= pos,
        pos + 4 <= s.len(),
    ensures
        0 <= be_val_4(s, pos) < 0x1_0000_0000,
        u32_be(be_val_4(s, pos) as u32) == s.subrange(pos, pos + 4),
{
    let b0 = s[pos] as int;
    let b1 = s[pos + 1] as int;
    let b2 = s[pos + 2] as int;
    let b3 = s[pos + 3] as int;
    let v = be_val_4(s, pos);
    assert(v == ((b0 * 0x100 + b1) * 0x100 + b2) * 0x100 + b3) by (nonlinear_arith)
        requires
            v == b0 * 0x100_0000 + b1 * 0x1_0000 + b2 * 0x100 + b3,
    ;
    lemma_byte_peel((b0 * 0x100 + b1) * 0x100 + b2, b3);
    lemma_byte_peel(b0 * 0x100 + b1, b2);
    lemma_byte_peel(b0, b1);
    assert(u32_be(v as u32) =~= s.subrange(pos, pos + 4));
}

/// Appending one low byte to a value keeps the high part recoverable by
/// division and the byte by remainder.
proof fn lemma_byte_peel(hi: int, lo: int)
    requires
        0 <= hi,
        0 <= lo < 0x100,
    ensures
        (hi * 0x100 + lo) / 0x100 == hi,
        (hi * 0x100 + lo) % 0x100 == lo,
{
    lemma_fundamental_div_mod_converse_div(hi * 0x100 + lo, 0x100, hi, lo);
    lemma_fundamental_div_mod_converse_mod(hi * 0x100 + lo, 0x100, hi, lo);
}

/// Appends the eight big-endian bytes of `v` to `out`.
pub fn write_u64_be(v: u64, out: &mut Vec<u8>)
    ensures
        final(out)@ == old(out)@ + u64_be(v),
{
    out.push(((v / 0x100_0000_0000_0000) % 0x100) as u8);
    out.push(((v / 0x1_0000_0000_0000) % 0x100) as u8);
    out.push(((v / 0x100_0000_0000) % 0x100) as u8);
    out.push(((v / 0x1_0000_0000) % 0x100) as u8);
    out.push(((v / 0x100_0000) % 0x100) as u8);
    out.push(((v / 0x1_0000) % 0x100) as u8);
    out.push(((v / 0x100) % 0x100) as u8);
    out.push((v % 0x100) as u8);
    proof {
        assert(out@ =~= old(out)@ + u64_be(v));
    }
}

/// Appends the four big-endian bytes of `v` to `out`.
pub fn write_u32_be(v: u32, out: &mut Vec<u8>)
    ensures
        final(out)@ == old(out)@ + u32_be(v),
{
    out.push(((v / 0x100_0000) % 0x100) as u8);
    out.push(((v / 0x1_0000) % 0x100) as u8);
    out.push(((v / 0x100) % 0x100) as u8);
    out.push((v % 0x100) as u8);
    proof {
        assert(out@ =~= old(out)@ + u32_be(v));
    }
}

/// Reads eight big-endian bytes at `pos`; fails only when fewer than eight
/// bytes remain.
pub fn parse_u64_be(s: &[u8], pos: usize) -> (r: Option<(u64, usize)>)
    ensures
        r is Some <==> pos + 8 <= s@.len(),
        r matches Some((v, end)) ==> end == pos + 8 && v == be_val_8(s@, pos as int),
{
    if s.len() < 8 || pos > s.len() - 8 {
        return None;
    }
    proof {
        lemma_u64_val_be(s@, pos as int);
    }
    let v: u64 = (s[pos] as u64) * 0x100_0000_0000_0000 + (s[pos + 1] as u64) * 0x1_0000_0000_0000
        + (s[pos + 2] as u64) * 0x100_0000_0000 + (s[pos + 3] as u64) * 0x1_0000_0000 + (s[pos
        + 4] as u64) * 0x100_0000 + (s[pos + 5] as u64) * 0x1_0000 + (s[pos + 6] as u64) * 0x100
        + (s[pos + 7] as u64);
    Some((v, pos + 8))
}

/// Reads four big-endian bytes at `pos`; fails only when fewer than four
/// bytes remain.
pub fn parse_u32_be(s: &[u8], pos: usize) -> (r: Option<(u32, usize)>)
    ensures
        r is Some <==> pos + 4 <= s@.len(),
        r matches Some((v, end)) ==> end == pos + 4 && v == be_val_4(s@, pos as int),
{
    if s.len() < 4 || pos > s.len() - 4 {
        return None;
    }
    proof {
        lemma_u32_val_be(s@, pos as int);
    }
    let v: u32 = (s[pos] as u32) * 0x100_0000 + (s[pos + 1] as u32) * 0x1_0000 + (s[pos
        + 2] as u32) * 0x100 + (s[pos + 3] as u32);
    Some((v, pos + 4))
}

/// Reads an eight-byte big-endian integer.
pub open spec fn rd_u64(s: Seq<u8>, pos: int) -> Option<(u64, int)> {
    if 0 <= pos && pos + 8 <= s.len() {
        Some((be_val_8(s, pos) as u64, pos + 8))
    } else {
        None
    }
}

/// Reads a four-byte big-endian integer.
pub open spec fn rd_u32(s: Seq<u8>, pos: int) -> Option<(u32, int)> {
    if 0 <= pos && pos + 4 <= s.len() {
        Some((be_val_4(s, pos) as u32, pos + 4))
    } else {
        None
    }
}

pub proof fn lemma_rd_u64_sound(s: Seq<u8>, pos: int)
    requires
        rd_u64(s, pos) is Some,
    ensures
        ({
            let (v, end) = rd_u64(s, pos)->Some_0;
            pos <= end <= s.len() && s.subrange(pos, end) == u64_be(v)
        }),
{
    lemma_u64_val_be(s, pos);
}

pub proof fn lemma_rd_u64_complete(s: Seq<u8>, pos: int, v: u64)
    requires
        0 <= pos,
        pos + 8 <= s.len(),
        s.subrange(pos, pos + 8) == u64_be(v),
    ensures
        rd_u64(s, pos) == Some((v, pos + 8)),
{
    lemma_u64_be_val(v);
    assert(be_val_8(s, pos) == be_val_8(s.subrange(pos, pos + 8), 0)) by {
        assert(forall|i: int| 0 <= i < 8 ==> #[trigger] s.subrange(pos, pos + 8)[i] == s[pos + i]);
    }
}

pub proof fn lemma_rd_u32_sound(s: Seq<u8>, pos: int)
    requires
        rd_u32(s, pos) is Some,
    ensures
        ({
            let (v, end) = rd_u32(s, pos)->Some_0;
            pos <= end <= s.len() && s.subrange(pos, end) == u32_be(v)
        }),
{
    lemma_u32_val_be(s, pos);
}

pub proof fn lemma_rd_u32_complete(s: Seq<u8>, pos: int, v: u32)
    requires
        0 <= pos,
        pos + 4 <= s.len(),
        s.subrange(pos, pos + 4) == u32_be(v),
    ensures
        rd_u32(s, pos) == Some((v, pos + 4)),
{
    lemma_u32_be_val(v);
    assert(be_val_4(s, pos) == be_val_4(s.subrange(pos, pos + 4), 0)) by {
        assert(forall|i: int| 0 <= i < 4 ==> #[trigger] s.subrange(pos, pos + 4)[i] == s[pos + i]);
    }
}

/// One-byte encoding of a boolean.
pub open spec fn enc_bool(b: bool) -> Seq<u8> {
    seq![if b { 1u8 } else { 0u8 }]
}

/// Reads a boolean byte; any byte other than 0 or 1 is malformed.
pub open spec fn rd_bool(s: Seq<u8>, pos: int) -> Option<(bool, int)> {
    if 0 <= pos && pos + 1 <= s.len() {
        if s[pos] == 1u8 {
            Some((true, pos + 1))
        } else if s[pos] == 0u8 {
            Some((false, pos + 1))
        } else {
            None
        }
    } else {
        None
    }
}

pub proof fn lemma_rd_bool_sound(s: Seq<u8>, pos: int)
    requires
        rd_bool(s, pos) is Some,
    ensures
        ({
            let (v, end) = rd_bool(s, pos)->Some_0;
            pos <= end <= s.len() && s.subrange(pos, end) == enc_bool(v)
        }),
{
    let (v, end) = rd_bool(s, pos)->Some_0;
    assert(s.subrange(pos, end) =~= enc_bool(v));
}

pub proof fn lemma_rd_bool_complete(s: Seq<u8>, pos: int, v: bool)
    requires
        0 <= pos,
        pos + 1 <= s.len(),
        s.subrange(pos, pos + 1) == enc_bool(v),
    ensures
        rd_bool(s, pos) == Some((v, pos + 1)),
{
    assert(s[pos] == enc_bool(v)[0]);
}

/// Writes the boolean byte.
pub fn write_bool(b: bool, out: &mut Vec<u8>)
    ensures
        final(out)@ == old(out)@ + enc_bool(b),
{
    out.push(if b { 1u8 } else { 0u8 });
    proof {
        assert(out@ =~= old(out)@ + enc_bool(b));
    }
}

/// Reads a boolean byte, mirroring [`rd_bool`].
pub fn parse_bool(s: &[u8], pos: usize) -> (r: Option<(bool, usize)>)
    ensures
        r is Some <==> rd_bool(s@, pos as int) is Some,
        r matches Some((v, end)) ==> Some((v, end as int)) == rd_bool(s@, pos as int),
{
    if pos >= s.len() {
        return None;
    }
    let b = s[pos];
    if b == 1 {
        Some((true, pos + 1))
    } else if b == 0 {
        Some((false, pos + 1))
    } else {
        None
    }
}

/// Whether a byte string fits the four-byte length prefix.
pub open spec fn wf_bytes(s: Seq<u8>) -> bool {
    s.len() <= 0xFFFF_FFFF
}

/// Length-prefixed byte string: four-byte big-endian length, then the bytes.
pub open spec fn enc_bytes(s: Seq<u8>) -> Seq<u8> {
    u32_be(s.len() as u32) + s
}

/// Reads a length-prefixed byte string.
pub open spec fn rd_bytes(s: Seq<u8>, pos: int) -> Option<(Seq<u8>, int)> {
    if 0 <= pos && pos + 4 <= s.len() {
        let n = be_val_4(s, pos);
        if pos + 4 + n <= s.len() {
            Some((s.subrange(pos + 4, pos + 4 + n), pos + 4 + n))
        } else {
            None
        }
    } else {
        None
    }
}

pub proof fn lemma_rd_bytes_sound(s: Seq<u8>, pos: int)
    requires
        rd_bytes(s, pos) is Some,
    ensures
        ({
            let (v, end) = rd_bytes(s, pos)->Some_0;
            pos <= end <= s.len() && s.subrange(pos, end) == enc_bytes(v) && wf_bytes(v) && end
                == pos + 4 + v.len()
        }),
{
    let (v, end) = rd_bytes(s, pos)->Some_0;
    let n = be_val_4(s, pos);
    lemma_u32_val_be(s, pos);
    assert(s.subrange(pos, end) =~= enc_bytes(v));
}

pub proof fn lemma_rd_bytes_complete(s: Seq<u8>, pos: int, v: Seq<u8>)
    requires
        0 <= pos,
        wf_bytes(v),
        pos + 4 + v.len() <= s.len(),
        s.subrange(pos, pos + 4 + v.len()) == enc_bytes(v),
    ensures
        rd_bytes(s, pos) == Some((v, pos + 4 + v.len())),
{
    let n = v.len() as int;
    assert(s.subrange(pos, pos + 4) =~= enc_bytes(v).subrange(0, 4));
    assert(enc_bytes(v).subrange(0, 4) =~= u32_be(v.len() as u32));
    lemma_u32_be_val(v.len() as u32);
    assert(be_val_4(u32_be(v.len() as u32), 0) == n);
    assert(be_val_4(s, pos) == be_val_4(s.subrange(pos, pos + 4), 0));
    assert(be_val_4(s, pos) == n);
    assert forall|i: int| 0 <= i < n implies s[pos + 4 + i] == v[i] by {
        assert(s.subrange(pos, pos + 4 + n)[4 + i] == s[pos + 4 + i]);
        assert(enc_bytes(v)[4 + i] == v[i]);
    }
    assert(s.subrange(pos + 4, pos + 4 + n) =~= v);
}

/// Writes a length-prefixed byte string.
pub fn write_bytes(v: &Vec<u8>, out: &mut Vec<u8>)
    requires
        wf_bytes(v@),
    ensures
        final(out)@ == old(out)@ + enc_bytes(v@),
{
    write_u32_be(v.len() as u32, out);
    let ghost mid = out@;
    let mut i: usize = 0;
    while i < v.len()
        invariant
            0 <= i <= v.len(),
            out@ == mid + v@.subrange(0, i as int),
        decreases v.len() - i,
    {
        out.push(v[i]);
        i = i + 1;
        proof {
            assert(out@ =~= mid + v@.subrange(0, i as int));
        }
    }
    proof {
        assert(v@.subrange(0, v@.len() as int) =~= v@);
        assert(out@ =~= old(out)@ + enc_bytes(v@));
    }
}

/// Reads a length-prefixed byte string, mirroring [`rd_bytes`].
pub fn parse_bytes(s: &[u8], pos: usize) -> (r: Option<(Vec<u8>, usize)>)
    ensures
        r is Some <==> rd_bytes(s@, pos as int) is Some,
        r matches Some((v, end)) ==> Some((v@, end as int)) == rd_bytes(s@, pos as int),
{
    let (n, start) = match parse_u32_be(s, pos) {
        Some(x) => x,
        None => {
            return None;
        },
    };
    let n = n as usize;
    if n > s.len() - start {
        return None;
    }
    let end = start + n;
    let mut v: Vec<u8> = Vec::new();
    let mut i: usize = start;
    while i < end
        invariant
            start <= i <= end <= s@.len(),
            v@ == s@.subrange(start as int, i as int),
        decreases end - i,
    {
        v.push(s[i]);
        i = i + 1;
        proof {
            assert(v@ =~= s@.subrange(start as int, i as int));
        }
    }
    Some((v, end))
}

/// Whether an optional byte string is encodable.
pub open spec fn wf_opt_bytes(o: Option<Seq<u8>>) -> bool {
    o matches Some(s) ==> wf_bytes(s)
}

/// Tagged option: a zero byte for absent, a one byte and the payload for present.
pub open spec fn enc_opt_bytes(o: Option<Seq<u8>>) -> Seq<u8> {
    match o {
        None => seq![0u8],
        Some(s) => seq![1u8] + enc_bytes(s),
    }
}

/// Reads a tagged optional byte string.
pub open spec fn rd_opt_bytes(s: Seq<u8>, pos: int) -> Option<(Option<Seq<u8>>, int)> {
    match rd_bool(s, pos) {
        None => None,
        Some((present, p1)) => {
            if present {
                match rd_bytes(s, p1) {
                    None => None,
                    Some((v, end)) => Some((Some(v), end)),
                }
            } else {
                Some((None, p1))
            }
        },
    }
}

pub proof fn lemma_rd_opt_bytes_sound(s: Seq<u8>, pos: int)
    requires
        rd_opt_bytes(s, pos) is Some,
    ensures
        ({
            let (v, end) = rd_opt_bytes(s, pos)->Some_0;
            pos <= end <= s.len() && s.subrange(pos, end) == enc_opt_bytes(v) && wf_opt_bytes(v)
        }),
{
    let (v, end) = rd_opt_bytes(s, pos)->Some_0;
    let (present, p1) = rd_bool(s, pos)->Some_0;
    lemma_rd_bool_sound(s, pos);
    if present {
        lemma_rd_bytes_sound(s, p1);
        let (b, _) = rd_bytes(s, p1)->Some_0;
        assert(s.subrange(pos, end) =~= s.subrange(pos, p1) + s.subrange(p1, end));
        assert(s.subrange(pos, end) =~= enc_opt_bytes(v));
    } else {
        assert(s.subrange(pos, end) =~= enc_opt_bytes(v));
    }
}

pub proof fn lemma_rd_opt_bytes_complete(s: Seq<u8>, pos: int, o: Option<Seq<u8>>)
    requires
        0 <= pos,
        wf_opt_bytes(o),
        pos + enc_opt_bytes(o).len() <= s.len(),
        s.subrange(pos, pos + enc_opt_bytes(o).len()) == enc_opt_bytes(o),
    ensures
        rd_opt_bytes(s, pos) == Some((o, pos + enc_opt_bytes(o).len())),
{
    let e = enc_opt_bytes(o);
    assert(s[pos] == e[0]);
    match o {
        None => {
            assert(rd_bool(s, pos) == Some((false, pos + 1)));
        },
        Some(v) => {
            assert(rd_bool(s, pos) == Some((true, pos + 1)));
            assert forall|i: int| 0 <= i < 4 + v.len() implies s[pos + 1 + i] == enc_bytes(v)[i] by {
                assert(s.subrange(pos, pos + e.len() as int)[1 + i] == s[pos + 1 + i]);
                assert(e[1 + i] == enc_bytes(v)[i]);
            }
            assert(s.subrange(pos + 1, pos + 1 + (4 + v.len())) =~= enc_bytes(v));
            lemma_rd_bytes_complete(s, pos + 1, v);
        },
    }
}

/// Writes a tagged optional byte string.
pub fn write_opt_bytes(o: &Option<Vec<u8>>, out: &mut Vec<u8>)
    requires
        wf_opt_bytes(match o {
            Some(v) => Some(v@),
            None => None,
        }),
    ensures
        final(out)@ == old(out)@ + enc_opt_bytes(
            match o {
                Some(v) => Some(v@),
                None => None,
            },
        ),
{
    match o {
        None => {
            write_bool(false, out);
        },
        Some(v) => {
            write_bool(true, out);
            write_bytes(v, out);
            proof {
                assert(out@ =~= old(out)@ + enc_opt_bytes(Some(v@)));
            }
        },
    }
}

/// Reads a tagged optional byte string, mirroring [`rd_opt_bytes`].
pub fn parse_opt_bytes(s: &[u8], pos: usize) -> (r: Option<(Option<Vec<u8>>, usize)>)
    ensures
        r is Some <==> rd_opt_bytes(s@, pos as int) is Some,
        r matches Some((v, end)) ==> Some(
            (
                match v {
                    Some(b) => Some(b@),
                    None => None,
                },
                end as int,
            ),
        ) == rd_opt_bytes(s@, pos as int),
{
    let (present, p1) = match parse_bool(s, pos) {
        Some(x) => x,
        None => {
            return None;
        },
    };
    if present {
        match parse_bytes(s, p1) {
            Some((v, end)) => Some((Some(v), end)),
            None => None,
        }
    } else {
        Some((None, p1))
    }
}

/// A range of a sequence splits at any interior point.
pub proof fn lemma_subrange_split(s: Seq<u8>, a: int, b: int, c: int)
    requires
        0 <= a <= b <= c <= s.len(),
    ensures
        s.subrange(a, c) == s.subrange(a, b) + s.subrange(b, c),
{
    assert(s.subrange(a, c) =~= s.subrange(a, b) + s.subrange(b, c));
}

/// When a range of `s` equals a concatenation, each part is recovered by
/// the corresponding subrange.
pub proof fn lemma_prefix_parts(s: Seq<u8>, pos: int, e1: Seq<u8>, e2: Seq<u8>)
    requires
        0 <= pos,
        pos + e1.len() + e2.len() <= s.len(),
        s.subrange(pos, pos + e1.len() + e2.len()) == e1 + e2,
    ensures
        s.subrange(pos, pos + e1.len()) == e1,
        s.subrange(pos + e1.len(), pos + e1.len() + e2.len()) == e2,
{
    let whole = s.subrange(pos, pos + e1.len() + e2.len());
    assert forall|i: int| 0 <= i < e1.len() implies s[pos + i] == e1[i] by {
        assert(whole[i] == s[pos + i]);
        assert((e1 + e2)[i] == e1[i]);
    }
    assert forall|i: int| 0 <= i < e2.len() implies s[pos + e1.len() + i] == e2[i] by {
        assert(whole[e1.len() + i] == s[pos + e1.len() + i]);
        assert((e1 + e2)[e1.len() + i] == e2[i]);
    }
    assert(s.subrange(pos, pos + e1.len()) =~= e1);
    assert(s.subrange(pos + e1.len(), pos + e1.len() + e2.len()) =~= e2);
}

/// Whether a list of byte strings is encodable.
pub open spec fn wf_bytes_list(l: Seq<Seq<u8>>) -> bool {
    l.len() <= 0xFFFF_FFFF && forall|i: int| 0 <= i < l.len() ==> wf_bytes(#[trigger] l[i])
}

/// Body of a list: each element as a length-prefixed byte string, in order.
pub open spec fn enc_bytes_list(l: Seq<Seq<u8>>) -> Seq<u8>
    decreases l.len(),
{
    if l.len() == 0 {
        Seq::empty()
    } else {
        enc_bytes(l[0]) + enc_bytes_list(l.skip(1))
    }
}

/// Counted list: four-byte big-endian element count, then the elements.
pub open spec fn enc_vec_bytes(l: Seq<Seq<u8>>) -> Seq<u8> {
    u32_be(l.len() as u32) + enc_bytes_list(l)
}

/// Reads `n` length-prefixed byte strings.
pub open spec fn rd_bytes_list(s: Seq<u8>, pos: int, n: nat) -> Option<(Seq<Seq<u8>>, int)>
    decreases n,
{
    if n == 0 {
        Some((Seq::empty(), pos))
    } else {
        match rd_bytes(s, pos) {
            None => None,
            Some((v, p1)) => match rd_bytes_list(s, p1, (n - 1) as nat) {
                None => None,
                Some((rest, end)) => Some((seq![v] + rest, end)),
            },
        }
    }
}

/// Reads a counted list of byte strings.
pub open spec fn rd_vec_bytes(s: Seq<u8>, pos: int) -> Option<(Seq<Seq<u8>>, int)> {
    if 0 <= pos && pos + 4 <= s.len() {
        rd_bytes_list(s, pos + 4, be_val_4(s, pos) as nat)
    } else {
        None
    }
}

/// Concatenating lists concatenates their encodings.
pub proof fn lemma_enc_bytes_list_add(a: Seq<Seq<u8>>, b: Seq<Seq<u8>>)
    ensures
        enc_bytes_list(a + b) == enc_bytes_list(a) + enc_bytes_list(b),
    decreases a.len(),
{
    if a.len() == 0 {
        assert(a + b =~= b);
        assert(enc_bytes_list(a) + enc_bytes_list(b) =~= enc_bytes_list(b));
    } else {
        lemma_enc_bytes_list_add(a.skip(1), b);
        assert((a + b).skip(1) =~= a.skip(1) + b);
        assert(enc_bytes_list(a + b) =~= enc_bytes_list(a) + enc_bytes_list(b));
    }
}

pub proof fn lemma_rd_bytes_list_sound(s: Seq<u8>, pos: int, n: nat)
    requires
        rd_bytes_list(s, pos, n) is Some,
        0 <= pos <= s.len(),
    ensures
        ({
            let (l, end) = rd_bytes_list(s, pos, n)->Some_0;
            pos <= end <= s.len() && l.len() == n && s.subrange(pos, end) == enc_bytes_list(l)
                && (forall|i: int| 0 <= i < l.len() ==> wf_bytes(#[trigger] l[i]))
        }),
    decreases n,
{
    let (l, end) = rd_bytes_list(s, pos, n)->Some_0;
    if n == 0 {
        assert(s.subrange(pos, end) =~= enc_bytes_list(l));
    } else {
        let (v, p1) = rd_bytes(s, pos)->Some_0;
        lemma_rd_bytes_sound(s, pos);
        lemma_rd_bytes_list_sound(s, p1, (n - 1) as nat);
        let (rest, _) = rd_bytes_list(s, p1, (n - 1) as nat)->Some_0;
        lemma_subrange_split(s, pos, p1, end);
        assert((seq![v] + rest).skip(1) =~= rest);
        assert(s.subrange(pos, end) =~= enc_bytes_list(l));
    }
}

pub proof fn lemma_rd_bytes_list_complete(s: Seq<u8>, pos: int, l: Seq<Seq<u8>>)
    requires
        0 <= pos,
        forall|i: int| 0 <= i < l.len() ==> wf_bytes(#[trigger] l[i]),
        pos + enc_bytes_list(l).len() <= s.len(),
        s.subrange(pos, pos + enc_bytes_list(l).len()) == enc_bytes_list(l),
    ensures
        rd_bytes_list(s, pos, l.len()) == Some((l, pos + enc_bytes_list(l).len())),
    decreases l.len(),
{
    if l.len() == 0 {
        assert(rd_bytes_list(s, pos, 0) == Some((Seq::<Seq<u8>>::empty(), pos)));
        assert(l =~= Seq::<Seq<u8>>::empty());
    } else {
        let e1 = enc_bytes(l[0]);
        let e2 = enc_bytes_list(l.skip(1));
        lemma_prefix_parts(s, pos, e1, e2);
        lemma_rd_bytes_complete(s, pos, l[0]);
        lemma_rd_bytes_list_complete(s, pos + e1.len(), l.skip(1));
        assert(seq![l[0]] + l.skip(1) =~= l);
    }
}

pub proof fn lemma_rd_vec_bytes_sound(s: Seq<u8>, pos: int)
    requires
        rd_vec_bytes(s, pos) is Some,
    ensures
        ({
            let (l, end) = rd_vec_bytes(s, pos)->Some_0;
            pos <= end <= s.len() && s.subrange(pos, end) == enc_vec_bytes(l) && wf_bytes_list(l)
        }),
{
    let (l, end) = rd_vec_bytes(s, pos)->Some_0;
    let n = be_val_4(s, pos) as nat;
    lemma_rd_bytes_list_sound(s, pos + 4, n);
    lemma_u32_val_be(s, pos);
    assert(u32_be(l.len() as u32) =~= s.subrange(pos, pos + 4));
    lemma_subrange_split(s, pos, pos + 4, end);
}

pub proof fn lemma_rd_vec_bytes_complete(s: Seq<u8>, pos: int, l: Seq<Seq<u8>>)
    requires
        0 <= pos,
        wf_bytes_list(l),
        pos + enc_vec_bytes(l).len() <= s.len(),
        s.subrange(pos, pos + enc_vec_bytes(l).len()) == enc_vec_bytes(l),
    ensures
        rd_vec_bytes(s, pos) == Some((l, pos + enc_vec_bytes(l).len())),
{
    let e1 = u32_be(l.len() as u32);
    let e2 = enc_bytes_list(l);
    lemma_prefix_parts(s, pos, e1, e2);
    lemma_u32_be_val(l.len() as u32);
    assert(be_val_4(s, pos) == be_val_4(s.subrange(pos, pos + 4), 0));
    assert(be_val_4(s, pos) == l.len());
    lemma_rd_bytes_list_complete(s, pos + 4, l);
}

/// Writes a counted list of byte strings.
pub fn write_vec_bytes(v: &Vec<Vec<u8>>, out: &mut Vec<u8>)
    requires
        wf_bytes_list(v.deep_view()),
    ensures
        final(out)@ == old(out)@ + enc_vec_bytes(v.deep_view()),
{
    write_u32_be(v.len() as u32, out);
    let ghost mid = out@;
    let ghost l = v.deep_view();
    let mut i: usize = 0;
    while i < v.len()
        invariant
            0 <= i <= v.len(),
            l == v.deep_view(),
            l.len() == v.len(),
            wf_bytes_list(l),
            out@ == mid + enc_bytes_list(l.subrange(0, i as int)),
        decreases v.len() - i,
    {
        proof {
            assert(l[i as int] =~= v@[i as int]@);
        }
        write_bytes(&v[i], out);
        proof {
            assert(l.subrange(0, i + 1) =~= l.subrange(0, i as int) + seq![l[i as int]]);
            lemma_enc_bytes_list_add(l.subrange(0, i as int), seq![l[i as int]]);
            assert(seq![l[i as int]].skip(1) =~= Seq::<Seq<u8>>::empty());
            assert(enc_bytes_list(Seq::<Seq<u8>>::empty()) == Seq::<u8>::empty());
            assert(enc_bytes_list(seq![l[i as int]]) =~= enc_bytes(l[i as int]));
            assert(out@ =~= mid + enc_bytes_list(l.subrange(0, i + 1)));
        }
        i = i + 1;
    }
    proof {
        assert(l.subrange(0, l.len() as int) =~= l);
        assert(out@ =~= old(out)@ + enc_vec_bytes(l));
    }
}

/// Reads a counted list of byte strings, mirroring [`rd_vec_bytes`].
pub fn parse_vec_bytes(s: &[u8], pos: usize) -> (r: Option<(Vec<Vec<u8>>, usize)>)
    ensures
        r is Some <==> rd_vec_bytes(s@, pos as int) is Some,
        r matches Some((v, end)) ==> Some((v.deep_view(), end as int)) == rd_vec_bytes(
            s@,
            pos as int,
        ),
{
    let (n, start) = match parse_u32_be(s, pos) {
        Some(x) => x,
        None => {
            return None;
        },
    };
    let ghost n_spec = be_val_4(s@, pos as int) as nat;
    let mut acc: Vec<Vec<u8>> = Vec::new();
    let mut cur: usize = start;
    let mut i: u32 = 0;
    proof {
        let spec0 = rd_bytes_list(s@, start as int, n_spec);
        if spec0 is Some {
            let (rest, e) = spec0->Some_0;
            assert(acc.deep_view() + rest =~~= rest);
        }
    }
    while i < n
        invariant
            0 <= i <= n,
            pos + 4 <= s@.len(),
            start == pos + 4,
            n_spec == n,
            n_spec == be_val_4(s@, pos as int) as nat,
            cur <= s@.len(),
            acc.deep_view().len() == i,
            rd_bytes_list(s@, start as int, n_spec) == (match rd_bytes_list(
                s@,
                cur as int,
                (n - i) as nat,
            ) {
                Some((rest, e)) => Some((acc.deep_view() + rest, e)),
                None => None::<(Seq<Seq<u8>>, int)>,
            }),
        decreases n - i,
    {
        match parse_bytes(s, cur) {
            None => {
                proof {
                    assert(rd_bytes_list(s@, cur as int, (n - i) as nat) is None);
                }
                return None;
            },
            Some((v, next)) => {
                proof {
                    lemma_rd_bytes_sound(s@, cur as int);
                    let (rest_opt) = rd_bytes_list(s@, next as int, (n - i - 1) as nat);
                    if rest_opt is Some {
                        let (rest, e) = rest_opt->Some_0;
                        assert(acc.deep_view() + (seq![v@] + rest) =~~= (acc.deep_view().push(v@))
                            + rest);
                    }
                }
                let ghost old_acc = acc.deep_view();
                acc.push(v);
                proof {
                    assert(acc.deep_view() =~~= old_acc.push(v@));
                }
                cur = next;
                i = i + 1;
            },
        }
    }
    proof {
        assert(rd_bytes_list(s@, cur as int, 0) == Some((Seq::<Seq<u8>>::empty(), cur as int)));
        assert(acc.deep_view() + Seq::<Seq<u8>>::empty() =~~= acc.deep_view());
    }
    Some((acc, cur))
}


/// Reassociates a chain of ten appended pieces into nested form.
pub proof fn lemma_assoc_10(
    a: Seq<u8>,
    e1: Seq<u8>,
    e2: Seq<u8>,
    e3: Seq<u8>,
    e4: Seq<u8>,
    e5: Seq<u8>,
    e6: Seq<u8>,
    e7: Seq<u8>,
    e8: Seq<u8>,
    e9: Seq<u8>,
    e10: Seq<u8>,
)
    ensures
        a + e1 + e2 + e3 + e4 + e5 + e6 + e7 + e8 + e9 + e10 == a + (e1 + (e2 + (e3 + (e4 + (e5 + (
        e6 + (e7 + (e8 + (e9 + e10))))))))),
{
    assert(a + e1 + e2 + e3 + e4 + e5 + e6 + e7 + e8 + e9 + e10 =~= a + (e1 + (e2 + (e3 + (e4 + (e5
        + (e6 + (e7 + (e8 + (e9 + e10))))))))));
}

} // verus!
