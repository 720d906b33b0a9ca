//! Decimal numbers and separator-delimited fields, as the line formats of
//! the deactivation log and the id files use them.

use vstd::prelude::*;

verus! {

/// Whether every byte of `s` is an ASCII digit and there is at least one.
pub open spec fn is_digits(s: Seq<u8>) -> bool {
    s.len() > 0 && forall|i: int| 0 <= i < s.len() ==> 48 <= #[trigger] s[i] <= 57
}

/// Numeric value of a digit string, most significant digit first.
pub open spec fn dec_val(s: Seq<u8>) -> int
    decreases s.len(),
{
    if s.len() == 0 {
        0
    } else {
        dec_val(s.take(s.len() - 1)) * 10 + (s.last() - 48)
    }
}

/// A digit string denotes a 64-bit value.
pub open spec fn valid_u64_dec(s: Seq<u8>) -> bool {
    is_digits(s) && dec_val(s) <= u64::MAX
}

/// Canonical decimal digits of a 64-bit value, no leading zero except for
/// zero itself.
pub open spec fn dec_repr(v: u64) -> Seq<u8>
    decreases v,
{
    if v < 10 {
        seq![(48 + v) as u8]
    } else {
        dec_repr(v / 10) + seq![(48 + v % 10) as u8]
    }
}

/// Appending a digit multiplies the value by ten and adds the digit.
pub proof fn lemma_dec_val_push(s: Seq<u8>, d: u8)
    ensures
        dec_val(s.push(d)) == dec_val(s) * 10 + (d - 48),
{
    assert(s.push(d).take(s.push(d).len() - 1) =~= s);
    assert(s.push(d).last() == d);
}

/// A longer digit string never denotes a smaller value.
pub proof fn lemma_dec_val_prefix(s: Seq<u8>, n: int)
    requires
        0 <= n <= s.len(),
        forall|i: int| 0 <= i < s.len() ==> 48 <= #[trigger] s[i] <= 57,
    ensures
        dec_val(s) >= dec_val(s.take(n)),
        dec_val(s) >= 0,
    decreases s.len() - n,
{
    if n == s.len() {
        assert(s.take(n) =~= s);
        lemma_dec_val_nonneg(s);
    } else {
        lemma_dec_val_prefix(s, n + 1);
        assert(s.take(n + 1).take(n) =~= s.take(n));
        assert(s.take(n + 1) =~= s.take(n).push(s[n]));
        lemma_dec_val_push(s.take(n), s[n]);
        lemma_dec_val_nonneg(s.take(n));
        assert(dec_val(s.take(n + 1)) >= dec_val(s.take(n)));
    }
}

pub proof fn lemma_dec_val_nonneg(s: Seq<u8>)
    requires
        forall|i: int| 0 <= i < s.len() ==> 48 <= #[trigger] s[i] <= 57,
    ensures
        dec_val(s) >= 0,
    decreases s.len(),
{
    if s.len() > 0 {
        assert(forall|i: int|
            0 <= i < s.take(s.len() - 1).len() ==> 48 <= #[trigger] s.take(s.len() - 1)[i] <= 57);
        lemma_dec_val_nonneg(s.take(s.len() - 1));
    }
}

/// The canonical digits of a value denote that value.
pub proof fn lemma_dec_repr_val(v: u64)
    ensures
        is_digits(dec_repr(v)),
        dec_val(dec_repr(v)) == v,
    decreases v,
{
    if v < 10 {
        let s = dec_repr(v);
        assert(s.take(s.len() - 1) =~= Seq::<u8>::empty());
        assert(dec_val(Seq::<u8>::empty()) == 0);
    } else {
        lemma_dec_repr_val(v / 10);
        let a = dec_repr(v / 10);
        let d = (48 + v % 10) as u8;
        assert(dec_repr(v) =~= a.push(d));
        lemma_dec_val_push(a, d);
        assert(dec_val(dec_repr(v)) == (v / 10) * 10 + v % 10);
        assert((v / 10) * 10 + v % 10 == v) by {
            vstd::arithmetic::div_mod::lemma_fundamental_div_mod(v as int, 10);
        }
    }
}

/// Parses an unsigned decimal; fails on anything but digits denoting a
/// 64-bit value.
pub fn parse_u64_dec(s: &[u8]) -> (r: Option<u64>)
    ensures
        r is Some <==> valid_u64_dec(s@),
        r matches Some(v) ==> v == dec_val(s@),
{
    if s.len() == 0 {
        return None;
    }
    let mut acc: u64 = 0;
    let mut i: usize = 0;
    while i < s.len()
        invariant
            0 <= i <= s.len(),
            forall|j: int| 0 <= j < i ==> 48 <= #[trigger] s@[j] <= 57,
            acc == dec_val(s@.take(i as int)),
        decreases s.len() - i,
    {
        let b = s[i];
        if b < 48 || b > 57 {
            return None;
        }
        let d = (b - 48) as u64;
        if acc > (u64::MAX - d) / 10 {
            proof {
                assert(s@.take(i + 1) =~= s@.take(i as int).push(b));
                lemma_dec_val_push(s@.take(i as int), b);
                assert(dec_val(s@.take(i + 1)) > u64::MAX) by {
                    assert(acc * 10 + d > u64::MAX) by (nonlinear_arith)
                        requires
                            acc > (u64::MAX - d) / 10,
                            0 <= d <= 9,
                            acc >= 0,
                    ;
                }
                if is_digits(s@) {
                    lemma_dec_val_prefix(s@, i + 1);
                }
            }
            return None;
        }
        proof {
            assert(s@.take(i + 1) =~= s@.take(i as int).push(b));
            lemma_dec_val_push(s@.take(i as int), b);
            assert(acc * 10 + d <= u64::MAX) by (nonlinear_arith)
                requires
                    acc <= (u64::MAX - d) / 10,
                    0 <= d <= 9,
                    acc >= 0,
            ;
        }
        acc = acc * 10 + d;
        i = i + 1;
    }
    proof {
        assert(s@.take(s@.len() as int) =~= s@);
    }
    Some(acc)
}

/// Renders a value as decimal digits.
pub fn u64_to_dec(v: u64) -> (r: Vec<u8>)
    ensures
        r@ == dec_repr(v),
    decreases v,
{
    if v < 10 {
        let mut r: Vec<u8> = Vec::new();
        r.push(48 + (v as u8));
        proof {
            assert(r@ =~= dec_repr(v));
        }
        r
    } else {
        let mut r = u64_to_dec(v / 10);
        r.push(48 + ((v % 10) as u8));
        proof {
            assert(r@ =~= dec_repr(v));
        }
        r
    }
}

/// First position of `sep` in `s[pos..end)`, or -1.
pub open spec fn find_from(s: Seq<u8>, pos: int, end: int, sep: u8) -> int
    decreases end - pos,
{
    if pos >= end {
        -1
    } else if s[pos] == sep {
        pos
    } else {
        find_from(s, pos + 1, end, sep)
    }
}

/// The fields of `s[pos..end)` delimited by `sep`: always at least one
/// field, one more per separator.
pub open spec fn split_from(s: Seq<u8>, pos: int, end: int, sep: u8) -> Seq<Seq<u8>>
    decreases end - pos,
    when 0 <= pos <= end <= s.len()
    via split_from_decreases
{
    let idx = find_from(s, pos, end, sep);
    if idx == -1 {
        seq![s.subrange(pos, end)]
    } else {
        seq![s.subrange(pos, idx)] + split_from(s, idx + 1, end, sep)
    }
}

#[via_fn]
proof fn split_from_decreases(s: Seq<u8>, pos: int, end: int, sep: u8) {
    lemma_find_from_props(s, pos, end, sep);
}

pub proof fn lemma_find_from_props(s: Seq<u8>, pos: int, end: int, sep: u8)
    requires
        0 <= pos <= end <= s.len(),
    ensures
        ({
            let idx = find_from(s, pos, end, sep);
            &&& idx == -1 ==> forall|i: int| pos <= i < end ==> s[i] != sep
            &&& idx != -1 ==> pos <= idx < end && s[idx] == sep && (forall|i: int|
                pos <= i < idx ==> s[i] != sep)
        }),
    decreases end - pos,
{
    if pos >= end {
    } else if s[pos] == sep {
    } else {
        lemma_find_from_props(s, pos + 1, end, sep);
    }
}

/// Splits `s[pos..end)` at each `sep`.
pub fn split_bytes(s: &[u8], pos: usize, end: usize, sep: u8) -> (r: Vec<Vec<u8>>)
    requires
        0 <= pos <= end <= s@.len(),
    ensures
        r.deep_view() == split_from(s@, pos as int, end as int, sep),
{
    let mut r: Vec<Vec<u8>> = Vec::new();
    let mut field: Vec<u8> = Vec::new();
    let mut start: usize = pos;
    let mut i: usize = pos;
    while i < end
        invariant
            pos <= start <= i <= end <= s@.len(),
            field@ == s@.subrange(start as int, i as int),
            forall|k: int| start <= k < i ==> s@[k] != sep,
            split_from(s@, pos as int, end as int, sep) == r.deep_view() + split_from(
                s@,
                start as int,
                end as int,
                sep,
            ),
        decreases end - i,
    {
        let b = s[i];
        if b == sep {
            proof {
                lemma_find_from_props(s@, start as int, end as int, sep);
                assert(find_from(s@, start as int, end as int, sep) == i as int) by {
                    lemma_find_from_at(s@, start as int, end as int, sep, i as int);
                }
            }
            let ghost r0 = r.deep_view();
            let done = field;
            r.push(done);
            field = Vec::new();
            proof {
                assert(r.deep_view() =~~= r0.push(s@.subrange(start as int, i as int)));
                assert(split_from(s@, start as int, end as int, sep) == seq![
                    s@.subrange(start as int, i as int),
                ] + split_from(s@, i + 1, end as int, sep));
                assert(r0 + split_from(s@, start as int, end as int, sep) =~~= r.deep_view()
                    + split_from(s@, i + 1, end as int, sep));
            }
            start = i + 1;
            i = i + 1;
            proof {
                assert(field@ =~= s@.subrange(start as int, i as int));
            }
        } else {
            field.push(b);
            i = i + 1;
            proof {
                assert(field@ =~= s@.subrange(start as int, i as int));
            }
        }
    }
    proof {
        lemma_find_from_at_none(s@, start as int, end as int, sep);
        assert(split_from(s@, start as int, end as int, sep) == seq![
            s@.subrange(start as int, end as int),
        ]);
    }
    let ghost r0 = r.deep_view();
    r.push(field);
    proof {
        assert(r.deep_view() =~~= r0.push(s@.subrange(start as int, end as int)));
        assert(r.deep_view() =~~= split_from(s@, pos as int, end as int, sep));
    }
    r
}

pub proof fn lemma_find_from_at(s: Seq<u8>, pos: int, end: int, sep: u8, k: int)
    requires
        0 <= pos <= k < end <= s.len(),
        s[k] == sep,
        forall|i: int| pos <= i < k ==> s[i] != sep,
    ensures
        find_from(s, pos, end, sep) == k,
    decreases k - pos,
{
    if pos == k {
    } else {
        lemma_find_from_at(s, pos + 1, end, sep, k);
    }
}

pub proof fn lemma_find_from_at_none(s: Seq<u8>, pos: int, end: int, sep: u8)
    requires
        0 <= pos <= end <= s.len(),
        forall|i: int| pos <= i < end ==> s[i] != sep,
    ensures
        find_from(s, pos, end, sep) == -1,
    decreases end - pos,
{
    if pos >= end {
    } else {
        lemma_find_from_at_none(s, pos + 1, end, sep);
    }
}

} // verus!
