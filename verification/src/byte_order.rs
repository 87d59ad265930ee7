//! Big-endian integers and the lexicographic order of byte strings.
//!
//! Keys are compared by the store byte by byte. Fixed-width big-endian fields
//! make that order agree with the numeric order of the fields, which the lemmas
//! of this module state.

use vstd::prelude::*;

verus! {

/// `a` comes strictly before `b` and the two first differ at index `i`
/// (where `i == a.len()` means that `a` is a proper prefix of `b`).
pub open spec fn precedes_at(a: Seq<u8>, b: Seq<u8>, i: int) -> bool {
    &&& 0 <= i <= a.len()
    &&& i < b.len()
    &&& forall|j: int| 0 <= j < i ==> a[j] == b[j]
    &&& i < a.len() ==> a[i] < b[i]
}

/// Strict lexicographic order of byte strings.
pub open spec fn lex_lt(a: Seq<u8>, b: Seq<u8>) -> bool {
    exists|i: int| precedes_at(a, b, i)
}

/// Lexicographic order of byte strings.
pub open spec fn lex_le(a: Seq<u8>, b: Seq<u8>) -> bool {
    a == b || lex_lt(a, b)
}

/// The `n` low base-256 digits of `v`, most significant first.
pub open spec fn be_bytes(v: nat, n: nat) -> Seq<u8>
    decreases n,
{
    if n == 0 {
        Seq::empty()
    } else {
        be_bytes(v / 256, (n - 1) as nat).push((v % 256) as u8)
    }
}

/// The number whose base-256 digits, most significant first, are `s`.
pub open spec fn be_value(s: Seq<u8>) -> nat
    decreases s.len(),
{
    if s.len() == 0 {
        0
    } else {
        be_value(s.drop_last()) * 256 + s.last() as nat
    }
}

/// 256 to the power `n`.
pub open spec fn radix_pow(n: nat) -> nat
    decreases n,
{
    if n == 0 {
        1
    } else {
        256 * radix_pow((n - 1) as nat)
    }
}

/// The eight bytes of `v`, most significant first.
pub open spec fn u64_bytes(v: u64) -> Seq<u8> {
    be_bytes(v as nat, 8)
}

/// The `u64` that eight big-endian bytes stand for.
pub open spec fn u64_value(s: Seq<u8>) -> u64 {
    be_value(s) as u64
}

pub proof fn lemma_be_bytes_len(v: nat, n: nat)
    ensures
        be_bytes(v, n).len() == n,
    decreases n,
{
    if n > 0 {
        lemma_be_bytes_len(v / 256, (n - 1) as nat);
    }
}

pub proof fn lemma_be_value_bound(s: Seq<u8>)
    ensures
        be_value(s) < radix_pow(s.len()),
    decreases s.len(),
{
    if s.len() > 0 {
        lemma_be_value_bound(s.drop_last());
    }
}

pub proof fn lemma_be_value_of_bytes(v: nat, n: nat)
    requires
        v < radix_pow(n),
    ensures
        be_value(be_bytes(v, n)) == v,
    decreases n,
{
    if n > 0 {
        let rest = be_bytes(v / 256, (n - 1) as nat);
        lemma_be_value_of_bytes(v / 256, (n - 1) as nat);
        assert(be_bytes(v, n).drop_last() =~= rest);
    }
}

pub proof fn lemma_be_bytes_of_value(s: Seq<u8>)
    ensures
        be_bytes(be_value(s), s.len()) == s,
    decreases s.len(),
{
    if s.len() > 0 {
        lemma_be_bytes_of_value(s.drop_last());
        assert(be_bytes(be_value(s), s.len()) =~= s);
    } else {
        assert(be_bytes(be_value(s), s.len()) =~= s);
    }
}


/// `radix_pow(8)` is the number of `u64` values.
pub proof fn lemma_radix_pow_8()
    ensures
        radix_pow(8) == 0x1_0000_0000_0000_0000,
{
    reveal_with_fuel(radix_pow, 9);
}

/// Eight big-endian bytes and the `u64` they stand for determine each other.
pub proof fn lemma_u64_round_trip(v: u64)
    ensures
        u64_bytes(v).len() == 8,
        u64_value(u64_bytes(v)) == v,
{
    lemma_radix_pow_8();
    lemma_be_bytes_len(v as nat, 8);
    lemma_be_value_of_bytes(v as nat, 8);
}

/// Every string of eight bytes is the encoding of the `u64` it stands for.
pub proof fn lemma_u64_bytes_of_value(s: Seq<u8>)
    requires
        s.len() == 8,
    ensures
        u64_bytes(u64_value(s)) == s,
{
    lemma_radix_pow_8();
    lemma_be_value_bound(s);
    lemma_be_bytes_of_value(s);
}

/// Two numbers with the same eight bytes are the same number.
pub proof fn lemma_u64_bytes_injective(v: u64, w: u64)
    requires
        u64_bytes(v) == u64_bytes(w),
    ensures
        v == w,
{
    lemma_u64_round_trip(v);
    lemma_u64_round_trip(w);
}

/// Behind strings of one length, the order is decided by those strings
/// first and by what follows them second.
pub proof fn lemma_lex_lt_concat(x: Seq<u8>, y: Seq<u8>, a: Seq<u8>, b: Seq<u8>)
    requires
        x.len() == y.len(),
    ensures
        lex_lt(x + a, y + b) <==> (lex_lt(x, y) || (x == y && lex_lt(a, b))),
{
    let n = x.len() as int;
    if lex_lt(x, y) {
        let i = choose|i: int| precedes_at(x, y, i);
        assert(precedes_at(x + a, y + b, i));
    }
    if x == y && lex_lt(a, b) {
        let j = choose|j: int| precedes_at(a, b, j);
        assert forall|k: int| 0 <= k < n + j implies (x + a)[k] == (y + b)[k] by {
            if k >= n {
                assert(a[k - n] == b[k - n]);
            }
        }
        assert(precedes_at(x + a, y + b, n + j));
    }
    if lex_lt(x + a, y + b) {
        let i = choose|i: int| precedes_at(x + a, y + b, i);
        if i < n {
            assert forall|j: int| 0 <= j < i implies x[j] == y[j] by {
                assert((x + a)[j] == (y + b)[j]);
            }
            assert((x + a)[i] == x[i] && (y + b)[i] == y[i]);
            assert(precedes_at(x, y, i));
        } else {
            assert forall|j: int| 0 <= j < n implies x[j] == y[j] by {
                assert((x + a)[j] == (y + b)[j]);
            }
            assert(x =~= y);
            assert forall|j: int| 0 <= j < i - n implies a[j] == b[j] by {
                assert((x + a)[j + n] == (y + b)[j + n]);
            }
            if i - n < a.len() {
                assert((x + a)[i] == a[i - n] && (y + b)[i] == b[i - n]);
            }
            assert(precedes_at(a, b, i - n));
        }
    }
}

/// Among strings of one length, the lexicographic order is the order of the
/// numbers that the strings stand for.
pub proof fn lemma_lex_lt_is_numeric(a: Seq<u8>, b: Seq<u8>)
    requires
        a.len() == b.len(),
    ensures
        lex_lt(a, b) <==> be_value(a) < be_value(b),
    decreases a.len(),
{
    if a.len() == 0 {
        assert(!lex_lt(a, b));
    } else {
        let a0 = a.drop_last();
        let b0 = b.drop_last();
        let la = seq![a.last()];
        let lb = seq![b.last()];
        assert(a =~= a0 + la);
        assert(b =~= b0 + lb);
        lemma_lex_lt_concat(a0, b0, la, lb);
        lemma_lex_lt_is_numeric(a0, b0);
        lemma_be_bytes_of_value(a0);
        lemma_be_bytes_of_value(b0);
        if lex_lt(la, lb) {
            let i = choose|i: int| precedes_at(la, lb, i);
            assert(a.last() < b.last());
        }
        if a.last() < b.last() {
            assert(precedes_at(la, lb, 0));
        }
    }
}

/// The order of two `u64` is the lexicographic order of their bytes.
pub proof fn lemma_u64_bytes_order(v: u64, w: u64)
    ensures
        lex_lt(u64_bytes(v), u64_bytes(w)) <==> v < w,
{
    lemma_radix_pow_8();
    lemma_be_bytes_len(v as nat, 8);
    lemma_be_bytes_len(w as nat, 8);
    lemma_be_value_of_bytes(v as nat, 8);
    lemma_be_value_of_bytes(w as nat, 8);
    lemma_lex_lt_is_numeric(u64_bytes(v), u64_bytes(w));
}

/// A string that lies at or behind `a` has a prefix of the length of `a` that
/// lies at or behind `a` too.
pub proof fn lemma_lex_le_prefix_lower(a: Seq<u8>, k: Seq<u8>)
    requires
        a.len() <= k.len(),
        lex_le(a, k),
    ensures
        lex_le(a, k.subrange(0, a.len() as int)),
{
    let p = k.subrange(0, a.len() as int);
    if a == k {
        assert(p =~= a);
    } else {
        let i = choose|i: int| precedes_at(a, k, i);
        if i == a.len() {
            assert(p =~= a);
        } else {
            assert(precedes_at(a, p, i));
        }
    }
}

/// A string that lies strictly before `b` and is no shorter has a prefix of
/// the length of `b` that lies strictly before `b` too.
pub proof fn lemma_lex_lt_prefix_upper(k: Seq<u8>, b: Seq<u8>)
    requires
        b.len() <= k.len(),
        lex_lt(k, b),
    ensures
        lex_lt(k.subrange(0, b.len() as int), b),
{
    let p = k.subrange(0, b.len() as int);
    let i = choose|i: int| precedes_at(k, b, i);
    assert(precedes_at(p, b, i));
}

/// Appends the eight bytes of `v`, most significant first.
pub fn put_u64(buf: &mut Vec<u8>, v: u64)
    ensures
        final(buf)@ == old(buf)@ + u64_bytes(v),
{
    let b7: u8 = (v % 256) as u8;
    let v1: u64 = v / 256;
    let b6: u8 = (v1 % 256) as u8;
    let v2: u64 = v1 / 256;
    let b5: u8 = (v2 % 256) as u8;
    let v3: u64 = v2 / 256;
    let b4: u8 = (v3 % 256) as u8;
    let v4: u64 = v3 / 256;
    let b3: u8 = (v4 % 256) as u8;
    let v5: u64 = v4 / 256;
    let b2: u8 = (v5 % 256) as u8;
    let v6: u64 = v5 / 256;
    let b1: u8 = (v6 % 256) as u8;
    let v7: u64 = v6 / 256;
    let b0: u8 = (v7 % 256) as u8;
    buf.push(b0);
    buf.push(b1);
    buf.push(b2);
    buf.push(b3);
    buf.push(b4);
    buf.push(b5);
    buf.push(b6);
    buf.push(b7);
    proof {
        reveal_with_fuel(be_bytes, 9);
        assert(u64_bytes(v) =~= seq![b0, b1, b2, b3, b4, b5, b6, b7]);
        assert(buf@ =~= old(buf)@ + u64_bytes(v));
    }
}

/// Reads the `u64` whose eight bytes, most significant first, start at `at`.
pub fn get_u64(buf: &[u8], at: usize) -> (v: u64)
    requires
        at + 8 <= buf@.len(),
    ensures
        v == u64_value(buf@.subrange(at as int, at + 8)),
{
    let v0: u64 = buf[at] as u64;
    let v1: u64 = v0 * 256 + buf[at + 1] as u64;
    let v2: u64 = v1 * 256 + buf[at + 2] as u64;
    let v3: u64 = v2 * 256 + buf[at + 3] as u64;
    let v4: u64 = v3 * 256 + buf[at + 4] as u64;
    let v5: u64 = v4 * 256 + buf[at + 5] as u64;
    let v6: u64 = v5 * 256 + buf[at + 6] as u64;
    let v7: u64 = v6 * 256 + buf[at + 7] as u64;
    proof {
        let s = buf@.subrange(at as int, at + 8);
        let s7 = s.drop_last();
        let s6 = s7.drop_last();
        let s5 = s6.drop_last();
        let s4 = s5.drop_last();
        let s3 = s4.drop_last();
        let s2 = s3.drop_last();
        let s1 = s2.drop_last();
        let s0 = s1.drop_last();
        reveal_with_fuel(be_value, 2);
        assert(be_value(s0) == 0);
        assert(be_value(s1) == v0);
        assert(be_value(s2) == v1);
        assert(be_value(s3) == v2);
        assert(be_value(s4) == v3);
        assert(be_value(s5) == v4);
        assert(be_value(s6) == v5);
        assert(be_value(s7) == v6);
        assert(be_value(s) == v7);
    }
    v7
}

} // verus!
