//! Fixed-width integers as big- and little-endian byte sequences.
use vstd::prelude::*;

verus! {

/// 256 to the power `k`.
pub open spec fn pow256(k: nat) -> nat
    decreases k,
{
    if k == 0 { 1 } else { 256 * pow256((k - 1) as nat) }
}

/// The low `k` bytes of `v`, most significant first.
pub open spec fn be_bytes(v: nat, k: nat) -> Seq<u8>
    decreases k,
{
    if k == 0 {
        Seq::empty()
    } else {
        be_bytes(v / 256, (k - 1) as nat).push((v % 256) as u8)
    }
}

/// The low `k` bytes of `v`, least significant first.
pub open spec fn le_bytes(v: nat, k: nat) -> Seq<u8>
    decreases k,
{
    if k == 0 {
        Seq::empty()
    } else {
        seq![(v % 256) as u8] + le_bytes(v / 256, (k - 1) as nat)
    }
}

/// The number whose big-endian bytes are `s`.
pub open spec fn be_value(s: Seq<u8>) -> nat
    decreases s.len(),
{
    if s.len() == 0 {
        0
    } else {
        be_value(s.drop_last()) * 256 + s.last() as nat
    }
}

/// The number whose little-endian bytes are `s`.
pub open spec fn le_value(s: Seq<u8>) -> nat
    decreases s.len(),
{
    if s.len() == 0 {
        0
    } else {
        s[0] as nat + 256 * le_value(s.drop_first())
    }
}

pub proof fn lemma_pow256_pos(k: nat)
    ensures
        pow256(k) >= 1,
    decreases k,
{
    if k > 0 {
        lemma_pow256_pos((k - 1) as nat);
    }
}

/// Reading back the bytes of `v` gives `v` modulo `256^k`.
pub proof fn lemma_be_roundtrip(v: nat, k: nat)
    ensures
        be_bytes(v, k).len() == k,
        be_value(be_bytes(v, k)) == v % pow256(k),
    decreases k,
{
    if k > 0 {
        lemma_be_roundtrip(v / 256, (k - 1) as nat);
        let s = be_bytes(v, k);
        assert(s.drop_last() == be_bytes(v / 256, (k - 1) as nat));
        let p = pow256((k - 1) as nat);
        lemma_pow256_pos((k - 1) as nat);
        vstd::arithmetic::div_mod::lemma_mod_breakdown(v as int, 256, p as int);
    }
}

/// Reading back the bytes of `v` gives `v` modulo `256^k`.
pub proof fn lemma_le_roundtrip(v: nat, k: nat)
    ensures
        le_bytes(v, k).len() == k,
        le_value(le_bytes(v, k)) == v % pow256(k),
    decreases k,
{
    if k > 0 {
        lemma_le_roundtrip(v / 256, (k - 1) as nat);
        let s = le_bytes(v, k);
        assert(s.drop_first() == le_bytes(v / 256, (k - 1) as nat));
        let p = pow256((k - 1) as nat);
        lemma_pow256_pos((k - 1) as nat);
        vstd::arithmetic::div_mod::lemma_mod_breakdown(v as int, 256, p as int);
    }
}

proof fn lemma_byte_split(v: u64)
    by (bit_vector)
    ensures
        v >> 8 == v / 256,
        (v & 0xFF) == v % 256,
        v < 0x100000000000000 ==> (v << 8) == v * 256,
        v < 0x100000000000000 ==> (v << 8) | 0 == v * 256,
{
}

/// Appends the low `k` bytes of `v`, most significant first.
pub fn push_be(out: &mut Vec<u8>, v: u64, k: usize)
    requires
        k <= 8,
    ensures
        final(out)@ == old(out)@ + be_bytes(v as nat, k as nat),
    decreases k,
{
    if k > 0 {
        proof { lemma_byte_split(v); }
        push_be(out, v >> 8, k - 1);
        out.push((v & 0xFF) as u8);
        proof {
            assert(final(out)@ =~= old(out)@ + be_bytes(v as nat, k as nat));
        }
    } else {
        proof { assert(final(out)@ =~= old(out)@ + be_bytes(v as nat, k as nat)); }
    }
}

/// Appends the low `k` bytes of `v`, least significant first.
pub fn push_le(out: &mut Vec<u8>, v: u64, k: usize)
    requires
        k <= 8,
    ensures
        final(out)@ == old(out)@ + le_bytes(v as nat, k as nat),
{
    let mut w: u64 = v;
    let mut i: usize = 0;
    while i < k
        invariant
            i <= k <= 8,
            old(out)@ + le_bytes(v as nat, k as nat) == out@ + le_bytes(w as nat, (k - i) as nat),
        decreases k - i,
    {
        proof { lemma_byte_split(w); }
        let ghost before = out@;
        out.push((w & 0xFF) as u8);
        proof {
            assert(before + le_bytes(w as nat, (k - i) as nat)
                =~= out@ + le_bytes((w / 256) as nat, (k - i - 1) as nat));
        }
        w = w >> 8;
        i += 1;
    }
    proof { assert(out@ + le_bytes(w as nat, 0) =~= out@); }
}

pub proof fn lemma_be_value_bound(s: Seq<u8>)
    ensures
        be_value(s) < pow256(s.len()),
    decreases s.len(),
{
    if s.len() > 0 {
        lemma_be_value_bound(s.drop_last());
        let a = be_value(s.drop_last());
        let p = pow256((s.len() - 1) as nat);
        assert(a * 256 + s.last() < 256 * p) by (nonlinear_arith)
            requires a < p, s.last() < 256;
    }
}

pub proof fn lemma_le_value_bound(s: Seq<u8>)
    ensures
        le_value(s) < pow256(s.len()),
    decreases s.len(),
{
    if s.len() > 0 {
        lemma_le_value_bound(s.drop_first());
        let a = le_value(s.drop_first());
        let p = pow256((s.len() - 1) as nat);
        assert(s[0] + 256 * a < 256 * p) by (nonlinear_arith)
            requires a < p, s[0] < 256;
    }
}

proof fn lemma_pow256_8()
    ensures
        pow256(7) == 0x100000000000000,
        pow256(8) == 0x10000000000000000,
{
    reveal_with_fuel(pow256, 9);
}

proof fn lemma_pow256_mono(a: nat, b: nat)
    requires
        a <= b,
    ensures
        pow256(a) <= pow256(b),
    decreases b,
{
    if a < b {
        lemma_pow256_mono(a, (b - 1) as nat);
        lemma_pow256_pos((b - 1) as nat);
    }
}

/// The number whose big-endian bytes are `b[p..p + k]`.
pub fn get_be(b: &[u8], p: usize, k: usize) -> (r: u64)
    requires
        k <= 8,
        p + k <= b@.len(),
    ensures
        r as nat == be_value(b@.subrange(p as int, p + k)),
{
    let mut acc: u64 = 0;
    let mut i: usize = 0;
    while i < k
        invariant
            i <= k <= 8,
            p + k <= b.len(),
            acc as nat == be_value(b@.subrange(p as int, p + i)),
        decreases k - i,
    {
        proof {
            lemma_be_value_bound(b@.subrange(p as int, p + i));
            lemma_pow256_8();
            lemma_pow256_mono(i as nat, 7);
            lemma_byte_split(acc);
            assert(b@.subrange(p as int, p + i + 1).drop_last() =~= b@.subrange(p as int, p + i));
            assert(acc < 0x100000000000000);
        }
        acc = acc * 256 + b[p + i] as u64;
        i += 1;
    }
    acc
}

/// The number whose little-endian bytes are `b[p..p + k]`.
pub fn get_le(b: &[u8], p: usize, k: usize) -> (r: u64)
    requires
        k <= 8,
        p + k <= b@.len(),
    ensures
        r as nat == le_value(b@.subrange(p as int, p + k)),
{
    let mut acc: u64 = 0;
    let mut i: usize = k;
    while i > 0
        invariant
            i <= k <= 8,
            p + k <= b.len(),
            acc as nat == le_value(b@.subrange(p + i, p + k)),
        decreases i,
    {
        proof {
            lemma_le_value_bound(b@.subrange(p + i, p + k));
            lemma_pow256_8();
            lemma_pow256_mono((k - i) as nat, 7);
            assert(b@.subrange(p + i - 1, p + k).drop_first() =~= b@.subrange(p + i, p + k));
            assert(acc < 0x100000000000000);
        }
        acc = acc * 256 + b[p + i - 1] as u64;
        i -= 1;
    }
    acc
}

} // verus!
