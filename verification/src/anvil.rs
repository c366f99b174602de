//! Anvil world storage: checksums (Adler-32, CRC-32), the zlib and gzip
//! containers around DEFLATE, the fixed-Huffman DEFLATE compressor, the
//! packing of palette indices into longs, and the region file layout.
use vstd::prelude::*;
use crate::bytes::{be_bytes, be_value, le_bytes, le_value, get_be, get_le, push_be, push_le, pow256,
    lemma_be_roundtrip, lemma_le_roundtrip, lemma_be_value_bound, lemma_le_value_bound};
use crate::mcproto::push_bytes;
use crate::text::{chars_eq, chars_of};
use crate::pack::{bit_at, bits_at, msb_at, fixed_lit_code, lemma_fixed_lit_decode, lemma_fixed_dist_decode,
    lemma_small_shifts, huff_decode, huff_of, fixed_lit_lengths, fixed_dist_lengths, inflate_codes, lz_copy, lemma_codes_literal, lemma_codes_end, lemma_codes_copy,
    LEN_BASE, LEN_EXTRA, DIST_BASE, DIST_EXTRA, inflate_spec, inflate_block};

verus! {

// ============================================================ checksums

/// Adler-32 sum `A` (1 + all bytes, modulo 65521).
pub open spec fn adler_a(d: Seq<u8>) -> nat
    decreases d.len(),
{
    if d.len() == 0 {
        1
    } else {
        (adler_a(d.drop_last()) + d.last() as nat) % 65521
    }
}

/// Adler-32 sum `B` (sum of the successive `A`s, modulo 65521).
pub open spec fn adler_b(d: Seq<u8>) -> nat
    decreases d.len(),
{
    if d.len() == 0 {
        0
    } else {
        (adler_b(d.drop_last()) + adler_a(d)) % 65521
    }
}

/// Adler-32 (RFC 1950) of `d`.
pub open spec fn adler32_spec(d: Seq<u8>) -> u32 {
    (adler_b(d) * 65536 + adler_a(d)) as u32
}

proof fn lemma_adler_pack(a: u32, b: u32)
    by (bit_vector)
    requires
        a < 65536,
        b < 65536,
    ensures
        (b << 16) | a == b * 65536 + a,
{
}

/// Adler-32 (RFC 1950).
pub fn adler32(d: &[u8]) -> (r: u32)
    ensures
        r == adler32_spec(d@),
{
    let mut a: u32 = 1;
    let mut b: u32 = 0;
    for i in 0usize..d.len()
        invariant
            a == adler_a(d@.subrange(0, i as int)),
            b == adler_b(d@.subrange(0, i as int)),
            a < 65521,
            b < 65521,
    {
        proof {
            assert(d@.subrange(0, i + 1).drop_last() =~= d@.subrange(0, i as int));
        }
        a = (a + d[i] as u32) % 65521;
        b = (b + a) % 65521;
    }
    proof {
        assert(d@.subrange(0, d@.len() as int) =~= d@);
        lemma_adler_pack(a, b);
    }
    (b << 16) | a
}

/// One bit of the reflected CRC-32 division (polynomial 0xEDB88320).
pub open spec fn crc_bit(c: u32) -> u32 {
    if c & 1 != 0 { 0xEDB8_8320 ^ (c >> 1) } else { c >> 1 }
}

/// `k` bits of the CRC-32 division.
pub open spec fn crc_bits(c: u32, k: nat) -> u32
    decreases k,
{
    if k == 0 { c } else { crc_bits(crc_bit(c), (k - 1) as nat) }
}

/// CRC-32 register after the bytes of `d` (initial value all ones).
pub open spec fn crc_reg(d: Seq<u8>) -> u32
    decreases d.len(),
{
    if d.len() == 0 {
        0xFFFF_FFFF
    } else {
        crc_bits(crc_reg(d.drop_last()) ^ (d.last() as u32), 8)
    }
}

/// CRC-32 (ISO-HDLC, as zlib, gzip and PNG) of `d`.
pub open spec fn crc32_spec(d: Seq<u8>) -> u32 {
    crc_reg(d) ^ 0xFFFF_FFFF
}

pub open spec fn crc8(y: u32) -> u32 {
    crc_bit(crc_bit(crc_bit(crc_bit(crc_bit(crc_bit(crc_bit(crc_bit(y))))))))
}

proof fn lemma_crc8_split(y: u32)
    by (bit_vector)
    ensures
        crc8(y) == crc8(y & 0xFF) ^ (y >> 8),
{
}

proof fn lemma_crc_bits_8(y: u32)
    ensures
        crc_bits(y, 8) == crc8(y),
{
    reveal_with_fuel(crc_bits, 9);
}

proof fn lemma_xor_byte(c: u32, x: u8)
    by (bit_vector)
    ensures
        (c ^ (x as u32)) >> 8 == c >> 8,
        ((c ^ (x as u32)) & 0xFF) < 256,
{
}

/// The 256-entry table of byte remainders of the CRC-32 division.
pub fn crc32_table() -> (t: Vec<u32>)
    ensures
        t@.len() == 256,
        forall|i: int| 0 <= i < 256 ==> #[trigger] t@[i] == crc_bits(i as u32, 8),
{
    let mut t: Vec<u32> = Vec::new();
    for i in 0u32..256
        invariant
            t@.len() == i,
            forall|j: int| 0 <= j < i ==> #[trigger] t@[j] == crc_bits(j as u32, 8),
    {
        let mut c: u32 = i;
        for k in 0u32..8
            invariant
                crc_bits(i, 8) == crc_bits(c, (8 - k) as nat),
        {
            c = if c & 1 != 0 { 0xEDB8_8320 ^ (c >> 1) } else { c >> 1 };
        }
        t.push(c);
    }
    t
}

/// CRC-32 (as zlib, gzip and PNG).
pub fn crc32(d: &[u8]) -> (r: u32)
    ensures
        r == crc32_spec(d@),
{
    let t = crc32_table();
    let mut c: u32 = 0xFFFF_FFFF;
    for i in 0usize..d.len()
        invariant
            t@.len() == 256,
            forall|j: int| 0 <= j < 256 ==> #[trigger] t@[j] == crc_bits(j as u32, 8),
            c == crc_reg(d@.subrange(0, i as int)),
    {
        let x = d[i];
        proof {
            assert(d@.subrange(0, i + 1).drop_last() =~= d@.subrange(0, i as int));
            lemma_xor_byte(c, x);
            lemma_crc8_split(c ^ (x as u32));
            lemma_crc_bits_8(c ^ (x as u32));
            lemma_crc_bits_8((c ^ (x as u32)) & 0xFF);
        }
        c = t[((c ^ x as u32) & 0xFF) as usize] ^ (c >> 8);
    }
    proof { assert(d@.subrange(0, d@.len() as int) =~= d@); }
    c ^ 0xFFFF_FFFF
}

// ============================================================ DEFLATE compressor

/// The bits `s` stand in `d` from bit `q` on.
pub open spec fn bits_match(d: Seq<u8>, q: int, s: Seq<bool>) -> bool {
    &&& 0 <= q
    &&& q + s.len() <= 8 * d.len()
    &&& forall|i: int| 0 <= i < s.len() ==> #[trigger] bit_at(d, q + i) == (if s[i] { 1u32 } else { 0u32 })
}

/// The low `n` bits of `v`, least significant first.
pub open spec fn low_bits(v: u32, n: nat) -> Seq<bool> {
    Seq::new(n, |i: int| (v >> (i as u32)) & 1 == 1)
}

/// The low `n` bits of `v`, most significant first.
pub open spec fn rev_bits(v: u32, n: nat) -> Seq<bool> {
    Seq::new(n, |i: int| (v >> ((n - 1 - i) as u32)) & 1 == 1)
}

proof fn lemma_bit_facts(v: u32, s: u32)
    by (bit_vector)
    requires
        s < 31,
    ensures
        (v >> s) == 2 * (v >> ((s + 1) as u32)) + ((v >> s) & 1),
        (v >> s) & 1 == 1 || (v >> s) & 1 == 0,
        (v & (((1u32 << s) - 1) as u32)) | (((v >> s) & 1) << s) == v & (((1u32 << ((s + 1) as u32)) - 1) as u32),
        v < (1u32 << s) ==> v >> s == 0,
        v < (1u32 << s) ==> v & (((1u32 << s) - 1) as u32) == v,
        v & (((1u32 << 0u32) - 1) as u32) == 0,
        v >> 0u32 == v,
{
}

/// Bits of `v` written most significant first read back as `v`.
proof fn lemma_rev_bits_msb(d: Seq<u8>, q: int, v: u32, n: nat, k: nat)
    requires
        n <= 30,
        k <= n,
        v < (1u32 << (n as u32)),
        bits_match(d, q, rev_bits(v, n)),
    ensures
        msb_at(d, q, k as int) == (v >> ((n - k) as u32)),
    decreases k,
{
    if k == 0 {
        lemma_bit_facts(v, n as u32);
    } else {
        lemma_rev_bits_msb(d, q, v, n, (k - 1) as nat);
        let s = (n - k) as u32;
        lemma_bit_facts(v, s);
        assert(bit_at(d, q + (k - 1)) == (if rev_bits(v, n)[k - 1] { 1u32 } else { 0u32 }));
        assert(msb_at(d, q, k as int) == 2 * msb_at(d, q, k - 1) + bit_at(d, q + k - 1));
        assert(((n - k + 1) as u32) == (s + 1) as u32);
    }
}

/// Bits of `v` written least significant first read back as `v`.
proof fn lemma_low_bits_value(d: Seq<u8>, q: int, v: u32, n: nat, k: nat)
    requires
        n <= 30,
        k <= n,
        bits_match(d, q, low_bits(v, n)),
    ensures
        bits_at(d, q, k) == v & (((1u32 << (k as u32)) - 1) as u32),
    decreases k,
{
    if k == 0 {
        lemma_bit_facts(v, 0);
    } else {
        lemma_low_bits_value(d, q, v, n, (k - 1) as nat);
        let s = (k - 1) as u32;
        lemma_bit_facts(v, s);
        assert(bit_at(d, q + (k - 1)) == (if low_bits(v, n)[k - 1] { 1u32 } else { 0u32 }));
        assert(bit_at(d, q + k - 1) == (v >> s) & 1);
    }
}

proof fn lemma_acc_bits(acc: u64, n: u64, b: u64, j: u64)
    by (bit_vector)
    requires
        n < 8,
        acc < (1u64 << n),
        b <= 1,
        j < 8,
    ensures
        (acc | (b << n)) < (1u64 << ((n + 1) as u64)),
        j < n ==> ((acc | (b << n)) >> j) & 1 == (acc >> j) & 1,
        ((acc | (b << n)) >> n) & 1 == b,
        (1u64 << ((n + 1) as u64)) <= 256,
        acc < 256,
{
}

proof fn lemma_byte_bit(a: u64, j: u64)
    by (bit_vector)
    requires
        a < 256,
        j < 8,
    ensures
        (((a as u8) >> (j as u8)) & 1) as u64 == (a >> j) & 1,
        ((a & 0xFF) as u8) == (a as u8),
        (a >> j) & 1 <= 1,
        (1u64 << 0u64) == 1,
{
}

proof fn lemma_and1(x: u32, s: u32)
    by (bit_vector)
    ensures
        (x >> s) & 1 <= 1,
        ((x >> s) & 1 == 1) == ((x >> s) & 1 != 0),
{
}

proof fn lemma_bits_split(d: Seq<u8>, q: int, a: Seq<bool>, b: Seq<bool>)
    requires
        bits_match(d, q, a + b),
    ensures
        bits_match(d, q, a),
        bits_match(d, q + a.len(), b),
{
    assert forall|i: int| 0 <= i < a.len() implies #[trigger] bit_at(d, q + i) == (if a[i] { 1u32 } else { 0u32 }) by {
        assert((a + b)[i] == a[i]);
    }
    assert forall|i: int| 0 <= i < b.len() implies #[trigger] bit_at(d, q + a.len() + i) == (if b[i] { 1u32 } else { 0u32 }) by {
        assert((a + b)[a.len() + i] == b[i]);
        assert(q + (a.len() + i) == q + a.len() + i);
    }
}

/// Fixed-code bits of the literal/length symbol `sym`.
pub open spec fn lit_bits(sym: int) -> Seq<bool> {
    rev_bits(fixed_lit_code(sym).0 as u32, fixed_lit_code(sym).1 as nat)
}

/// A token of a compressed block: the literal byte `t.0` when `t.1 == 0`,
/// else a copy of `t.0` bytes from `t.1` back, written with length code
/// `t.2` and distance code `t.3`.
pub open spec fn tok_ok(t: (int, int, int, int)) -> bool {
    if t.1 == 0 {
        0 <= t.0 < 256
    } else {
        &&& 0 <= t.2 < 29
        &&& LEN_BASE@[t.2] <= t.0
        &&& t.0 - LEN_BASE@[t.2] < (1u32 << (LEN_EXTRA@[t.2] as u32))
        &&& 0 <= t.3 < 30
        &&& 1 <= t.1
        &&& DIST_BASE@[t.3] <= t.1
        &&& t.1 - DIST_BASE@[t.3] < (1u32 << (DIST_EXTRA@[t.3] as u32))
    }
}

/// The fixed-Huffman bits of a token.
pub open spec fn tok_bits(t: (int, int, int, int)) -> Seq<bool> {
    if t.1 == 0 {
        lit_bits(t.0)
    } else {
        lit_bits(257 + t.2) + low_bits((t.0 - LEN_BASE@[t.2]) as u32, LEN_EXTRA@[t.2] as nat)
            + rev_bits(t.3 as u32, 5) + low_bits((t.1 - DIST_BASE@[t.3]) as u32, DIST_EXTRA@[t.3] as nat)
    }
}

/// What a token appends to the output.
pub open spec fn tok_apply(out: Seq<u8>, t: (int, int, int, int)) -> Seq<u8> {
    if t.1 == 0 {
        out.push(t.0 as u8)
    } else {
        lz_copy(out, t.1, t.0 as nat)
    }
}

/// The output of a sequence of tokens after `out`.
pub open spec fn toks_apply(out: Seq<u8>, toks: Seq<(int, int, int, int)>) -> Seq<u8>
    decreases toks.len(),
{
    if toks.len() == 0 {
        out
    } else {
        tok_apply(toks_apply(out, toks.drop_last()), toks.last())
    }
}

/// The bits of a sequence of tokens.
pub open spec fn toks_bits(toks: Seq<(int, int, int, int)>) -> Seq<bool>
    decreases toks.len(),
{
    if toks.len() == 0 {
        Seq::empty()
    } else {
        toks_bits(toks.drop_last()) + tok_bits(toks.last())
    }
}

/// Every token is well formed and copies only from bytes already output.
pub open spec fn toks_ok(out: Seq<u8>, toks: Seq<(int, int, int, int)>) -> bool
    decreases toks.len(),
{
    if toks.len() == 0 {
        true
    } else {
        &&& toks_ok(out, toks.drop_last())
        &&& tok_ok(toks.last())
        &&& toks.last().1 <= toks_apply(out, toks.drop_last()).len()
    }
}

proof fn lemma_lit_read(d: Seq<u8>, q: int, sym: int)
    requires
        0 <= sym < 288,
        bits_match(d, q, lit_bits(sym)),
    ensures
        huff_decode(huff_of(fixed_lit_lengths()), d, q) == Some((sym as u16, q + lit_bits(sym).len())),
{
    lemma_small_shifts();
    let c = fixed_lit_code(sym).0 as u32;
    let n = fixed_lit_code(sym).1 as nat;
    lemma_rev_bits_msb(d, q, c, n, n);
    lemma_bit_facts(c, 0);
    lemma_fixed_lit_decode(d, q, sym);
}

proof fn lemma_table_extras()
    ensures
        forall|i: int| 0 <= i < 29 ==> #[trigger] LEN_EXTRA@[i] <= 5,
        forall|i: int| 0 <= i < 30 ==> #[trigger] DIST_EXTRA@[i] <= 13,
{
    assert(LEN_EXTRA@ =~= seq![0u8, 0, 0, 0, 0, 0, 0, 0, 1, 1, 1, 1, 2, 2, 2, 2, 3, 3, 3, 3, 4, 4, 4, 4, 5, 5, 5, 5, 0]);
    assert(DIST_EXTRA@ =~= seq![0u8, 0, 0, 0, 1, 1, 2, 2, 3, 3, 4, 4, 5, 5, 6, 6, 7, 7, 8, 8, 9, 9, 10, 10, 11, 11, 12, 12, 13, 13]);
}

/// Reading the low bits of `v` back.
proof fn lemma_low_read(d: Seq<u8>, q: int, v: u32, n: nat)
    requires
        n <= 13,
        v < (1u32 << (n as u32)),
        bits_match(d, q, low_bits(v, n)),
    ensures
        bits_at(d, q, n) == v,
        q + n <= 8 * d.len(),
{
    lemma_low_bits_value(d, q, v, n, n);
    lemma_bit_facts(v, n as u32);
}

/// The parts of a copy token read back from its bits.
proof fn lemma_match_read(d: Seq<u8>, q: int, t: (int, int, int, int))
    requires
        tok_ok(t),
        t.1 != 0,
        bits_match(d, q, tok_bits(t)),
    ensures
        ({
            let q1 = q + lit_bits(257 + t.2).len();
            let ex = LEN_EXTRA@[t.2] as nat;
            let q2 = q1 + ex;
            let q3 = q2 + 5;
            let ex2 = DIST_EXTRA@[t.3] as nat;
            &&& huff_decode(huff_of(fixed_lit_lengths()), d, q) == Some(((257 + t.2) as u16, q1))
            &&& q1 + ex <= 8 * d.len()
            &&& bits_at(d, q1, ex) == t.0 - LEN_BASE@[t.2]
            &&& huff_decode(huff_of(fixed_dist_lengths()), d, q2) == Some((t.3 as u16, q3))
            &&& q3 + ex2 <= 8 * d.len()
            &&& bits_at(d, q3, ex2) == t.1 - DIST_BASE@[t.3]
            &&& q3 + ex2 == q + tok_bits(t).len()
        }),
{
    lemma_small_shifts();
    lemma_table_extras();
    let li = t.2;
    let di = t.3;
    let a = lit_bits(257 + li);
    let ex = LEN_EXTRA@[li] as nat;
    let b = low_bits((t.0 - LEN_BASE@[li]) as u32, ex);
    let c = rev_bits(di as u32, 5);
    let ex2 = DIST_EXTRA@[di] as nat;
    let e = low_bits((t.1 - DIST_BASE@[di]) as u32, ex2);
    assert(tok_bits(t) == a + b + c + e);
    lemma_bits_split(d, q, a + b + c, e);
    lemma_bits_split(d, q, a + b, c);
    lemma_bits_split(d, q, a, b);
    lemma_lit_read(d, q, 257 + li);
    let q1 = q + a.len();
    lemma_low_read(d, q1, (t.0 - LEN_BASE@[li]) as u32, ex);
    let q2 = q1 + ex;
    lemma_rev_bits_msb(d, q2, di as u32, 5, 5);
    lemma_bit_facts(di as u32, 0);
    lemma_fixed_dist_decode(d, q2, di);
    let q3 = q2 + 5;
    lemma_low_read(d, q3, (t.1 - DIST_BASE@[di]) as u32, ex2);
}

/// Decoding a block with the fixed codes from bit `q`, after `out`.
#[verifier::opaque]
pub open spec fn fixed_codes(d: Seq<u8>, q: int, out: Seq<u8>) -> Option<(Seq<u8>, int)> {
    inflate_codes(d, q, out, huff_of(fixed_lit_lengths()), huff_of(fixed_dist_lengths()))
}

proof fn lemma_tok_decode(d: Seq<u8>, q: int, out: Seq<u8>, t: (int, int, int, int))
    requires
        tok_ok(t),
        t.1 <= out.len(),
        bits_match(d, q, tok_bits(t)),
    ensures
        fixed_codes(d, q, out) == fixed_codes(d, q + tok_bits(t).len(), tok_apply(out, t)),
{
    reveal(fixed_codes);
    let fl = huff_of(fixed_lit_lengths());
    let fd = huff_of(fixed_dist_lengths());
    if t.1 == 0 {
        lemma_lit_read(d, q, t.0);
        lemma_codes_literal(d, q, out, fl, fd, t.0 as u16, q + tok_bits(t).len());
    } else {
        lemma_match_read(d, q, t);
        let q1 = q + lit_bits(257 + t.2).len();
        lemma_codes_copy(d, q, out, fl, fd, t.2, q1, t.0, t.3, t.1);
    }
}

proof fn lemma_end_decode(d: Seq<u8>, q: int, out: Seq<u8>)
    requires
        bits_match(d, q, lit_bits(256)),
    ensures
        fixed_codes(d, q, out) == Some((out, q + 7)),
{
    reveal(fixed_codes);
    lemma_lit_read(d, q, 256);
    lemma_codes_end(d, q, out, huff_of(fixed_lit_lengths()), huff_of(fixed_dist_lengths()), q + 7);
}

proof fn lemma_toks_decode(d: Seq<u8>, q: int, out: Seq<u8>, toks: Seq<(int, int, int, int)>)
    requires
        toks_ok(out, toks),
        bits_match(d, q, toks_bits(toks)),
    ensures
        fixed_codes(d, q, out) == fixed_codes(d, q + toks_bits(toks).len(), toks_apply(out, toks)),
    decreases toks.len(),
{
    if toks.len() > 0 {
        let init = toks.drop_last();
        lemma_bits_split(d, q, toks_bits(init), tok_bits(toks.last()));
        lemma_toks_decode(d, q, out, init);
        lemma_tok_decode(d, q + toks_bits(init).len(), toks_apply(out, init), toks.last());
    }
}

/// Copying `n` bytes from `dist` back reproduces `d` when `d` repeats itself
/// at that distance.
proof fn lemma_lz_copy_match(d: Seq<u8>, m: int, dist: int, n: nat)
    requires
        1 <= dist <= m,
        m + n <= d.len(),
        forall|l: int| 0 <= l < n ==> #[trigger] d[m + l] == d[m - dist + l],
    ensures
        lz_copy(d.subrange(0, m), dist, n) == d.subrange(0, m + n),
    decreases n,
{
    if n > 0 {
        assert(d[m + 0] == d[m - dist + 0]);
        assert(d.subrange(0, m).push(d.subrange(0, m)[m - dist]) =~= d.subrange(0, m + 1));
        assert forall|l: int| 0 <= l < n - 1 implies #[trigger] d[m + 1 + l] == d[m + 1 - dist + l] by {
            assert(d[m + (l + 1)] == d[m - dist + (l + 1)]);
        }
        lemma_lz_copy_match(d, m + 1, dist, (n - 1) as nat);
    }
}

/// The gaps between successive length (distance) bases fit in the extra bits.
proof fn lemma_base_gaps()
    ensures
        forall|r: int| 0 <= r < 28 ==> #[trigger] LEN_BASE@[r + 1] - LEN_BASE@[r] <= (1u32 << (LEN_EXTRA@[r] as u32)),
        forall|r: int| 0 <= r < 28 ==> #[trigger] LEN_BASE@[r] < LEN_BASE@[r + 1],
        LEN_BASE@[0] == 3,
        LEN_BASE@[28] == 258,
        LEN_EXTRA@[28] == 0,
        forall|r: int| 0 <= r < 29 ==> #[trigger] DIST_BASE@[r + 1] - DIST_BASE@[r] <= (1u32 << (DIST_EXTRA@[r] as u32)),
        forall|r: int| 0 <= r < 29 ==> #[trigger] DIST_BASE@[r] < DIST_BASE@[r + 1],
        DIST_BASE@[0] == 1,
        DIST_BASE@[29] == 24577,
        DIST_EXTRA@[29] == 13,
        (1u32 << 13u32) == 8192,
        (1u32 << 0u32) == 1,
{
    lemma_small_shifts();
    assert(LEN_BASE@ =~= seq![3u16, 4, 5, 6, 7, 8, 9, 10, 11, 13, 15, 17, 19, 23, 27, 31, 35, 43, 51, 59, 67, 83, 99, 115,
        131, 163, 195, 227, 258]);
    assert(LEN_EXTRA@ =~= seq![0u8, 0, 0, 0, 0, 0, 0, 0, 1, 1, 1, 1, 2, 2, 2, 2, 3, 3, 3, 3, 4, 4, 4, 4, 5, 5, 5, 5, 0]);
    assert(DIST_BASE@ =~= seq![1u16, 2, 3, 4, 5, 7, 9, 13, 17, 25, 33, 49, 65, 97, 129, 193, 257, 385, 513, 769, 1025, 1537,
        2049, 3073, 4097, 6145, 8193, 12289, 16385, 24577]);
    assert(DIST_EXTRA@ =~= seq![0u8, 0, 0, 0, 1, 1, 2, 2, 3, 3, 4, 4, 5, 5, 6, 6, 7, 7, 8, 8, 9, 9, 10, 10, 11, 11, 12, 12, 13, 13]);
    assert forall|r: int| 0 <= r < 28 implies #[trigger] LEN_BASE@[r + 1] - LEN_BASE@[r] <= (1u32 << (LEN_EXTRA@[r] as u32))
        && LEN_BASE@[r] < LEN_BASE@[r + 1] by {
        assert(r == 0 || r == 1 || r == 2 || r == 3 || r == 4 || r == 5 || r == 6 || r == 7 || r == 8 || r == 9 || r == 10 || r == 11 || r == 12 || r == 13 || r == 14 || r == 15 || r == 16 || r == 17 || r == 18 || r == 19 || r == 20 || r == 21 || r == 22 || r == 23 || r == 24 || r == 25 || r == 26 || r == 27);
    }
    assert forall|r: int| 0 <= r < 29 implies #[trigger] DIST_BASE@[r + 1] - DIST_BASE@[r] <= (1u32 << (DIST_EXTRA@[r] as u32))
        && DIST_BASE@[r] < DIST_BASE@[r + 1] by {
        assert(r == 0 || r == 1 || r == 2 || r == 3 || r == 4 || r == 5 || r == 6 || r == 7 || r == 8 || r == 9 || r == 10 || r == 11 || r == 12 || r == 13 || r == 14 || r == 15 || r == 16 || r == 17 || r == 18 || r == 19 || r == 20 || r == 21 || r == 22 || r == 23 || r == 24 || r == 25 || r == 26 || r == 27 || r == 28);
    }
}

/// Bit writer, least significant bit first (RFC 1951 bit order): whole
/// bytes in `out`, then the `n` bits of `acc` not yet flushed.
struct BitW {
    out: Vec<u8>,
    acc: u64,
    n: u32,
}

impl BitW {
    closed spec fn wf(&self) -> bool {
        &&& self.n < 8
        &&& self.acc < (1u64 << (self.n as u64))
    }

    /// The bits written so far.
    closed spec fn bits(&self) -> Seq<bool> {
        Seq::new((8 * self.out@.len() + self.n) as nat, |i: int|
            if i < 8 * self.out@.len() {
                bit_at(self.out@, i) == 1
            } else {
                (self.acc >> ((i - 8 * self.out@.len()) as u64)) & 1 == 1
            })
    }

    fn new() -> (w: BitW)
        ensures
            w.wf(),
            w.bits() == Seq::<bool>::empty(),
    {
        let w = BitW { out: Vec::new(), acc: 0, n: 0 };
        proof {
            lemma_byte_bit(0, 0);
            assert(w.bits() =~= Seq::<bool>::empty());
        }
        w
    }

    /// Writes one bit.
    fn push_bit(&mut self, b: u32)
        requires
            old(self).wf(),
            b <= 1,
        ensures
            final(self).wf(),
            final(self).bits() == old(self).bits().push(b == 1),
    {
        let ghost old_bits = self.bits();
        let ghost len0 = self.out@.len();
        let ghost acc0 = self.acc;
        let ghost n0 = self.n;
        proof {
            lemma_acc_bits(self.acc, self.n as u64, b as u64, 0);
        }
        self.acc = self.acc | ((b as u64) << (self.n as u64));
        self.n = self.n + 1;
        let ghost nb = old_bits.push(b == 1);
        proof {
            assert forall|i: int| 0 <= i < nb.len() implies
                #[trigger] nb[i] == (if i < 8 * len0 { bit_at(self.out@, i) == 1 }
                    else { (self.acc >> ((i - 8 * len0) as u64)) & 1 == 1 }) by {
                if i >= 8 * len0 {
                    let j = (i - 8 * len0) as u64;
                    lemma_acc_bits(acc0, n0 as u64, b as u64, j);
                }
            }
        }
        if self.n == 8 {
            let ghost a = self.acc;
            let ghost out0 = self.out@;
            self.out.push(self.acc as u8);
            self.acc = 0;
            self.n = 0;
            proof {
                lemma_byte_bit(0, 0);
                assert forall|i: int| 0 <= i < 8 * len0 + 8 implies
                    #[trigger] bit_at(self.out@, i) == (if i < 8 * len0 { bit_at(out0, i) } else { ((a >> ((i - 8 * len0) as u64)) & 1) as u32 }) by {
                    if i >= 8 * len0 {
                        let j = (i - 8 * len0) as u64;
                        assert(i / 8 == len0 && i % 8 == j);
                        lemma_byte_bit(a, j);
                    } else {
                        assert(i / 8 < len0);
                    }
                }
                assert(self.bits() =~= nb);
            }
        } else {
            proof {
                assert(self.bits() =~= nb);
            }
        }
    }

    /// Writes the low `n` bits of `v`, least significant first.
    fn push(&mut self, v: u32, n: u32)
        requires
            old(self).wf(),
            n <= 32,
        ensures
            final(self).wf(),
            final(self).bits() == old(self).bits() + low_bits(v, n as nat),
    {
        let ghost b0 = self.bits();
        for i in 0u32..n
            invariant
                self.wf(),
                n <= 32,
                self.bits() == b0 + low_bits(v, i as nat),
        {
            proof { lemma_and1(v, i); }
            self.push_bit((v >> i) & 1);
            proof {
                assert(low_bits(v, (i + 1) as nat) =~= low_bits(v, i as nat).push((v >> i) & 1 == 1));
                assert(self.bits() =~= b0 + low_bits(v, (i + 1) as nat));
            }
        }
    }

    /// Writes a Huffman code of `n` bits, most significant bit first.
    fn push_rev(&mut self, code: u32, n: u32)
        requires
            old(self).wf(),
            n <= 32,
        ensures
            final(self).wf(),
            final(self).bits() == old(self).bits() + rev_bits(code, n as nat),
    {
        let ghost b0 = self.bits();
        for i in 0u32..n
            invariant
                self.wf(),
                n <= 32,
                self.bits() == b0 + rev_bits(code, n as nat).subrange(0, i as int),
        {
            let s = n - 1 - i;
            proof { lemma_and1(code, s); }
            self.push_bit((code >> s) & 1);
            proof {
                assert(rev_bits(code, n as nat).subrange(0, (i + 1) as int)
                    =~= rev_bits(code, n as nat).subrange(0, i as int).push((code >> s) & 1 == 1));
                assert(self.bits() =~= b0 + rev_bits(code, n as nat).subrange(0, (i + 1) as int));
            }
        }
        proof {
            assert(rev_bits(code, n as nat).subrange(0, n as int) =~= rev_bits(code, n as nat));
        }
    }

    /// The bytes written, the last one padded with zero bits.
    fn finish(self) -> (r: Vec<u8>)
        requires
            self.wf(),
        ensures
            bits_match(r@, 0, self.bits()),
            r@.len() == (self.bits().len() + 7) / 8,
    {
        let ghost bits = self.bits();
        let ghost len0 = self.out@.len();
        let ghost a = self.acc;
        let mut out = self.out;
        if self.n > 0 {
            let ghost out0 = out@;
            out.push((self.acc & 0xFF) as u8);
            proof {
                assert forall|i: int| 0 <= i < bits.len() implies
                    #[trigger] bit_at(out@, 0 + i) == (if bits[i] { 1u32 } else { 0u32 }) by {
                    if i >= 8 * len0 {
                        let j = (i - 8 * len0) as u64;
                        assert(i / 8 == len0 && i % 8 == j);
                        lemma_acc_bits(a, self.n as u64, 0, j);
                        lemma_byte_bit(a, j);
                    } else {
                        assert(i / 8 < len0);
                        crate::pack::lemma_bit_le1(out0, i);
                    }
                }
            }
        } else {
            proof {
                assert forall|i: int| 0 <= i < bits.len() implies
                    #[trigger] bit_at(out@, 0 + i) == (if bits[i] { 1u32 } else { 0u32 }) by {
                    crate::pack::lemma_bit_le1(out@, i);
                }
            }
        }
        out
    }
}

/// Fixed-Huffman code and code length of a literal/length symbol
/// (RFC 1951, 3.2.6).
fn fixed_lit(sym: u16) -> (r: (u32, u32))
    ensures
        r.0 == fixed_lit_code(sym as int).0,
        r.1 == fixed_lit_code(sym as int).1,
{
    if sym <= 143 {
        (0x30 + sym as u32, 8)
    } else if sym <= 255 {
        (0x190 + (sym as u32 - 144), 9)
    } else if sym <= 279 {
        (sym as u32 - 256, 7)
    } else {
        (0xC0 + (sym as u32 - 280), 8)
    }
}

/// Index of the length code of `len`: the last base not above it.
fn len_sym(len: u16) -> (r: usize)
    ensures
        r < 29,
        forall|k: int| 1 <= k <= r ==> LEN_BASE@[k] <= len,
        r + 1 < 29 ==> LEN_BASE@[r + 1] > len,
{
    let mut i: usize = 0;
    while i + 1 < 29 && LEN_BASE[i + 1] <= len
        invariant
            i < 29,
            forall|k: int| 1 <= k <= i ==> LEN_BASE@[k] <= len,
        decreases 29 - i,
    {
        i += 1;
    }
    i
}

/// Index of the distance code of `d`: the last base not above it.
fn dist_sym(d: u16) -> (r: usize)
    ensures
        r < 30,
        forall|k: int| 1 <= k <= r ==> DIST_BASE@[k] <= d,
        r + 1 < 30 ==> DIST_BASE@[r + 1] > d,
{
    let mut i: usize = 0;
    while i + 1 < 30 && DIST_BASE[i + 1] <= d
        invariant
            i < 30,
            forall|k: int| 1 <= k <= i ==> DIST_BASE@[k] <= d,
        decreases 30 - i,
    {
        i += 1;
    }
    i
}

/// Size of the match window.
pub const WSIZE: usize = 32768;
/// Number of hash chains.
pub const HSIZE: usize = 32768;
/// Most candidates tried for one match.
pub const MAX_CHAIN: usize = 96;
/// A match this long is taken at once.
pub const NICE_LEN: usize = 130;

/// Hash of the three bytes `a`, `b`, `c`, below `HSIZE`.
pub open spec fn hash3_spec(a: u8, b: u8, c: u8) -> usize {
    let v = (a as u32) | ((b as u32) << 8) | ((c as u32) << 16);
    ((v.wrapping_mul(0x9E37_79B1) >> 17) as usize) & 32767
}

/// Hash of the three bytes at `i`.
fn hash3(d: &[u8], i: usize) -> (r: usize)
    requires
        i + 3 <= d@.len(),
    ensures
        r == hash3_spec(d@[i as int], d@[i + 1], d@[i + 2]),
        r < HSIZE,
{
    let v = (d[i] as u32) | ((d[i + 1] as u32) << 8) | ((d[i + 2] as u32) << 16);
    let r = (v.wrapping_mul(0x9E37_79B1) >> 17) as usize & (HSIZE - 1);
    proof {
        let x = (v.wrapping_mul(0x9E37_79B1) >> 17) as usize;
        assert(x & 32767usize < 32768) by (bit_vector);
    }
    r
}

fn min_usize(a: usize, b: usize) -> (r: usize)
    ensures
        r == if a < b { a } else { b },
{
    if a < b { a } else { b }
}

/// Every entry of a hash table is a position below `i` (a negative one
/// ends a chain; positions past `i32::MAX` are stored truncated).
pub open spec fn chain_ok(t: Seq<i32>, i: int) -> bool {
    forall|k: int| 0 <= k < t.len() ==> #[trigger] t[k] < i
}

/// The longest repeat of the bytes at `i` found along the hash chain of
/// `head` and `prev`: its length (0 when none) and distance.
fn longest_match(d: &[u8], i: usize, head: &Vec<i32>, prev: &Vec<i32>) -> (r: (usize, usize))
    requires
        i + 3 <= d@.len(),
        head@.len() == HSIZE,
        prev@.len() == WSIZE,
        chain_ok(head@, i as int),
        chain_ok(prev@, i as int),
    ensures
        r.0 <= 258,
        i + r.0 <= d@.len(),
        r.0 > 0 ==> 1 <= r.1 <= i && r.1 <= WSIZE,
        r.0 > 0 ==> forall|l: int| 0 <= l < r.0 ==> #[trigger] d@[i + l] == d@[i - r.1 + l],
{
    let n = d.len();
    let mut best_len: usize = 0;
    let mut best_dist: usize = 0;
    let h = hash3(d, i);
    let mut cand = head[h];
    let mut chain: usize = 0;
    let max_len = min_usize(n - i, 258);
    while cand >= 0 && chain < MAX_CHAIN
        invariant
            n == d@.len(),
            i + 3 <= n,
            max_len == if n - i < 258 { n - i } else { 258 },
            prev@.len() == WSIZE,
            chain_ok(prev@, i as int),
            cand < i,
            best_len <= max_len,
            best_len > 0 ==> 1 <= best_dist <= i && best_dist <= WSIZE,
            best_len > 0 ==> forall|l: int| 0 <= l < best_len ==> #[trigger] d@[i + l] == d@[i - best_dist + l],
        decreases MAX_CHAIN - chain,
    {
        let c = cand as usize;
        let dist = i - c;
        if dist > WSIZE {
            break;
        }
        let bc = min_usize(min_usize(best_len, max_len - 1), (n - c).saturating_sub(1));
        let bi = min_usize(min_usize(best_len, max_len - 1), (n - i).saturating_sub(1));
        if d[c + bc] == d[i + bi] || best_len == 0 {
            let mut l: usize = 0;
            while l < max_len && d[c + l] == d[i + l]
                invariant
                    l <= max_len,
                    c < i,
                    i + max_len <= n,
                    n == d@.len(),
                    forall|k: int| 0 <= k < l ==> #[trigger] d@[i + k] == d@[c + k],
                decreases max_len - l,
            {
                l += 1;
            }
            if l > best_len {
                best_len = l;
                best_dist = dist;
                proof {
                    assert forall|k: int| 0 <= k < best_len implies #[trigger] d@[i + k] == d@[i - best_dist + k] by {
                        assert(d@[i + k] == d@[c + k]);
                    }
                }
                if l >= NICE_LEN {
                    break;
                }
            }
        }
        chain += 1;
        proof {
            assert(c & 32767usize < 32768) by (bit_vector);
        }
        let nx = prev[c & (WSIZE - 1)];
        if nx == cand || nx < 0 || (c as i64 - nx as i64) > WSIZE as i64 {
            break;
        }
        cand = nx;
    }
    (best_len, best_dist)
}

/// Enters position `j` in the hash chains, when three bytes start there.
fn insert_hash(d: &[u8], j: usize, head: &mut Vec<i32>, prev: &mut Vec<i32>)
    requires
        j < d@.len(),
        old(head)@.len() == HSIZE,
        old(prev)@.len() == WSIZE,
        chain_ok(old(head)@, j as int),
        chain_ok(old(prev)@, j as int),
    ensures
        final(head)@.len() == HSIZE,
        final(prev)@.len() == WSIZE,
        chain_ok(final(head)@, j + 1),
        chain_ok(final(prev)@, j + 1),
{
    if d.len() - j >= 3 {
        let h = hash3(d, j);
        proof {
            assert(j & 32767usize < 32768) by (bit_vector);
        }
        let old_head = head[h];
        prev.set(j & (WSIZE - 1), old_head);
        head.set(h, #[verifier::truncate] (j as i32));
    }
}

/// Header bits of a final block with fixed Huffman codes.
pub open spec fn fixed_header() -> Seq<bool> {
    low_bits(1, 1) + low_bits(1, 2)
}

/// A final fixed-Huffman block holding the tokens `toks` decodes to what
/// they output.
proof fn lemma_stream_decodes(r: Seq<u8>, toks: Seq<(int, int, int, int)>)
    requires
        bits_match(r, 0, fixed_header() + toks_bits(toks) + lit_bits(256)),
        toks_ok(Seq::empty(), toks),
    ensures
        inflate_spec(r) == Some(toks_apply(Seq::empty(), toks)),
{
    let tb = toks_bits(toks);
    lemma_bits_split(r, 0, fixed_header() + tb, lit_bits(256));
    lemma_bits_split(r, 0, fixed_header(), tb);
    lemma_bits_split(r, 0, low_bits(1, 1), low_bits(1, 2));
    lemma_small_shifts();
    lemma_low_read(r, 1, 1, 2);
    assert((1u32 >> 0u32) & 1 == 1) by (bit_vector);
    assert(bit_at(r, 0int + 0int) == 1u32);
    lemma_toks_decode(r, 3, Seq::empty(), toks);
    lemma_end_decode(r, 3 + tb.len() as int, toks_apply(Seq::empty(), toks));
    reveal(fixed_codes);
    reveal(inflate_block);
    assert(inflate_block(r, 3, Seq::empty(), 1) == fixed_codes(r, 3, Seq::empty()));
}

/// Appending a token to a well-formed sequence of tokens.
proof fn lemma_push_tok(toks: Seq<(int, int, int, int)>, t: (int, int, int, int))
    requires
        toks_ok(Seq::empty(), toks),
        tok_ok(t),
        t.1 <= toks_apply(Seq::empty(), toks).len(),
    ensures
        toks_ok(Seq::empty(), toks.push(t)),
        toks_apply(Seq::empty(), toks.push(t)) == tok_apply(toks_apply(Seq::empty(), toks), t),
        toks_bits(toks.push(t)) == toks_bits(toks) + tok_bits(t),
{
    assert(toks.push(t).drop_last() =~= toks);
}

/// Writes a literal byte.
fn emit_literal(w: &mut BitW, b: u8)
    requires
        old(w).wf(),
    ensures
        final(w).wf(),
        final(w).bits() == old(w).bits() + tok_bits((b as int, 0, 0, 0)),
{
    let (c, k) = fixed_lit(b as u16);
    w.push_rev(c, k);
}

/// The code indices that `len_sym` and `dist_sym` find make a good token.
proof fn lemma_copy_tok(len: int, dist: int, li: int, di: int)
    requires
        3 <= len <= 258,
        1 <= dist <= WSIZE,
        0 <= li < 29,
        forall|k: int| 1 <= k <= li ==> LEN_BASE@[k] <= len,
        li + 1 < 29 ==> LEN_BASE@[li + 1] > len,
        0 <= di < 30,
        forall|k: int| 1 <= k <= di ==> DIST_BASE@[k] <= dist,
        di + 1 < 30 ==> DIST_BASE@[di + 1] > dist,
    ensures
        tok_ok((len, dist, li, di)),
{
    lemma_base_gaps();
    if li > 0 {
        assert(LEN_BASE@[li] <= len);
    }
    if li < 28 {
        assert(LEN_BASE@[li + 1] - LEN_BASE@[li] <= (1u32 << (LEN_EXTRA@[li] as u32)));
    }
    if di > 0 {
        assert(DIST_BASE@[di] <= dist);
    }
    if di < 29 {
        assert(DIST_BASE@[di + 1] - DIST_BASE@[di] <= (1u32 << (DIST_EXTRA@[di] as u32)));
    }
}

/// Writes a copy of `len` bytes from `dist` back.
fn emit_copy(w: &mut BitW, len: usize, dist: usize)
    requires
        old(w).wf(),
        3 <= len <= 258,
        1 <= dist <= WSIZE,
    ensures
        final(w).wf(),
        exists|li: int, di: int| #![trigger tok_ok((len as int, dist as int, li, di))]
            tok_ok((len as int, dist as int, li, di))
            && final(w).bits() == old(w).bits() + tok_bits((len as int, dist as int, li, di)),
{
    let ghost b0 = w.bits();
    let li = len_sym(len as u16);
    let di = dist_sym(dist as u16);
    proof { lemma_copy_tok(len as int, dist as int, li as int, di as int); }
    let ghost t = (len as int, dist as int, li as int, di as int);
    let (code, k) = fixed_lit(257 + li as u16);
    w.push_rev(code, k);
    let ghost b1 = w.bits();
    let extra = (len as u32) - LEN_BASE[li] as u32;
    w.push(extra, LEN_EXTRA[li] as u32);
    let ghost b2 = w.bits();
    w.push_rev(di as u32, 5);
    let ghost b3 = w.bits();
    w.push((dist as u32) - DIST_BASE[di] as u32, DIST_EXTRA[di] as u32);
    proof {
        assert(b1 == b0 + lit_bits(257 + li as int));
        assert(b2 == b1 + low_bits((t.0 - LEN_BASE@[t.2]) as u32, LEN_EXTRA@[t.2] as nat));
        assert(b3 == b2 + rev_bits(t.3 as u32, 5));
        assert(w.bits() == b3 + low_bits((t.1 - DIST_BASE@[t.3]) as u32, DIST_EXTRA@[t.3] as nat));
        assert(w.bits() =~= b0 + tok_bits(t));
    }
}

/// Enters the positions from `from` to `to` (excluded) in the hash chains.
fn insert_run(d: &[u8], from: usize, to: usize, head: &mut Vec<i32>, prev: &mut Vec<i32>)
    requires
        to <= d@.len(),
        old(head)@.len() == HSIZE,
        old(prev)@.len() == WSIZE,
        chain_ok(old(head)@, from as int),
        chain_ok(old(prev)@, from as int),
    ensures
        final(head)@.len() == HSIZE,
        final(prev)@.len() == WSIZE,
        chain_ok(final(head)@, if from < to { to as int } else { from as int }),
        chain_ok(final(prev)@, if from < to { to as int } else { from as int }),
{
    let mut j = from;
    while j < to
        invariant
            from <= j,
            from < to ==> j <= to,
            from >= to ==> j == from,
            to <= d@.len(),
            head@.len() == HSIZE,
            prev@.len() == WSIZE,
            chain_ok(head@, j as int),
            chain_ok(prev@, j as int),
        decreases to - j,
    {
        insert_hash(d, j, head, prev);
        j += 1;
    }
}

/// Compresses `d` into one final DEFLATE block with the fixed Huffman codes,
/// greedy LZ77 matching along hash chains.
pub fn deflate_fixed(d: &[u8]) -> (r: Vec<u8>)
    ensures
        inflate_spec(r@) == Some(d@),
        r@.len() > 0 && r@[0] & 7 == 3,
{
    let mut w = BitW::new();
    w.push(1, 1);
    w.push(1, 2);
    let mut head: Vec<i32> = vec![-1i32; HSIZE];
    let mut prev: Vec<i32> = vec![-1i32; WSIZE];
    let n = d.len();
    let mut i: usize = 0;
    let ghost mut toks: Seq<(int, int, int, int)> = Seq::empty();
    proof {
        assert(w.bits() =~= fixed_header() + toks_bits(toks));
        assert(d@.subrange(0, 0) =~= Seq::<u8>::empty());
    }
    while i < n
        invariant
            n == d@.len(),
            i <= n,
            w.wf(),
            w.bits() == fixed_header() + toks_bits(toks),
            toks_ok(Seq::empty(), toks),
            toks_apply(Seq::empty(), toks) == d@.subrange(0, i as int),
            head@.len() == HSIZE,
            prev@.len() == WSIZE,
            chain_ok(head@, i as int),
            chain_ok(prev@, i as int),
        decreases n - i,
    {
        let mut best_len: usize = 0;
        let mut best_dist: usize = 0;
        if n - i >= 3 {
            let (bl, bd) = longest_match(d, i, &head, &prev);
            best_len = bl;
            best_dist = bd;
        }
        if best_len >= 3 {
            let ghost b0 = w.bits();
            emit_copy(&mut w, best_len, best_dist);
            let end = min_usize(i + best_len, n.saturating_sub(2));
            insert_run(d, i + 1, end, &mut head, &mut prev);
            proof {
                let (li, di) = choose|li: int, di: int| #![trigger tok_ok((best_len as int, best_dist as int, li, di))]
                    tok_ok((best_len as int, best_dist as int, li, di))
                    && w.bits() == b0 + tok_bits((best_len as int, best_dist as int, li, di));
                let t = (best_len as int, best_dist as int, li, di);
                lemma_push_tok(toks, t);
                toks = toks.push(t);
                lemma_lz_copy_match(d@, i as int, best_dist as int, best_len as nat);
            }
            i += best_len;
        } else {
            insert_hash(d, i, &mut head, &mut prev);
            let ghost b0 = w.bits();
            emit_literal(&mut w, d[i]);
            proof {
                let t = (d@[i as int] as int, 0int, 0int, 0int);
                lemma_push_tok(toks, t);
                toks = toks.push(t);
                assert(d@.subrange(0, i + 1) =~= d@.subrange(0, i as int).push(d@[i as int]));
            }
            i += 1;
        }
    }
    let (c, k) = fixed_lit(256);
    let ghost b_end = w.bits();
    w.push_rev(c, k);
    let ghost bits = w.bits();
    let r = w.finish();
    proof {
        assert(d@.subrange(0, n as int) =~= d@);
        lemma_stream_decodes(r@, toks);
        lemma_fixed_header();
        assert(bits[0] == fixed_header()[0] && bits[1] == fixed_header()[1] && bits[2] == fixed_header()[2]);
        assert(bits.len() >= 3);
        assert(bits_match(r@, 0, bits));
        assert(bit_at(r@, 0int + 0int) == 1);
        assert(bit_at(r@, 0int + 1int) == 1);
        assert(bit_at(r@, 0int + 2int) == 0);
        assert(bit_at(r@, 0) == 1 && bit_at(r@, 1) == 1 && bit_at(r@, 2) == 0);
        lemma_block_type_byte(r@[0]);
    }
    r
}

proof fn lemma_fixed_header()
    ensures
        fixed_header().len() == 3,
        fixed_header()[0] && fixed_header()[1] && !fixed_header()[2],
{
    assert((1u32 >> 0u32) & 1 == 1 && (1u32 >> 1u32) & 1 == 0) by (bit_vector);
    assert(low_bits(1, 1)[0]);
    assert(low_bits(1, 2)[0] && !low_bits(1, 2)[1]);
}

/// The first three bits of a byte, least significant first, as a block
/// header: final, then the fixed-code type.
proof fn lemma_block_type_byte(b: u8)
    requires
        ((b >> 0u8) & 1) as u32 == 1,
        ((b >> 1u8) & 1) as u32 == 1,
        ((b >> 2u8) & 1) as u32 == 0,
    ensures
        b & 7 == 3,
{
    assert(((b >> 0u8) & 1) == 1 && ((b >> 1u8) & 1) == 1 && ((b >> 2u8) & 1) == 0 ==> b & 7 == 3) by (bit_vector);
}

/// What a zlib stream (RFC 1950) holds: the header is checked (DEFLATE,
/// check bits, no preset dictionary), the body inflated, and the Adler-32
/// of the result compared with the last four bytes (big-endian).
pub open spec fn zlib_spec(z: Seq<u8>) -> Option<Seq<u8>> {
    if z.len() < 6 {
        None
    } else if (z[0] & 0x0F) != 8 || ((((z[0] as u16) << 8u16) | (z[1] as u16)) % 31) != 0 || (z[1] & 0x20) != 0 {
        None
    } else {
        match inflate_spec(z.subrange(2, z.len() - 4)) {
            None => None,
            Some(raw) => if adler32_spec(raw) as nat == be_value(z.subrange(z.len() - 4, z.len() as int)) {
                Some(raw)
            } else {
                None
            },
        }
    }
}

/// Compresses `d` as a zlib stream: header `78 01`, one fixed-Huffman
/// DEFLATE block, Adler-32 big-endian. Decompressing it gives `d` back.
pub fn zlib_compress(d: &[u8]) -> (r: Vec<u8>)
    ensures
        zlib_spec(r@) == Some(d@),
        r@.len() >= 6,
        r@[0] == 0x78 && r@[1] == 0x01,
        inflate_spec(r@.subrange(2, r@.len() - 4)) == Some(d@),
        r@[2] & 7 == 3,
        be_value(r@.subrange(r@.len() - 4, r@.len() as int)) == adler32_spec(d@),
{
    let mut out: Vec<u8> = Vec::new();
    out.push(0x78);
    out.push(0x01);
    let body = deflate_fixed(d);
    push_bytes(&mut out, body.as_slice());
    let a = adler32(d);
    push_be(&mut out, a as u64, 4);
    proof {
        let z = out@;
        lemma_be_roundtrip(a as nat, 4);
        assert(pow256(4) == 0x1_0000_0000) by {
            assert(pow256(0) == 1);
            assert(pow256(1) == 256);
            assert(pow256(2) == 65536);
            assert(pow256(3) == 16777216);
        }
        assert(z.subrange(2, z.len() - 4) =~= body@);
        assert(z[2] == body@[0]);
        assert(z.subrange(z.len() - 4, z.len() as int) =~= be_bytes(a as nat, 4));
        assert((0x78u8 & 0x0F) == 8 && ((((0x78u8 as u16) << 8u16) | (0x01u8 as u16)) % 31) == 0 && (0x01u8 & 0x20) == 0)
            by (bit_vector);
    }
    out
}

/// Decompresses a complete zlib stream, checking its header and Adler-32.
pub fn zlib_decompress(d: &[u8]) -> (r: Option<Vec<u8>>)
    ensures
        match r {
            Some(v) => zlib_spec(d@) == Some(v@),
            None => zlib_spec(d@) is None,
        },
{
    if d.len() < 6 {
        return None;
    }
    let cmf = d[0];
    let flg = d[1];
    if cmf & 0x0F != 8 || ((cmf as u16) << 8 | flg as u16) % 31 != 0 || flg & 0x20 != 0 {
        return None;
    }
    let raw = match crate::pack::inflate(&d[2..d.len() - 4]) {
        Some(v) => v,
        None => return None,
    };
    let want = get_be(d, d.len() - 4, 4);
    proof { lemma_be_value_bound(d@.subrange(d.len() - 4, d.len() as int)); }
    if adler32(raw.as_slice()) as u64 != want {
        return None;
    }
    Some(raw)
}

/// Position after the zero byte ending a string field that starts at `p`,
/// or `None` when the input ends first.
pub open spec fn field_end(d: Seq<u8>, p: int) -> Option<int>
    decreases d.len() - p,
{
    if p < 0 || p >= d.len() {
        None
    } else if d[p] == 0 {
        Some(p + 1)
    } else {
        field_end(d, p + 1)
    }
}

/// Where the DEFLATE body of a gzip member (RFC 1952) starts, past the
/// optional extra field, name, comment and header CRC.
pub open spec fn gzip_body_start(d: Seq<u8>) -> Option<int> {
    let flg = d[3];
    let p0 = 10int;
    let p1 = if flg & 4 != 0 {
        if p0 + 2 > d.len() { None } else { Some(p0 + 2 + le_value(d.subrange(p0, p0 + 2))) }
    } else {
        Some(p0)
    };
    let p2 = match p1 {
        None => None,
        Some(p) => if flg & 8 != 0 { field_end(d, p) } else { Some(p) },
    };
    let p3 = match p2 {
        None => None,
        Some(p) => if flg & 16 != 0 { field_end(d, p) } else { Some(p) },
    };
    match p3 {
        None => None,
        Some(p) => if flg & 2 != 0 { Some(p + 2) } else { Some(p) },
    }
}

/// What a gzip member holds: header checked (magic, DEFLATE), body inflated,
/// CRC-32 of the result compared with the trailer's (little-endian).
pub open spec fn gzip_spec(d: Seq<u8>) -> Option<Seq<u8>> {
    if d.len() < 20 || d[0] != 0x1F || d[1] != 0x8B || d[2] != 8 {
        None
    } else {
        match gzip_body_start(d) {
            None => None,
            Some(p) => if p + 8 > d.len() {
                None
            } else {
                match inflate_spec(d.subrange(p, d.len() - 8)) {
                    None => None,
                    Some(raw) => if crc32_spec(raw) as nat == le_value(d.subrange(d.len() - 8, d.len() - 4)) {
                        Some(raw)
                    } else {
                        None
                    },
                }
            },
        }
    }
}

/// Finds the end of a zero-terminated field starting at `p`.
fn find_field_end(d: &[u8], start: usize) -> (r: Option<usize>)
    ensures
        match r {
            Some(e) => field_end(d@, start as int) == Some(e as int),
            None => field_end(d@, start as int) is None,
        },
{
    let mut p = start;
    while p < d.len() && d[p] != 0
        invariant
            start <= p,
            field_end(d@, start as int) == field_end(d@, p as int),
        decreases d.len() - p,
    {
        p += 1;
    }
    if p < d.len() {
        Some(p + 1)
    } else {
        None
    }
}

/// Decompresses a gzip member (RFC 1952), checking its CRC-32.
pub fn gzip_decompress(d: &[u8]) -> (r: Option<Vec<u8>>)
    ensures
        match r {
            Some(v) => gzip_spec(d@) == Some(v@),
            None => gzip_spec(d@) is None,
        },
{
    if d.len() < 20 || d[0] != 0x1F || d[1] != 0x8B || d[2] != 8 {
        return None;
    }
    let flg = d[3];
    let mut p: usize = 10;
    let ghost dd = d@;
    let ghost p1: Option<int> = if flg & 4 != 0 {
        if 12 > dd.len() { None } else { Some(12 + le_value(dd.subrange(10, 12)) as int) }
    } else {
        Some(10int)
    };
    if flg & 4 != 0 {
        if p + 2 > d.len() {
            return None;
        }
        let n = get_le(d, p, 2) as usize;
        proof {
            lemma_le_value_bound(d@.subrange(10, 12));
            assert(pow256(0) == 1);
            assert(pow256(1) == 256);
            assert(pow256(2) == 65536);
        }
        p += 2 + n;
    }
    assert(p1 == Some(p as int));
    let ghost p2: Option<int> = if flg & 8 != 0 { field_end(dd, p as int) } else { Some(p as int) };
    if flg & 8 != 0 {
        p = match find_field_end(d, p) {
            Some(e) => e,
            None => return None,
        };
    }
    assert(p2 == Some(p as int));
    let ghost p3: Option<int> = if flg & 16 != 0 { field_end(dd, p as int) } else { Some(p as int) };
    if flg & 16 != 0 {
        p = match find_field_end(d, p) {
            Some(e) => e,
            None => return None,
        };
    }
    assert(p3 == Some(p as int));
    let ghost sp: int = if flg & 2 != 0 { p + 2 } else { p as int };
    if flg & 2 != 0 {
        p = p.saturating_add(2);
    }
    assert(gzip_body_start(dd) == Some(sp));
    assert(sp == p || sp > usize::MAX);
    if p > d.len() || d.len() - p < 8 {
        return None;
    }
    let raw = match crate::pack::inflate(&d[p..d.len() - 8]) {
        Some(v) => v,
        None => return None,
    };
    let crc = get_le(d, d.len() - 8, 4);
    if crc32(raw.as_slice()) as u64 != crc {
        return None;
    }
    Some(raw)
}

// ============================================================ region files

/// Bytes in a region file sector.
pub const SECT: usize = 4096;

/// The 1024 chunk slots of a region file: compression type and the raw
/// compressed payload of each stored chunk.
pub struct RegionData {
    pub slots: Vec<Option<(u8, Vec<u8>)>>,
}

/// A slot's contents as plain values.
pub open spec fn slot_view(s: Option<(u8, Vec<u8>)>) -> Option<(u8, Seq<u8>)> {
    match s {
        None => None,
        Some((t, d)) => Some((t, d@)),
    }
}

/// The slots as plain values.
pub open spec fn slots_view(v: Seq<Option<(u8, Vec<u8>)>>) -> Seq<Option<(u8, Seq<u8>)>> {
    Seq::new(v.len(), |i: int| slot_view(v[i]))
}

impl RegionData {
    /// A region with 1024 empty slots.
    pub fn empty() -> (r: RegionData)
        ensures
            r.slots@.len() == 1024,
            forall|i: int| 0 <= i < 1024 ==> #[trigger] r.slots@[i] is None,
    {
        let mut slots: Vec<Option<(u8, Vec<u8>)>> = Vec::new();
        for i in 0usize..1024
            invariant
                slots@.len() == i,
                forall|j: int| 0 <= j < i ==> #[trigger] slots@[j] is None,
        {
            slots.push(None);
        }
        RegionData { slots }
    }
}

/// Region coordinate of a chunk coordinate (32 chunks a region).
pub fn region_of(c: i32) -> (r: i32)
    ensures
        r as int == (c as int) / 32,
{
    proof {
        assert((c >> 5i32) as int == c / 32) by (bit_vector);
    }
    c >> 5
}

/// Slot of a chunk in its region: x within the region plus 32 times z.
pub fn slot_of(cx: i32, cz: i32) -> (r: usize)
    ensures
        r as int == (cx as int) % 32 + 32 * ((cz as int) % 32),
        r < 1024,
{
    proof {
        assert((cx & 31i32) as int == (cx as int) % 32 && (cz & 31i32) as int == (cz as int) % 32) by (bit_vector);
    }
    ((cx & 31) + (cz & 31) * 32) as usize
}

/// Region coordinates of a chunk.
pub fn region_key(cx: i32, cz: i32) -> (r: (i32, i32))
    ensures
        r.0 as int == (cx as int) / 32,
        r.1 as int == (cz as int) / 32,
{
    (region_of(cx), region_of(cz))
}

/// Slot `i` as read from the bytes of a region file: its location entry (a
/// 3-byte sector offset and a sector count), then at that sector a 4-byte
/// big-endian length, the type byte and the payload; `None` when absent or
/// out of place.
pub open spec fn region_slot(d: Seq<u8>, i: int) -> Option<(u8, Seq<u8>)> {
    let e = 4 * i;
    let off = d[e] * 65536 + d[e + 1] * 256 + d[e + 2];
    if off == 0 || d[e + 3] == 0 {
        None
    } else {
        let start = off * 4096;
        if start + 5 > d.len() {
            None
        } else {
            let len = be_value(d.subrange(start, start + 4)) as int;
            if len < 1 || start + 4 + len > d.len() {
                None
            } else {
                Some((d[start + 4], d.subrange(start + 5, start + 4 + len)))
            }
        }
    }
}

/// The slots of a region file, or `None` when it is shorter than its two
/// header sectors.
pub open spec fn region_spec(d: Seq<u8>) -> Option<Seq<Option<(u8, Seq<u8>)>>> {
    if d.len() < 8192 {
        None
    } else {
        Some(Seq::new(1024, |i: int| region_slot(d, i)))
    }
}

proof fn lemma_offset_bytes(a: u64, b: u64, c: u64)
    by (bit_vector)
    requires
        a < 256,
        b < 256,
        c < 256,
    ensures
        (a << 16u64) | (b << 8u64) | c == a * 65536 + b * 256 + c,
{
}

/// Reads slot `i` of a region file's bytes.
fn read_slot(d: &[u8], i: usize) -> (r: Option<(u8, Vec<u8>)>)
    requires
        i < 1024,
        d@.len() >= 8192,
    ensures
        slot_view(r) == region_slot(d@, i as int),
{
    let e = i * 4;
    proof {
        lemma_offset_bytes(d[e as int] as u64, d[e + 1] as u64, d[e + 2] as u64);
    }
    let off = ((d[e] as u64) << 16) | ((d[e + 1] as u64) << 8) | d[e + 2] as u64;
    if off == 0 || d[e + 3] == 0 {
        return None;
    }
    let start = off * 4096;
    if start + 5 > d.len() as u64 {
        return None;
    }
    let start = start as usize;
    let len64 = get_be(d, start, 4);
    if len64 < 1 || len64 > (d.len() - start - 4) as u64 {
        return None;
    }
    let len = len64 as usize;
    let typ = d[start + 4];
    let payload = vstd::slice::slice_to_vec(&d[start + 5..start + 4 + len]);
    Some((typ, payload))
}

/// Reads the slots of a region file's bytes, keeping each stored chunk's
/// payload as it is.
pub fn parse_region(d: &[u8]) -> (r: Option<RegionData>)
    ensures
        match r {
            Some(rd) => region_spec(d@) == Some(slots_view(rd.slots@)),
            None => region_spec(d@) is None,
        },
{
    if d.len() < 8192 {
        return None;
    }
    let mut slots: Vec<Option<(u8, Vec<u8>)>> = Vec::new();
    let ghost dd = d@;
    for i in 0usize..1024
        invariant
            dd == d@,
            dd.len() >= 8192,
            slots@.len() == i,
            forall|j: int| 0 <= j < i ==> #[trigger] slot_view(slots@[j]) == region_slot(dd, j),
    {
        let s = read_slot(d, i);
        slots.push(s);
    }
    proof {
        assert(slots_view(slots@) =~= Seq::new(1024, |i: int| region_slot(dd, i)));
    }
    Some(RegionData { slots })
}

/// Sectors a stored chunk takes: its length field, type byte and payload,
/// rounded up to whole sectors.
pub open spec fn slot_need(s: Option<(u8, Seq<u8>)>) -> int {
    match s {
        None => 0,
        Some((_, d)) => ((d.len() + 5 + 4095) / 4096) as int,
    }
}

/// The sectors written for a slot: length (payload plus type byte, 4 bytes
/// big-endian), type, payload, zero padding.
pub open spec fn slot_block(s: Option<(u8, Seq<u8>)>) -> Seq<u8> {
    match s {
        None => Seq::empty(),
        Some((t, d)) => be_bytes((d.len() + 1) as nat, 4) + seq![t] + d
            + Seq::new((slot_need(s) * 4096 - (d.len() + 5)) as nat, |k: int| 0u8),
    }
}

/// The sector where slot `i`'s data is written: after the two header
/// sectors and the data of the slots before it.
pub open spec fn first_sector(slots: Seq<Option<(u8, Seq<u8>)>>, i: int) -> int
    decreases i,
{
    if i <= 0 {
        2
    } else {
        first_sector(slots, i - 1) + slot_need(slots[i - 1])
    }
}

/// The data sectors of the first `i` slots.
pub open spec fn region_body(slots: Seq<Option<(u8, Seq<u8>)>>, i: int) -> Seq<u8>
    decreases i,
{
    if i <= 0 {
        Seq::empty()
    } else {
        region_body(slots, i - 1) + slot_block(slots[i - 1])
    }
}

/// Byte `k` of the two header sectors: per stored slot, its 3-byte sector
/// offset and sector count (at most 255), and its timestamp `now`.
pub open spec fn header_byte(slots: Seq<Option<(u8, Seq<u8>)>>, now: u32, k: int) -> u8 {
    let i = if k < 4096 { k / 4 } else { (k - 4096) / 4 };
    let c = k % 4;
    if i < slots.len() && slots[i] is Some {
        if k < 4096 {
            if c < 3 {
                be_bytes(first_sector(slots, i) as nat, 3)[c]
            } else if slot_need(slots[i]) > 255 {
                255
            } else {
                slot_need(slots[i]) as u8
            }
        } else {
            be_bytes(now as nat, 4)[c]
        }
    } else {
        0
    }
}

/// The bytes of the region file written for `slots` at time `now`.
pub open spec fn region_file(slots: Seq<Option<(u8, Seq<u8>)>>, now: u32) -> Seq<u8> {
    Seq::new(8192, |k: int| header_byte(slots, now, k)) + region_body(slots, slots.len() as int)
}

proof fn lemma_need_pos(s: Option<(u8, Seq<u8>)>)
    ensures
        s is Some ==> slot_need(s) >= 1,
        slot_need(s) >= 0,
        slot_block(s).len() == slot_need(s) * 4096,
{
    if let Some((t, d)) = s {
        lemma_be_roundtrip((d.len() + 1) as nat, 4);
        assert(slot_need(s) * 4096 >= d.len() + 5);
    }
}

proof fn lemma_body_len(slots: Seq<Option<(u8, Seq<u8>)>>, i: int)
    requires
        0 <= i,
    ensures
        region_body(slots, i).len() == (first_sector(slots, i) - 2) * 4096,
        first_sector(slots, i) >= 2,
    decreases i,
{
    if i > 0 {
        lemma_body_len(slots, i - 1);
        lemma_need_pos(slots[i - 1]);
    }
}

proof fn lemma_body_prefix(slots: Seq<Option<(u8, Seq<u8>)>>, i: int, n: int)
    requires
        0 <= i <= n,
    ensures
        region_body(slots, n).subrange(0, region_body(slots, i).len() as int) == region_body(slots, i),
        first_sector(slots, i) <= first_sector(slots, n),
    decreases n,
{
    if i < n {
        lemma_body_prefix(slots, i, n - 1);
        lemma_need_pos(slots[n - 1]);
        lemma_body_len(slots, i);
        lemma_body_len(slots, n - 1);
        let a = region_body(slots, n - 1);
        assert(region_body(slots, i).len() <= a.len());
        assert(region_body(slots, n).subrange(0, region_body(slots, i).len() as int)
            =~= a.subrange(0, region_body(slots, i).len() as int));
    } else {
        assert(region_body(slots, n).subrange(0, region_body(slots, n).len() as int) =~= region_body(slots, n));
    }
}

/// The bytes of a region file for `slots` (at most 1024), untouched
/// payloads copied as they are, stamped `now`.
pub fn region_bytes(slots: &[Option<(u8, Vec<u8>)>], now: u32) -> (r: Vec<u8>)
    requires
        slots@.len() <= 1024,
        first_sector(slots_view(slots@), slots@.len() as int) * 4096 <= usize::MAX,
    ensures
        r@ == region_file(slots_view(slots@), now),
{
    let ghost sv = slots_view(slots@);
    let mut header = vec![0u8; 8192];
    let mut body: Vec<u8> = Vec::new();
    let mut next: usize = 2;
    let mut ts: Vec<u8> = Vec::new();
    push_be(&mut ts, now as u64, 4);
    let n = slots.len();
    proof {
        lemma_be_roundtrip(now as nat, 4);
    }
    for i in 0usize..n
        invariant
            n == slots@.len(),
            n <= 1024,
            sv == slots_view(slots@),
            first_sector(sv, n as int) * 4096 <= usize::MAX,
            ts@ == be_bytes(now as nat, 4),
            ts@.len() == 4,
            header@.len() == 8192,
            body@ == region_body(sv, i as int),
            next == first_sector(sv, i as int),
            forall|k: int| 0 <= k < 8192 ==> #[trigger] header@[k] == if (if k < 4096 { k / 4 } else { (k - 4096) / 4 }) < i {
                header_byte(sv, now, k)
            } else {
                0
            },
    {
        proof {
            lemma_body_len(sv, i as int);
            lemma_body_prefix(sv, (i + 1) as int, n as int);
            lemma_need_pos(sv[i as int]);
        }
        let ghost h0 = header@;
        match &slots[i] {
            None => {},
            Some((typ, data)) => {
                let plen = data.len() + 1;
                let total = plen + 4;
                let need = (total + SECT - 1) / SECT;
                let mut nb: Vec<u8> = Vec::new();
                push_be(&mut nb, next as u64, 3);
                proof { lemma_be_roundtrip(next as nat, 3); }
                header.set(i * 4, nb[0]);
                header.set(i * 4 + 1, nb[1]);
                header.set(i * 4 + 2, nb[2]);
                header.set(i * 4 + 3, if need > 255 { 255 } else { need as u8 });
                header.set(4096 + i * 4, ts[0]);
                header.set(4096 + i * 4 + 1, ts[1]);
                header.set(4096 + i * 4 + 2, ts[2]);
                header.set(4096 + i * 4 + 3, ts[3]);
                let ghost b0 = body@;
                push_be(&mut body, plen as u64, 4);
                body.push(*typ);
                push_bytes(&mut body, data.as_slice());
                let pad = need * SECT - total;
                let mut k: usize = 0;
                while k < pad
                    invariant
                        k <= pad,
                        body@ == b0 + be_bytes((plen as u64) as nat, 4) + seq![*typ] + data@ + Seq::new(k as nat, |j: int| 0u8),
                    decreases pad - k,
                {
                    body.push(0u8);
                    k += 1;
                    proof {
                        assert(body@ =~= b0 + be_bytes((plen as u64) as nat, 4) + seq![*typ] + data@ + Seq::new(k as nat, |j: int| 0u8));
                    }
                }
                proof {
                    assert(sv[i as int] == Some((*typ, data@)));
                    assert(body@ =~= b0 + slot_block(sv[i as int]));
                }
                next += need;
            },
        }
        proof {
            assert forall|k: int| 0 <= k < 8192 implies #[trigger] header@[k] == if (if k < 4096 { k / 4 } else { (k - 4096) / 4 }) < i + 1 {
                header_byte(sv, now, k)
            } else {
                0
            } by {
                let e = if k < 4096 { k / 4 } else { (k - 4096) / 4 };
                if e != i {
                    assert(header@[k] == h0[k]);
                }
            }
        }
    }
    let mut out = header;
    push_bytes(&mut out, body.as_slice());
    proof {
        assert(header@ =~= Seq::new(8192, |k: int| header_byte(sv, now, k)));
    }
    out
}

/// A stored payload whose length field (payload plus type byte) fits in
/// 4 bytes.
pub open spec fn slot_fits(s: Option<(u8, Seq<u8>)>) -> bool {
    match s {
        None => true,
        Some((_, d)) => d.len() + 1 < 0x1_0000_0000,
    }
}

proof fn lemma_be3(s: Seq<u8>)
    requires
        s.len() == 3,
    ensures
        be_value(s) == s[0] * 65536 + s[1] * 256 + s[2],
{
    let s2 = s.drop_last();
    let s1 = s2.drop_last();
    let s0 = s1.drop_last();
    assert(s0.len() == 0);
    assert(be_value(s0) == 0);
    assert(s1.last() == s[0]);
    assert(s1.drop_last() == s0);
    assert(be_value(s1) == be_value(s0) * 256 + s1.last() as nat);
    assert(be_value(s1) == s[0] as nat);
    assert(be_value(s2) == s[0] * 256 + s[1]) by {
        assert(s2.last() == s[1]);
    }
}

proof fn lemma_pow256_34()
    ensures
        pow256(3) == 0x100_0000,
        pow256(4) == 0x1_0000_0000,
{
    reveal_with_fuel(pow256, 5);
}

proof fn lemma_header_index(i: int, c: int)
    requires
        0 <= i < 1024,
        0 <= c < 4,
    ensures
        (4 * i + c) / 4 == i,
        (4 * i + c) % 4 == c,
        (4096 + 4 * i + c - 4096) / 4 == i,
{
}

proof fn lemma_region_slot(slots: Seq<Option<(u8, Seq<u8>)>>, now: u32, i: int)
    requires
        slots.len() == 1024,
        0 <= i < 1024,
        first_sector(slots, 1024) <= 0x100_0000,
        slot_fits(slots[i]),
    ensures
        region_slot(region_file(slots, now), i) == slots[i],
{
    let f = region_file(slots, now);
    let b = region_body(slots, 1024);
    let e = 4 * i;
    lemma_body_len(slots, 1024);
    lemma_header_index(i, 0);
    lemma_header_index(i, 1);
    lemma_header_index(i, 2);
    lemma_header_index(i, 3);
    assert(f.len() == 8192 + b.len());
    assert(f[e] == header_byte(slots, now, e));
    assert(f[e + 1] == header_byte(slots, now, e + 1));
    assert(f[e + 2] == header_byte(slots, now, e + 2));
    assert(f[e + 3] == header_byte(slots, now, e + 3));
    match slots[i] {
        None => {
            assert(f[e] == 0 && f[e + 1] == 0 && f[e + 2] == 0);
        },
        Some((t, d)) => {
            let fs = first_sector(slots, i);
            let s = slots[i];
            lemma_body_prefix(slots, i + 1, 1024);
            lemma_body_len(slots, i);
            lemma_body_len(slots, i + 1);
            lemma_need_pos(s);
            assert(first_sector(slots, i + 1) == fs + slot_need(s));
            lemma_be_roundtrip(fs as nat, 3);
            lemma_pow256_34();
            let hb = be_bytes(fs as nat, 3);
            lemma_be3(hb);
            assert(f[e] == hb[0] && f[e + 1] == hb[1] && f[e + 2] == hb[2]);
            assert(f[e] * 65536 + f[e + 1] * 256 + f[e + 2] == fs);
            assert(f[e + 3] != 0);
            let start = fs * 4096;
            let bi = region_body(slots, i);
            let blk = slot_block(s);
            assert(region_body(slots, i + 1) == bi + blk);
            assert(bi.len() == start - 8192);
            assert forall|k: int| 0 <= k < blk.len() implies #[trigger] f[start + k] == blk[k] by {
                assert(f[start + k] == b[start - 8192 + k]);
                assert(b[start - 8192 + k] == region_body(slots, i + 1)[bi.len() + k]);
            }
            let plen = (d.len() + 1) as nat;
            lemma_be_roundtrip(plen, 4);
            assert(blk.len() >= d.len() + 5);
            assert(start + 5 + d.len() <= f.len());
            assert(f.subrange(start, start + 4) =~= be_bytes(plen, 4)) by {
                assert forall|k: int| 0 <= k < 4 implies f.subrange(start, start + 4)[k] == be_bytes(plen, 4)[k] by {
                    assert(f[start + k] == blk[k]);
                }
            }
            assert(be_value(f.subrange(start, start + 4)) == plen);
            assert(f[start + 4] == blk[4]);
            assert(f.subrange(start + 5, start + 4 + plen) =~= d) by {
                assert forall|k: int| 0 <= k < d.len() implies f.subrange(start + 5, start + 4 + plen)[k] == d[k] by {
                    let k5 = 5 + k;
                    assert(0 <= k5 < blk.len());
                    assert(f[start + k5] == blk[k5]);
                    assert(f.subrange(start + 5, start + 4 + plen)[k] == f[start + k5]);
                }
            }
        },
    }
}

/// Reading back the bytes written for the 1024 slots of a region gives the
/// same slots, each stored chunk's type and payload as they were, provided
/// the sector offsets fit in their three bytes and each length field in its
/// four.
pub proof fn region_roundtrip(slots: Seq<Option<(u8, Seq<u8>)>>, now: u32)
    requires
        slots.len() == 1024,
        first_sector(slots, 1024) <= 0x100_0000,
        forall|i: int| 0 <= i < 1024 ==> slot_fits(#[trigger] slots[i]),
    ensures
        region_spec(region_file(slots, now)) == Some(slots),
{
    let f = region_file(slots, now);
    lemma_body_len(slots, 1024);
    assert forall|i: int| 0 <= i < 1024 implies #[trigger] region_slot(f, i) == slots[i] by {
        lemma_region_slot(slots, now, i);
    }
    assert(Seq::new(1024, |i: int| region_slot(f, i)) =~= slots);
}

/// The raw chunk data of a stored slot of compression type `typ`: 1 gzip,
/// 2 zlib, 3 uncompressed; `None` for another type or a stream that does
/// not decode.
pub open spec fn chunk_payload_spec(typ: u8, comp: Seq<u8>) -> Option<Seq<u8>> {
    if typ == 1 {
        gzip_spec(comp)
    } else if typ == 2 {
        zlib_spec(comp)
    } else if typ == 3 {
        Some(comp)
    } else {
        None
    }
}

/// Decompresses the payload of a stored chunk slot (the first step of
/// loading a chunk from its region).
pub fn chunk_payload(typ: u8, comp: &[u8]) -> (r: Option<Vec<u8>>)
    ensures
        match r {
            Some(v) => chunk_payload_spec(typ, comp@) == Some(v@),
            None => chunk_payload_spec(typ, comp@) is None,
        },
{
    if typ == 1 {
        gzip_decompress(comp)
    } else if typ == 2 {
        zlib_decompress(comp)
    } else if typ == 3 {
        Some(vstd::slice::slice_to_vec(comp))
    } else {
        None
    }
}

// ============================================================ colour families

/// Position of block `b` in the family of 16 coloured blocks whose ids
/// start at `base` (white, orange, ..., black), if it belongs to it.
pub fn color_of(b: u16, base: u16) -> (r: Option<usize>)
    requires
        b >= base ==> base + 16 <= u16::MAX,
    ensures
        r == if base <= b < base + 16 { Some((b - base) as usize) } else { None::<usize> },
{
    if b >= base && b < base + 16 {
        Some((b - base) as usize)
    } else {
        None
    }
}

// ============================================================ arrays of longs

/// Number of bits of `x` (0 for 0).
pub open spec fn bit_len(x: nat) -> nat
    decreases x,
{
    if x == 0 { 0 } else { 1 + bit_len(x / 2) }
}

/// Bits needed to index a palette of `v` entries: ceil(log2(v)), 0 for v <= 1.
pub fn ceil_log2s(v: usize) -> (n: u32)
    ensures
        n == bit_len(if v == 0 { 0 } else { (v - 1) as nat }),
{
    let mut n: u32 = 0;
    let mut w: usize = if v == 0 { 0 } else { v - 1 };
    let ghost w0 = w as nat;
    proof {
        lemma_pow2_64();
        lemma_bit_len_bound(w0, 64);
    }
    while w > 0
        invariant
            n + bit_len(w as nat) == bit_len(w0),
            bit_len(w0) <= 64,
        decreases w,
    {
        n += 1;
        w = w / 2;
    }
    n
}

proof fn lemma_bit_len_bound(x: nat, k: nat)
    requires
        x < pow2(k),
    ensures
        bit_len(x) <= k,
    decreases k,
{
    if x > 0 {
        assert(k > 0) by { if k == 0 { assert(pow2(0) == 1); } }
        assert(pow2(k) == 2 * pow2((k - 1) as nat));
        lemma_bit_len_bound(x / 2, (k - 1) as nat);
    }
}

proof fn lemma_pow2_64()
    ensures
        pow2(64) == 0x10000000000000000,
{
    reveal_with_fuel(pow2, 65);
}

/// 2 to the power `k`.
pub open spec fn pow2(k: nat) -> nat
    decreases k,
{
    if k == 0 { 1 } else { 2 * pow2((k - 1) as nat) }
}

/// Mask of the low `bits` bits.
pub open spec fn mask64(bits: u32) -> u64 {
    (((1u64 << (bits as u64)) as int) - 1) as u64
}

/// Slot `s` (of `bits` bits, lowest slot first) of the long `x`.
pub open spec fn slot(x: u64, s: int, bits: u32) -> u64 {
    (x >> ((s * bits) as u64)) & mask64(bits)
}

/// Number of `bits`-bit slots in a long.
pub open spec fn per_long(bits: u32) -> int {
    64int / (bits as int)
}

/// `vals` packed `per_long(bits)` to a long, lowest slot first, each value
/// cut to `bits` bits, the last long padded with zero slots: slot `s` of long
/// `k` holds value `k * per + s`, and no bit above the last slot is set.
pub open spec fn packs_longs(out: Seq<i64>, vals: Seq<u32>, bits: u32) -> bool {
    let per = per_long(bits);
    &&& out.len() == (vals.len() + per - 1) / per
    &&& forall|k: int, s: int| #![trigger slot(out[k] as u64, s, bits)]
        0 <= k < out.len() && 0 <= s < per ==> slot(out[k] as u64, s, bits) == (if k * per + s < vals.len() {
            (vals[k * per + s] as u64) & mask64(bits)
        } else {
            0
        })
    &&& per * bits < 64 ==> forall|k: int| 0 <= k < out.len() ==> (#[trigger] out[k] as u64) >> ((per * bits) as u64) == 0
}

proof fn lemma_slot_insert(acc: u64, w: u64, j: u64, t: u64, bits: u64)
    by (bit_vector)
    requires
        1 <= bits <= 63,
        j + bits <= 64,
        t + bits <= j,
        j < 64 ==> acc >> j == 0,
    ensures
        ((acc | ((w & (((1u64 << bits) - 1) as u64)) << j)) >> t) & (((1u64 << bits) - 1) as u64)
            == (acc >> t) & (((1u64 << bits) - 1) as u64),
{
}

proof fn lemma_slot_insert_new(acc: u64, w: u64, j: u64, bits: u64)
    by (bit_vector)
    requires
        1 <= bits <= 63,
        j + bits <= 64,
        j < 64 ==> acc >> j == 0,
    ensures
        ((acc | ((w & (((1u64 << bits) - 1) as u64)) << j)) >> j) & (((1u64 << bits) - 1) as u64)
            == w & (((1u64 << bits) - 1) as u64),
        j + bits < 64 ==> (acc | ((w & (((1u64 << bits) - 1) as u64)) << j)) >> (j + bits) == 0,
{
}

proof fn lemma_word_facts(x: u64, j: u64)
    by (bit_vector)
    ensures
        (0u64 >> j) == 0,
        ((x as i64) as u64) == x,
{
}

proof fn lemma_zero_slots(x: u64, t: u64, bits: u64)
    by (bit_vector)
    requires
        1 <= bits <= 63,
        t < 64,
        x >> t == 0,
    ensures
        forall|u: u64| t <= u < 64 ==> (x >> u) & (((1u64 << bits) - 1) as u64) == 0,
        forall|u: u64| t <= u < 64 ==> x >> u == 0,
{
}

proof fn lemma_per_long_pos(bits: u32)
    requires
        1 <= bits <= 63,
    ensures
        per_long(bits) >= 1,
        per_long(bits) * bits <= 64,
        64 < (per_long(bits) + 1) * bits,
        bits <= 16 ==> per_long(bits) >= 4,
{
    let per = per_long(bits);
    let b = bits as int;
    assert(per * b <= 64 && 64 < (per + 1) * b && per >= 1) by (nonlinear_arith)
        requires per == 64int / b, 1 <= b <= 63;
    if b <= 16 {
        assert(per >= 4) by (nonlinear_arith)
            requires per * b <= 64, 64 < (per + 1) * b, b <= 16;
    }
}

proof fn lemma_per_long(bits: u32, s: int)
    requires
        1 <= bits <= 63,
        0 <= s < per_long(bits),
    ensures
        per_long(bits) >= 1,
        per_long(bits) * bits <= 64,
        (s + 1) * bits <= 64,
        s * bits + bits <= 64,
        (s + 1) * bits == s * bits + bits,
        (s + 1) * bits + bits == (s + 2) * bits,
        ((s + 1) * bits + bits > 64) == (s + 1 == per_long(bits)),
{
    lemma_per_long_pos(bits);
    let per = per_long(bits);
    let b = bits as int;
    assert((s + 1) * b + b == (s + 2) * b) by (nonlinear_arith);
    assert((s + 1) * b == s * b + b) by (nonlinear_arith);
    assert((s + 1) * b <= per * b) by (nonlinear_arith)
        requires s + 1 <= per, b >= 1;
    if s + 1 < per {
        assert((s + 2) * b <= per * b) by (nonlinear_arith)
            requires s + 2 <= per, b >= 1;
    }
}

proof fn lemma_mask(bits: u32)
    by (bit_vector)
    requires
        1 <= bits <= 63,
    ensures
        (1u64 << (bits as u64)) >= 2,
{
}

proof fn lemma_ceil_div(k0: int, s: int, per: int)
    requires
        0 <= k0,
        0 <= s < per,
    ensures
        (k0 * per + s + per - 1) / per == if s > 0 { k0 + 1 } else { k0 },
{
    if s > 0 {
        assert(k0 * per + s + per - 1 == (k0 + 1) * per + (s - 1)) by (nonlinear_arith);
        vstd::arithmetic::div_mod::lemma_fundamental_div_mod_converse(k0 * per + s + per - 1, per, k0 + 1, s - 1);
    } else {
        vstd::arithmetic::div_mod::lemma_fundamental_div_mod_converse(k0 * per + s + per - 1, per, k0, per - 1);
    }
}

/// Packs `vals` into longs, `64 / bits` values per long, lowest slot first.
pub fn pack_longs_disk(vals: &[u32], bits: u32) -> (out: Vec<i64>)
    requires
        1 <= bits <= 63,
    ensures
        packs_longs(out@, vals@, bits),
{
    proof {
        lemma_per_long_pos(bits);
        lemma_mask(bits);
    }
    let per: usize = (64 / bits) as usize;
    let mask: u64 = (1u64 << bits) - 1;
    let mut out: Vec<i64> = Vec::new();
    let mut acc: u64 = 0;
    let mut j: u32 = 0;
    let ghost mut s: int = 0;
    proof {
        lemma_per_long(bits, 0);
        assert(mask == mask64(bits));
        lemma_word_facts(acc, j as u64);
    }
    for i in 0usize..vals.len()
        invariant
            1 <= bits <= 63,
            per as int == per_long(bits),
            mask == mask64(bits),
            0 <= s < per,
            j as int == s * bits,
            out@.len() * per + s == i,
            j < 64 ==> acc >> (j as u64) == 0,
            forall|t: int| 0 <= t < s ==> #[trigger] slot(acc, t, bits)
                == (vals@[out@.len() * per + t] as u64) & mask64(bits),
            forall|k: int, t: int| #![trigger slot(out@[k] as u64, t, bits)]
                0 <= k < out@.len() && 0 <= t < per ==> slot(out@[k] as u64, t, bits)
                    == (vals@[k * per + t] as u64) & mask64(bits),
            per * bits < 64 ==> forall|k: int| 0 <= k < out@.len() ==> (#[trigger] out@[k] as u64) >> ((per * bits) as u64) == 0,
    {
        let v = vals[i];
        proof { lemma_per_long(bits, s); }
        let ghost old_acc = acc;
        let ghost old_j = j;
        acc = acc | ((v as u64 & mask) << j);
        proof {
            assert forall|t: int| 0 <= t < s implies #[trigger] slot(acc, t, bits)
                == (vals@[out@.len() * per + t] as u64) & mask64(bits) by {
                assert(t * bits + bits <= s * bits) by (nonlinear_arith) requires t + 1 <= s, bits >= 1;
                lemma_slot_insert(old_acc, v as u64, old_j as u64, (t * bits) as u64, bits as u64);
                assert(slot(old_acc, t, bits) == (vals@[out@.len() * per + t] as u64) & mask64(bits));
            }
            lemma_slot_insert_new(old_acc, v as u64, old_j as u64, bits as u64);
            assert(slot(acc, s, bits) == (vals@[out@.len() * per + s] as u64) & mask64(bits));
        }
        j += bits;
        proof { s = s + 1; }
        if j + bits > 64 {
            let ghost k0 = out@.len() as int;
            let ghost prev = out@;
            out.push(acc as i64);
            proof {
                assert(s == per);
                assert forall|k: int, t: int| #![trigger slot(out@[k] as u64, t, bits)]
                    0 <= k < out@.len() && 0 <= t < per implies slot(out@[k] as u64, t, bits)
                        == (vals@[k * per + t] as u64) & mask64(bits) by {
                    if k == k0 {
                        lemma_word_facts(acc, 0);
                        assert(slot(acc, t, bits) == (vals@[k0 * per + t] as u64) & mask64(bits));
                    } else {
                        assert(out@[k] == prev[k]);
                        assert(slot(prev[k] as u64, t, bits) == (vals@[k * per + t] as u64) & mask64(bits));
                    }
                }
                lemma_word_facts(acc, 0);
                assert(old_j + bits == per * bits);
                assert(per * bits < 64 ==> (acc as i64) as u64 >> ((per * bits) as u64) == 0);
                assert((k0 + 1) * per == k0 * per + per) by (nonlinear_arith);
            }
            acc = 0;
            j = 0;
            proof {
                s = 0;
                lemma_word_facts(acc, j as u64);
            }
        }
    }
    let ghost k0 = out@.len() as int;
    let ghost prev = out@;
    proof {
        lemma_per_long(bits, s);
        lemma_ceil_div(k0, s, per as int);
        assert(k0 * per + s == vals@.len());
        assert((j > 0) == (s > 0)) by (nonlinear_arith) requires j as int == s * bits, bits >= 1, s >= 0;
    }
    if j > 0 {
        out.push(acc as i64);
        proof {
            lemma_zero_slots(acc, j as u64, bits as u64);
            lemma_word_facts(acc, 0);
            assert(s * bits <= per * bits) by (nonlinear_arith) requires s <= per, bits >= 1;
        }
    }
    proof {
        assert forall|k: int, t: int| #![trigger slot(out@[k] as u64, t, bits)]
            0 <= k < out@.len() && 0 <= t < per implies slot(out@[k] as u64, t, bits)
                == (if k * per + t < vals@.len() { (vals@[k * per + t] as u64) & mask64(bits) } else { 0 }) by {
            if k == k0 {
                if t < s {
                    assert(slot(acc, t, bits) == (vals@[k0 * per + t] as u64) & mask64(bits));
                } else {
                    assert(t * bits >= s * bits) by (nonlinear_arith) requires t >= s, bits >= 1;
                    assert(t * bits < 64) by (nonlinear_arith) requires t < per, per * bits <= 64, bits >= 1;
                }
            } else {
                assert(out@[k] == prev[k]);
                assert(k * per + t < k0 * per) by (nonlinear_arith) requires k < k0, t < per, 0 <= t;
                assert(slot(prev[k] as u64, t, bits) == (vals@[k * per + t] as u64) & mask64(bits));
            }
        }
        if j > 0 {
            assert(per * bits < 64 ==> acc >> ((per * bits) as u64) == 0);
        }
        assert(per * bits < 64 ==> forall|k: int| 0 <= k < out@.len() ==> (#[trigger] out@[k] as u64) >> ((per * bits) as u64) == 0) by {
            if per * bits < 64 {
                assert forall|k: int| 0 <= k < out@.len() implies (#[trigger] out@[k] as u64) >> ((per * bits) as u64) == 0 by {
                    if k < k0 {
                        assert(out@[k] == prev[k]);
                    }
                }
            }
        }
        assert(out@.len() as int == (vals@.len() + per - 1) / (per as int));
        assert(packs_longs(out@, vals@, bits));
    }
    out
}

/// Number of longs holding `count` values of `bits` bits.
pub open spec fn longs_needed(count: nat, bits: u32) -> int {
    (count + per_long(bits) - 1) / per_long(bits)
}

/// The width `unpack_longs_disk` settles on for `len` longs holding `count`
/// values, trying widths from `bits` up to 15: the first whose long count is
/// exactly `len`; none once a width would need more than `len` longs.
pub open spec fn unpack_width(len: nat, bits: u32, count: nat) -> Option<u32>
    decreases 16 - bits,
{
    if bits > 15 || bits < 1 {
        None
    } else if len < longs_needed(count, bits) {
        None
    } else if len > longs_needed(count, bits) {
        unpack_width(len, (bits + 1) as u32, count)
    } else {
        Some(bits)
    }
}

/// `out` holds the `count` values of `bits` bits read from `longs`: value
/// `l * per + s` is slot `s` of long `l`.
pub open spec fn unpacks(out: Seq<u32>, longs: Seq<i64>, bits: u32, count: nat) -> bool {
    let per = per_long(bits);
    &&& out.len() == count
    &&& forall|l: int, s: int| #![trigger slot(longs[l] as u64, s, bits)]
        0 <= l && 0 <= s < per && l * per + s < count ==> out[l * per + s] == slot(longs[l] as u64, s, bits) as u32
}

/// Unpacks `count` values from longs, guessing the width (vanilla files
/// vary): the first width from `min_bits` to 15 whose long count is exact.
pub fn unpack_longs_disk(longs: &[i64], min_bits: u32, count: usize) -> (r: Option<Vec<u32>>)
    requires
        min_bits >= 1,
    ensures
        match unpack_width(longs@.len(), min_bits, count as nat) {
            Some(bits) => r matches Some(out) && unpacks(out@, longs@, bits, count as nat),
            None => r is None,
        },
{
    let mut bits: u32 = min_bits;
    while bits <= 15
        invariant
            1 <= min_bits <= bits,
            unpack_width(longs@.len(), min_bits, count as nat) == unpack_width(longs@.len(), bits, count as nat),
        decreases 16 - bits,
    {
        proof {
            lemma_per_long_pos(bits);
            lemma_mask(bits);
        }
        let per: usize = (64 / bits) as usize;
        proof {
            lemma_need(count as int, per as int);
        }
        let need = count / per + if count % per == 0 { 0 } else { 1 };
        if longs.len() < need {
            proof { assert(longs_needed(count as nat, bits) == need); }
            return None;
        }
        if longs.len() > need {
            bits += 1;
            continue;
        }
        let mask: u64 = (1u64 << bits) - 1;
        let mut out: Vec<u32> = Vec::new();
        let mut l: usize = 0;
        while l < longs.len() && out.len() < count
            invariant
                1 <= bits <= 15,
                per as int == per_long(bits),
                mask == mask64(bits),
                l <= longs@.len(),
                out@.len() <= count,
                out@.len() == l * per || out@.len() == count,
                l * per >= out@.len(),
                forall|l2: int, s2: int| #![trigger slot(longs@[l2] as u64, s2, bits)]
                    0 <= l2 && 0 <= s2 < per && l2 * per + s2 < out@.len() ==> out@[l2 * per + s2]
                        == slot(longs@[l2] as u64, s2, bits) as u32,
            decreases longs@.len() - l,
        {
            let v = longs[l] as u64;
            let mut j: u32 = 0;
            let ghost mut s: int = 0;
            let ghost base = out@.len();
            while j + bits <= 64 && out.len() < count
                invariant
                    1 <= bits <= 15,
                    per as int == per_long(bits),
                    mask == mask64(bits),
                    l < longs@.len(),
                    v == longs@[l as int] as u64,
                    base == l * per,
                    0 <= s <= per,
                    j as int == s * bits,
                    j <= 64,
                    out@.len() == l * per + s,
                    out@.len() <= count,
                    forall|l2: int, s2: int| #![trigger slot(longs@[l2] as u64, s2, bits)]
                        0 <= l2 && 0 <= s2 < per && l2 * per + s2 < out@.len() ==> out@[l2 * per + s2]
                            == slot(longs@[l2] as u64, s2, bits) as u32,
                decreases 64 - j,
            {
                proof {
                    lemma_per_long_pos(bits);
                    assert(s < per) by (nonlinear_arith)
                        requires s * bits + bits <= 64, per * bits <= 64, 64 < (per + 1) * bits, bits >= 1;
                    lemma_per_long(bits, s);
                }
                let ghost n = out@.len() as int;
                out.push(((v >> j) & mask) as u32);
                proof {
                    assert forall|l2: int, s2: int| #![trigger slot(longs@[l2] as u64, s2, bits)]
                        0 <= l2 && 0 <= s2 < per && l2 * per + s2 < out@.len() implies out@[l2 * per + s2]
                            == slot(longs@[l2] as u64, s2, bits) as u32 by {
                        if l2 * per + s2 == n {
                            lemma_unique_pos(l2, s2, l as int, s, per as int);
                        }
                    }
                    s = s + 1;
                }
                j += bits;
            }
            proof {
                lemma_per_long_pos(bits);
                if out@.len() < count {
                    assert(s == per) by (nonlinear_arith)
                        requires s * bits + bits > 64, s <= per, per * bits <= 64, bits >= 1;
                }
                assert((l + 1) * per == l * per + per) by (nonlinear_arith);
            }
            l += 1;
        }
        proof {
            if out@.len() < count {
                assert(l == longs@.len());
                assert(l * per >= count) by (nonlinear_arith)
                    requires l == (count + per - 1) / (per as int), per >= 1, count >= 0;
            }
        }
        while out.len() < count
            invariant
                out@.len() == count,
                forall|l2: int, s2: int| #![trigger slot(longs@[l2] as u64, s2, bits)]
                    0 <= l2 && 0 <= s2 < per && l2 * per + s2 < out@.len() ==> out@[l2 * per + s2]
                        == slot(longs@[l2] as u64, s2, bits) as u32,
            decreases count - out@.len(),
        {
            out.push(0);
        }
        proof {
            assert(longs@.len() == longs_needed(count as nat, bits));
            assert(unpack_width(longs@.len(), bits, count as nat) == Some(bits));
        }
        return Some(out);
    }
    None
}

proof fn lemma_need(count: int, per: int)
    requires
        count >= 0,
        per >= 2,
    ensures
        count / per + (if count % per == 0 { 0int } else { 1int }) == (count + per - 1) / per,
        count / per <= count / 2,
{
    let q = count / per;
    let r = count % per;
    vstd::arithmetic::div_mod::lemma_fundamental_div_mod(count, per);
    if r == 0 {
        vstd::arithmetic::div_mod::lemma_fundamental_div_mod_converse(count + per - 1, per, q, per - 1);
    } else {
        assert(count + per - 1 == (q + 1) * per + (r - 1)) by (nonlinear_arith)
            requires count == per * q + r;
        vstd::arithmetic::div_mod::lemma_fundamental_div_mod_converse(count + per - 1, per, q + 1, r - 1);
    }
    vstd::arithmetic::div_mod::lemma_div_is_ordered_by_denominator(count, 2, per);
}

proof fn lemma_unique_pos(l1: int, s1: int, l2: int, s2: int, per: int)
    requires
        0 <= s1 < per,
        0 <= s2 < per,
        0 <= l1,
        0 <= l2,
        l1 * per + s1 == l2 * per + s2,
    ensures
        l1 == l2,
        s1 == s2,
{
    if l1 < l2 {
        assert(l1 * per + s1 < l2 * per + s2) by (nonlinear_arith)
            requires l1 + 1 <= l2, s1 < per, s2 >= 0, per >= 1;
    } else if l1 > l2 {
        assert(l2 * per + s2 < l1 * per + s1) by (nonlinear_arith)
            requires l2 + 1 <= l1, s2 < per, s1 >= 0, per >= 1;
    }
}

proof fn lemma_mask_small(v: u64, bits: u64)
    by (bit_vector)
    requires
        1 <= bits <= 63,
        v < (1u64 << bits),
    ensures
        v & (((1u64 << bits) - 1) as u64) == v,
{
}

/// Values of `bits` bits (1 to 15) packed by `pack_longs_disk` unpack with
/// `unpack_longs_disk` from that same width to the same values: the width is
/// found and every value comes back.
pub proof fn longs_roundtrip(vals: Seq<u32>, bits: u32, out: Seq<i64>, back: Seq<u32>)
    requires
        1 <= bits <= 15,
        forall|i: int| 0 <= i < vals.len() ==> (#[trigger] vals[i] as u64) < (1u64 << (bits as u64)),
        packs_longs(out, vals, bits),
        unpacks(back, out, bits, vals.len()),
    ensures
        unpack_width(out.len(), bits, vals.len()) == Some(bits),
        back == vals,
{
    lemma_per_long_pos(bits);
    let per = per_long(bits);
    assert forall|n: int| 0 <= n < vals.len() implies back[n] == vals[n] by {
        let l = n / per;
        let s = n % per;
        vstd::arithmetic::div_mod::lemma_fundamental_div_mod(n, per);
        vstd::arithmetic::div_mod::lemma_mod_pos_bound(n, per);
        vstd::arithmetic::div_mod::lemma_div_pos_is_pos(n, per);
        assert(l * per + s == n) by (nonlinear_arith) requires n == per * l + s;
        assert(l >= 0 && 0 <= s < per);
        assert(l < out.len()) by {
            let x = vals.len() + per - 1;
            let m = out.len() as int;
            assert(m == x / per);
            vstd::arithmetic::div_mod::lemma_fundamental_div_mod(x, per);
            vstd::arithmetic::div_mod::lemma_mod_pos_bound(x, per);
            assert(m * per >= vals.len()) by (nonlinear_arith)
                requires x == per * m + x % per, x % per < per, x == vals.len() + per - 1;
            assert(l * per <= n);
            if l >= m {
                assert(l * per >= m * per) by (nonlinear_arith) requires l >= m, per >= 1;
            }
        }
        assert(back[l * per + s] == slot(out[l] as u64, s, bits) as u32);
        lemma_mask_small(vals[n] as u64, bits as u64);
        assert(slot(out[l] as u64, s, bits) == (vals[l * per + s] as u64) & mask64(bits));
    }
    assert(back =~= vals);
}

/// The loading aliases: common block names without an entry of their own,
/// each with the name of the nearest block that has one (plants fade to
/// grass or air rather than turning into stone).
pub open spec fn alias_pairs() -> Seq<(Seq<char>, Seq<char>)> {
    seq![
        ("tall_grass"@, "short_grass"@),
        ("fern"@, "short_grass"@),
        ("large_fern"@, "short_grass"@),
        ("bush"@, "short_grass"@),
        ("wheat"@, "short_grass"@),
        ("carrots"@, "short_grass"@),
        ("potatoes"@, "short_grass"@),
        ("beetroots"@, "short_grass"@),
        ("vine"@, "short_grass"@),
        ("glow_lichen"@, "short_grass"@),
        ("nether_sprouts"@, "short_grass"@),
        ("redstone_wire"@, "air"@),
        ("rail"@, "air"@),
        ("powered_rail"@, "air"@),
        ("detector_rail"@, "air"@),
        ("activator_rail"@, "air"@),
        ("cobweb"@, "air"@),
        ("scaffolding"@, "air"@),
        ("ice"@, "packed_ice"@),
        ("frosted_ice"@, "packed_ice"@),
        ("clay"@, "mud"@),
        ("stone_bricks"@, "stone"@),
        ("mossy_stone_bricks"@, "stone"@),
        ("chiseled_stone_bricks"@, "stone"@),
        ("cracked_stone_bricks"@, "stone"@),
        ("smooth_stone"@, "stone"@),
        ("infested_stone"@, "stone"@),
        ("andesite_bricks"@, "andesite"@),
        ("cobbled_deepslate"@, "deepslate"@),
        ("deepslate_bricks"@, "deepslate"@),
        ("deepslate_tiles"@, "deepslate"@),
        ("chiseled_deepslate"@, "deepslate"@),
        ("polished_deepslate"@, "deepslate"@),
        ("cracked_deepslate_bricks"@, "deepslate"@),
        ("cracked_deepslate_tiles"@, "deepslate"@),
        ("reinforced_deepslate"@, "deepslate"@),
        ("dirt_path"@, "coarse_dirt"@),
        ("rooted_dirt"@, "dirt"@),
        ("mycelium"@, "podzol"@),
        ("netherrack"@, "stone"@),
        ("soul_sand"@, "mud"@),
        ("soul_soil"@, "mud"@),
        ("mossy_cobblestone"@, "moss_block"@),
        ("polished_andesite"@, "andesite"@),
        ("polished_diorite"@, "diorite"@),
        ("polished_granite"@, "granite"@),
        ("polished_basalt"@, "basalt"@),
        ("smooth_sandstone"@, "sandstone"@),
        ("cut_sandstone"@, "sandstone"@),
        ("smooth_red_sandstone"@, "red_sandstone"@),
        ("cut_red_sandstone"@, "red_sandstone"@),
        ("chest"@, "barrel"@),
        ("trapped_chest"@, "barrel"@),
        ("ender_chest"@, "barrel"@),
        ("furnace"@, "barrel"@),
        ("blast_furnace"@, "barrel"@),
        ("smoker"@, "barrel"@),
        ("hopper"@, "barrel"@),
        ("dispenser"@, "barrel"@),
        ("dropper"@, "barrel"@),
        ("observer"@, "barrel"@),
        ("crafting_table"@, "oak_planks"@),
        ("fletching_table"@, "oak_planks"@),
        ("cartography_table"@, "oak_planks"@),
        ("smithing_table"@, "oak_planks"@),
        ("loom"@, "oak_planks"@),
        ("bookshelf"@, "oak_planks"@),
        ("chiseled_bookshelf"@, "oak_planks"@),
        ("lectern"@, "oak_planks"@),
        ("composter"@, "barrel"@),
        ("note_block"@, "oak_planks"@),
        ("jukebox"@, "oak_planks"@),
        ("oak_slab"@, "oak_planks"@),
        ("oak_stairs"@, "oak_planks"@),
        ("oak_door"@, "oak_planks"@),
        ("oak_trapdoor"@, "oak_planks"@),
        ("oak_fence"@, "oak_planks"@),
        ("oak_fence_gate"@, "oak_planks"@),
        ("spruce_slab"@, "spruce_planks"@),
        ("birch_slab"@, "birch_planks"@),
        ("stone_slab"@, "stone"@),
        ("cobblestone_slab"@, "cobblestone"@),
        ("brick_slab"@, "bricks"@),
        ("glass_pane"@, "glass"@),
        ("iron_bars"@, "glass"@),
        ("lantern"@, "torch"@),
        ("soul_lantern"@, "torch"@),
        ("soul_torch"@, "torch"@),
        ("redstone_torch"@, "torch"@),
        ("candle"@, "torch"@),
        ("sea_lantern"@, "glowstone"@),
        ("shroomlight"@, "glowstone"@),
        ("ochre_froglight"@, "glowstone"@),
        ("verdant_froglight"@, "glowstone"@),
        ("pearlescent_froglight"@, "glowstone"@),
        ("ladder"@, "oak_planks"@),
        ("bell"@, "glowstone"@),
        ("spawner"@, "stone"@),
        ("bell_block"@, "glowstone"@)
    ]
}

/// The alias of `s` from `i` on in `alias_pairs`: the target paired with the
/// first entry named `s`.
pub open spec fn alias_from(s: Seq<char>, i: nat) -> Option<Seq<char>>
    decreases alias_pairs().len() - i,
{
    if i >= alias_pairs().len() {
        None
    } else if alias_pairs()[i as int].0 == s {
        Some(alias_pairs()[i as int].1)
    } else {
        alias_from(s, i + 1)
    }
}

fn alias_table() -> (t: Vec<(&'static str, &'static str)>)
    ensures
        t@.len() == alias_pairs().len(),
        forall|i: int| 0 <= i < t@.len() ==> (#[trigger] t@[i]).0@ == alias_pairs()[i].0 && t@[i].1@
            == alias_pairs()[i].1,
{
    let t = vec![
        ("tall_grass", "short_grass"),
        ("fern", "short_grass"),
        ("large_fern", "short_grass"),
        ("bush", "short_grass"),
        ("wheat", "short_grass"),
        ("carrots", "short_grass"),
        ("potatoes", "short_grass"),
        ("beetroots", "short_grass"),
        ("vine", "short_grass"),
        ("glow_lichen", "short_grass"),
        ("nether_sprouts", "short_grass"),
        ("redstone_wire", "air"),
        ("rail", "air"),
        ("powered_rail", "air"),
        ("detector_rail", "air"),
        ("activator_rail", "air"),
        ("cobweb", "air"),
        ("scaffolding", "air"),
        ("ice", "packed_ice"),
        ("frosted_ice", "packed_ice"),
        ("clay", "mud"),
        ("stone_bricks", "stone"),
        ("mossy_stone_bricks", "stone"),
        ("chiseled_stone_bricks", "stone"),
        ("cracked_stone_bricks", "stone"),
        ("smooth_stone", "stone"),
        ("infested_stone", "stone"),
        ("andesite_bricks", "andesite"),
        ("cobbled_deepslate", "deepslate"),
        ("deepslate_bricks", "deepslate"),
        ("deepslate_tiles", "deepslate"),
        ("chiseled_deepslate", "deepslate"),
        ("polished_deepslate", "deepslate"),
        ("cracked_deepslate_bricks", "deepslate"),
        ("cracked_deepslate_tiles", "deepslate"),
        ("reinforced_deepslate", "deepslate"),
        ("dirt_path", "coarse_dirt"),
        ("rooted_dirt", "dirt"),
        ("mycelium", "podzol"),
        ("netherrack", "stone"),
        ("soul_sand", "mud"),
        ("soul_soil", "mud"),
        ("mossy_cobblestone", "moss_block"),
        ("polished_andesite", "andesite"),
        ("polished_diorite", "diorite"),
        ("polished_granite", "granite"),
        ("polished_basalt", "basalt"),
        ("smooth_sandstone", "sandstone"),
        ("cut_sandstone", "sandstone"),
        ("smooth_red_sandstone", "red_sandstone"),
        ("cut_red_sandstone", "red_sandstone"),
        ("chest", "barrel"),
        ("trapped_chest", "barrel"),
        ("ender_chest", "barrel"),
        ("furnace", "barrel"),
        ("blast_furnace", "barrel"),
        ("smoker", "barrel"),
        ("hopper", "barrel"),
        ("dispenser", "barrel"),
        ("dropper", "barrel"),
        ("observer", "barrel"),
        ("crafting_table", "oak_planks"),
        ("fletching_table", "oak_planks"),
        ("cartography_table", "oak_planks"),
        ("smithing_table", "oak_planks"),
        ("loom", "oak_planks"),
        ("bookshelf", "oak_planks"),
        ("chiseled_bookshelf", "oak_planks"),
        ("lectern", "oak_planks"),
        ("composter", "barrel"),
        ("note_block", "oak_planks"),
        ("jukebox", "oak_planks"),
        ("oak_slab", "oak_planks"),
        ("oak_stairs", "oak_planks"),
        ("oak_door", "oak_planks"),
        ("oak_trapdoor", "oak_planks"),
        ("oak_fence", "oak_planks"),
        ("oak_fence_gate", "oak_planks"),
        ("spruce_slab", "spruce_planks"),
        ("birch_slab", "birch_planks"),
        ("stone_slab", "stone"),
        ("cobblestone_slab", "cobblestone"),
        ("brick_slab", "bricks"),
        ("glass_pane", "glass"),
        ("iron_bars", "glass"),
        ("lantern", "torch"),
        ("soul_lantern", "torch"),
        ("soul_torch", "torch"),
        ("redstone_torch", "torch"),
        ("candle", "torch"),
        ("sea_lantern", "glowstone"),
        ("shroomlight", "glowstone"),
        ("ochre_froglight", "glowstone"),
        ("verdant_froglight", "glowstone"),
        ("pearlescent_froglight", "glowstone"),
        ("ladder", "oak_planks"),
        ("bell", "glowstone"),
        ("spawner", "stone"),
        ("bell_block", "glowstone")
    ];
    t
}

/// The loading alias of a block name: the name of the nearest block that
/// has an entry of its own, where `short` is one of the names that
/// `alias_pairs` lists.
pub fn alias_of(short: &str) -> (r: Option<&'static str>)
    ensures
        match alias_from(short@, 0) {
            Some(v) => r matches Some(a) && a@ == v,
            None => r is None,
        },
{
    let sc = chars_of(short);
    let t = alias_table();
    let mut i: usize = 0;
    while i < t.len()
        invariant
            i <= t@.len(),
            sc@ == short@,
            t@.len() == alias_pairs().len(),
            forall|k: int| 0 <= k < t@.len() ==> (#[trigger] t@[k]).0@ == alias_pairs()[k].0 && t@[k].1@
                == alias_pairs()[k].1,
            alias_from(short@, 0) == alias_from(short@, i as nat),
        decreases t@.len() - i,
    {
        let (k, v) = t[i];
        let kc = chars_of(k);
        if chars_eq(&kc, &sc) {
            return Some(v);
        }
        i += 1;
    }
    None
}

} // verus!
