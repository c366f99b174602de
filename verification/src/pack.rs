//! Texture packs: a DEFLATE decoder (RFC 1951), a PNG decoder and encoder,
//! a ZIP reader, and the pack's texture index.
use vstd::prelude::*;
use crate::bytes::{le_bytes, le_value, be_bytes, be_value, get_le, get_be, push_le, push_be, pow256,
    lemma_le_value_bound, lemma_be_value_bound, lemma_le_roundtrip, lemma_be_roundtrip};
use crate::mcproto::{push_bytes, from_utf8_lossy, lossy_text};
pub use crate::png::{Rgba, png_decode, png_encode};
use crate::png::{png_spec, tile_source, tile_byte, lemma_png_dims};
use crate::text::{starts_with, ends_with, occurs_at, find_from, key_lt, lowercase, chars_of, string_of,
    lower_chars, to_lowercase, chars_start_with, chars_end_with, chars_find, chars_eq, chars_lt,
    lemma_key_lt_irrefl, lemma_key_lt_trans, lemma_key_lt_total, lemma_key_lt_asym};

verus! {

// ------------------------------------------------------------------ bits

/// Bit `q` of `d`, bytes in order, each byte least significant bit first.
pub open spec fn bit_at(d: Seq<u8>, q: int) -> u32 {
    ((d[q / 8] >> ((q % 8) as u8)) & 1) as u32
}

/// The `n` bits of `d` from bit `q`, the first one read as the least
/// significant.
pub open spec fn bits_at(d: Seq<u8>, q: int, n: nat) -> u32
    decreases n,
{
    if n == 0 {
        0
    } else {
        bits_at(d, q, (n - 1) as nat) | (bit_at(d, q + n - 1) << ((n - 1) as u32))
    }
}

/// LSB-first bit reader (RFC 1951 bit order).
pub struct BitReader<'a> {
    data: &'a [u8],
    pos: usize,
    bit: u32,
}

impl<'a> BitReader<'a> {
    /// The bytes read.
    pub closed spec fn bytes(&self) -> Seq<u8> {
        self.data@
    }

    /// The position, in bits.
    pub closed spec fn q(&self) -> int {
        self.pos * 8 + self.bit
    }

    /// The position is within the bytes, on a bit of a byte.
    pub closed spec fn wf(&self) -> bool {
        &&& self.bit < 8
        &&& self.pos * 8 + self.bit <= 8 * self.data@.len()
    }

    fn new(data: &'a [u8]) -> (r: BitReader<'a>)
        ensures
            r.wf(),
            r.bytes() == data@,
            r.q() == 0,
    {
        BitReader { data, pos: 0, bit: 0 }
    }

    /// Reads one bit; `None`, with the position unchanged, at the end.
    fn read_bit(&mut self) -> (r: Option<u32>)
        requires
            old(self).wf(),
        ensures
            final(self).wf(),
            final(self).bytes() == old(self).bytes(),
            old(self).q() < 8 * old(self).bytes().len() ==> r == Some(bit_at(old(self).bytes(), old(self).q()))
                && final(self).q() == old(self).q() + 1,
            old(self).q() >= 8 * old(self).bytes().len() ==> r is None && final(self).q() == old(self).q(),
    {
        if self.pos >= self.data.len() {
            return None;
        }
        let b = (self.data[self.pos] >> self.bit) & 1;
        self.bit += 1;
        if self.bit == 8 {
            self.bit = 0;
            self.pos += 1;
        }
        Some(b as u32)
    }

    /// Reads `n` bits, the first one as the least significant. `None` when the
    /// input ends first; the position is then at the end.
    fn read_bits(&mut self, n: u32) -> (r: Option<u32>)
        requires
            old(self).wf(),
            n <= 32,
        ensures
            final(self).wf(),
            final(self).bytes() == old(self).bytes(),
            old(self).q() + n <= 8 * old(self).bytes().len() ==> r == Some(bits_at(old(self).bytes(), old(self).q(), n as nat))
                && final(self).q() == old(self).q() + n,
            old(self).q() + n > 8 * old(self).bytes().len() ==> r is None,
    {
        let mut v: u32 = 0;
        for i in 0u32..n
            invariant
                self.wf(),
                self.bytes() == old(self).bytes(),
                self.q() == old(self).q() + i,
                v == bits_at(old(self).bytes(), old(self).q(), i as nat),
                n <= 32,
        {
            let b = match self.read_bit() {
                Some(b) => b,
                None => return None,
            };
            v = v | (b << i);
        }
        Some(v)
    }

    /// Skips to the next byte boundary.
    fn align_byte(&mut self)
        requires
            old(self).wf(),
        ensures
            final(self).wf(),
            final(self).bytes() == old(self).bytes(),
            final(self).q() == (old(self).q() + 7) / 8 * 8,
    {
        if self.bit != 0 {
            assert(self.pos < self.data.len());
            self.bit = 0;
            self.pos += 1;
        }
    }
}

// ------------------------------------------------------------------ Huffman

/// Number of symbols below `k` with code length `l`.
pub open spec fn cnt_below(lengths: Seq<u8>, k: int, l: int) -> nat
    decreases k,
{
    if k <= 0 {
        0
    } else {
        cnt_below(lengths, k - 1, l) + if lengths[k - 1] == l { 1nat } else { 0nat }
    }
}

/// Number of symbols with code length `l`.
pub open spec fn cnt_len(lengths: Seq<u8>, l: int) -> nat {
    cnt_below(lengths, lengths.len() as int, l)
}

/// Number of symbols with a code length from 1 to `l - 1`: where the
/// canonical codes of length `l` start in the symbol order.
pub open spec fn len_start(lengths: Seq<u8>, l: int) -> nat
    decreases l,
{
    if l <= 1 {
        0
    } else {
        len_start(lengths, l - 1) + cnt_len(lengths, l - 1)
    }
}

/// Place of symbol `s` in the canonical order: by code length, then by symbol.
pub open spec fn sym_rank(lengths: Seq<u8>, s: int) -> int {
    (len_start(lengths, lengths[s] as int) + cnt_below(lengths, s, lengths[s] as int)) as int
}

/// Code counts per length of a canonical Huffman code (none of length 0).
pub open spec fn huff_counts(lengths: Seq<u8>) -> Seq<u16> {
    Seq::new(16, |l: int| if l == 0 { 0u16 } else { cnt_len(lengths, l) as u16 })
}

/// Symbols of a canonical Huffman code in canonical order, zero-padded to
/// the number of symbols.
pub open spec fn huff_symbols(lengths: Seq<u8>) -> Seq<u16> {
    Seq::new(lengths.len(), |p: int|
        if exists|s: int| 0 <= s < lengths.len() && lengths[s] != 0 && sym_rank(lengths, s) == p {
            (choose|s: int| 0 <= s < lengths.len() && lengths[s] != 0 && sym_rank(lengths, s) == p) as u16
        } else {
            0u16
        })
}

/// Sum of `counts[1..l]`.
pub open spec fn csum(counts: Seq<u16>, l: int) -> int
    decreases l,
{
    if l <= 1 {
        0
    } else {
        csum(counts, l - 1) + counts[l - 1]
    }
}

/// Canonical Huffman decoding table: code counts per length and symbols in
/// canonical order.
pub struct Huff {
    counts: [u16; 16],
    symbols: Vec<u16>,
}

impl View for Huff {
    type V = (Seq<u16>, Seq<u16>);

    closed spec fn view(&self) -> (Seq<u16>, Seq<u16>) {
        (self.counts@, self.symbols@)
    }
}

/// The counts and symbols can be indexed as the decoder does.
pub open spec fn huff_wf(h: (Seq<u16>, Seq<u16>)) -> bool {
    &&& h.0.len() == 16
    &&& h.0[0] == 0
    &&& csum(h.0, 16) <= h.1.len()
}

proof fn lemma_cnt_below_bound(lengths: Seq<u8>, k: int, l: int)
    requires
        0 <= k <= lengths.len(),
    ensures
        cnt_below(lengths, k, l) <= k,
    decreases k,
{
    if k > 0 {
        lemma_cnt_below_bound(lengths, k - 1, l);
    }
}

/// Over all lengths 0 to 15, the counts add up to the number of symbols.
proof fn lemma_cnt_sum(lengths: Seq<u8>, k: int)
    requires
        0 <= k <= lengths.len(),
        forall|i: int| 0 <= i < lengths.len() ==> #[trigger] lengths[i] <= 15,
    ensures
        cnt_below(lengths, k, 0) + len_start_below(lengths, k, 16) == k,
    decreases k,
{
    if k > 0 {
        lemma_cnt_sum(lengths, k - 1);
        lemma_start_below_step(lengths, k, 16);
        assert(lengths[k - 1] <= 15);
    } else {
        lemma_start_below_zero(lengths, 16);
    }
}

/// Number of symbols below `k` with a code length from 1 to `l - 1`.
pub open spec fn len_start_below(lengths: Seq<u8>, k: int, l: int) -> nat
    decreases l,
{
    if l <= 1 {
        0
    } else {
        len_start_below(lengths, k, l - 1) + cnt_below(lengths, k, l - 1)
    }
}

proof fn lemma_start_below_zero(lengths: Seq<u8>, l: int)
    ensures
        len_start_below(lengths, 0, l) == 0,
    decreases l,
{
    if l > 1 {
        lemma_start_below_zero(lengths, l - 1);
    }
}

proof fn lemma_start_below_step(lengths: Seq<u8>, k: int, l: int)
    requires
        0 < k <= lengths.len(),
    ensures
        len_start_below(lengths, k, l) == len_start_below(lengths, k - 1, l)
            + if 1 <= lengths[k - 1] < l { 1nat } else { 0nat },
    decreases l,
{
    if l > 1 {
        lemma_start_below_step(lengths, k, l - 1);
    }
}

proof fn lemma_start_is_below(lengths: Seq<u8>, l: int)
    ensures
        len_start(lengths, l) == len_start_below(lengths, lengths.len() as int, l),
    decreases l,
{
    if l > 1 {
        lemma_start_is_below(lengths, l - 1);
    }
}

proof fn lemma_csum_counts(lengths: Seq<u8>, l: int)
    requires
        l <= 16,
        forall|j: int| 1 <= j < 16 ==> cnt_len(lengths, j) < 65536,
    ensures
        csum(huff_counts(lengths), l) == len_start(lengths, l),
    decreases l,
{
    if l > 1 {
        lemma_csum_counts(lengths, l - 1);
    }
}

proof fn lemma_start_mono(lengths: Seq<u8>, a: int, b: int)
    requires
        a <= b,
    ensures
        len_start(lengths, a) <= len_start(lengths, b),
    decreases b - a,
{
    if a < b {
        lemma_start_mono(lengths, a, b - 1);
    }
}

proof fn lemma_cnt_below_mono(lengths: Seq<u8>, a: int, b: int, l: int)
    requires
        a <= b,
    ensures
        cnt_below(lengths, a, l) <= cnt_below(lengths, b, l),
    decreases b - a,
{
    if a < b {
        lemma_cnt_below_mono(lengths, a, b - 1, l);
    }
}

/// Symbols with a code take distinct places below the number of coded symbols.
proof fn lemma_rank(lengths: Seq<u8>, s: int, t: int)
    requires
        0 <= s < lengths.len(),
        0 <= t < lengths.len(),
        lengths[s] != 0,
        lengths[t] != 0,
        forall|i: int| 0 <= i < lengths.len() ==> #[trigger] lengths[i] <= 15,
    ensures
        0 <= sym_rank(lengths, s) < len_start(lengths, 16),
        s != t ==> sym_rank(lengths, s) != sym_rank(lengths, t),
{
    let ls = lengths[s] as int;
    let lt = lengths[t] as int;
    lemma_cnt_below_mono(lengths, s + 1, lengths.len() as int, ls);
    lemma_start_mono(lengths, ls + 1, 16);
    if s != t {
        if ls == lt {
            if s < t {
                lemma_cnt_below_mono(lengths, s + 1, t, ls);
            } else {
                lemma_cnt_below_mono(lengths, t + 1, s, ls);
            }
        } else if ls < lt {
            lemma_start_mono(lengths, ls + 1, lt);
            lemma_cnt_below_mono(lengths, s + 1, lengths.len() as int, ls);
        } else {
            lemma_start_mono(lengths, lt + 1, ls);
            lemma_cnt_below_mono(lengths, t + 1, lengths.len() as int, lt);
        }
    }
}

impl Huff {
    /// Builds the canonical decoding table of the code lengths `lengths`.
    fn new(lengths: &[u8]) -> (h: Huff)
        requires
            lengths@.len() < 65536,
            forall|i: int| 0 <= i < lengths@.len() ==> #[trigger] lengths@[i] <= 15,
        ensures
            h@ == (huff_counts(lengths@), huff_symbols(lengths@)),
            huff_wf(h@),
    {
        let ghost ls = lengths@;
        let mut counts = [0u16; 16];
        for k in 0usize..lengths.len()
            invariant
                ls == lengths@,
                ls.len() < 65536,
                forall|i: int| 0 <= i < ls.len() ==> #[trigger] ls[i] <= 15,
                forall|l: int| 0 <= l < 16 ==> #[trigger] counts@[l] == cnt_below(ls, k as int, l),
        {
            let l = lengths[k] as usize;
            proof {
                assert(ls[k as int] <= 15);
                lemma_cnt_below_bound(ls, k as int, l as int);
            }
            counts[l] = counts[l] + 1;
            proof {
                assert forall|l2: int| 0 <= l2 < 16 implies #[trigger] counts@[l2] == cnt_below(ls, k + 1, l2) by {}
            }
        }
        counts[0] = 0;
        proof {
            assert forall|l: int| 1 <= l < 16 implies cnt_len(ls, l) < 65536 by {
                lemma_cnt_below_bound(ls, ls.len() as int, l);
            }
            assert(counts@ =~= huff_counts(ls));
            lemma_cnt_sum(ls, ls.len() as int);
            lemma_start_is_below(ls, 16);
            lemma_csum_counts(ls, 16);
        }
        let mut offs = [0u16; 16];
        for i in 1usize..15
            invariant
                counts@ == huff_counts(ls),
                len_start(ls, 16) <= ls.len(),
                ls.len() < 65536,
                forall|l: int| 1 <= l <= i ==> #[trigger] offs@[l] == len_start(ls, l),
        {
            proof {
                lemma_start_mono(ls, i + 1, 16);
            }
            offs[i + 1] = offs[i] + counts[i];
        }
        let mut symbols: Vec<u16> = vec![0u16; lengths.len()];
        for sym in 0usize..lengths.len()
            invariant
                ls == lengths@,
                ls.len() < 65536,
                forall|i: int| 0 <= i < ls.len() ==> #[trigger] ls[i] <= 15,
                len_start(ls, 16) <= ls.len(),
                symbols@.len() == ls.len(),
                forall|l: int| 1 <= l < 16 ==> #[trigger] offs@[l] == len_start(ls, l) + cnt_below(ls, sym as int, l),
                forall|s: int| 0 <= s < sym && ls[s] != 0 ==> symbols@[sym_rank(ls, s)] == s,
                forall|p: int| 0 <= p < ls.len() && !(exists|s: int| 0 <= s < sym && ls[s] != 0 && sym_rank(ls, s) == p)
                    ==> #[trigger] symbols@[p] == 0,
        {
            let l = lengths[sym] as usize;
            if l != 0 {
                proof {
                    assert(ls[sym as int] <= 15);
                    lemma_rank(ls, sym as int, sym as int);
                    assert(offs@[l as int] == sym_rank(ls, sym as int));
                }
                let ghost p0 = offs@[l as int] as int;
                symbols.set(offs[l] as usize, sym as u16);
                offs[l] = offs[l] + 1;
                proof {
                    assert forall|s: int| 0 <= s < sym + 1 && ls[s] != 0 implies symbols@[sym_rank(ls, s)] == s by {
                        if s < sym {
                            lemma_rank(ls, s, sym as int);
                        }
                    }
                    assert forall|p: int| 0 <= p < ls.len() && !(exists|s: int| 0 <= s < sym + 1 && ls[s] != 0 && sym_rank(ls, s) == p)
                        implies #[trigger] symbols@[p] == 0 by {
                        assert(p != p0);
                        if exists|s: int| 0 <= s < sym && ls[s] != 0 && sym_rank(ls, s) == p {
                            let s = choose|s: int| 0 <= s < sym && ls[s] != 0 && sym_rank(ls, s) == p;
                            assert(0 <= s < sym + 1 && ls[s] != 0 && sym_rank(ls, s) == p);
                        }
                    }
                    assert forall|l2: int| 1 <= l2 < 16 implies #[trigger] offs@[l2] == len_start(ls, l2) + cnt_below(ls, sym + 1, l2) by {}
                }
            } else {
                proof {
                    assert forall|p: int| 0 <= p < ls.len() && !(exists|s: int| 0 <= s < sym + 1 && ls[s] != 0 && sym_rank(ls, s) == p)
                        implies #[trigger] symbols@[p] == 0 by {
                        if exists|s: int| 0 <= s < sym && ls[s] != 0 && sym_rank(ls, s) == p {
                            let s = choose|s: int| 0 <= s < sym && ls[s] != 0 && sym_rank(ls, s) == p;
                            assert(0 <= s < sym + 1 && ls[s] != 0 && sym_rank(ls, s) == p);
                        }
                    }
                    assert forall|l2: int| 1 <= l2 < 16 implies #[trigger] offs@[l2] == len_start(ls, l2) + cnt_below(ls, sym + 1, l2) by {}
                }
            }
        }
        proof {
            assert forall|p: int| 0 <= p < ls.len() implies #[trigger] symbols@[p] == huff_symbols(ls)[p] by {
                if exists|s: int| 0 <= s < ls.len() && ls[s] != 0 && sym_rank(ls, s) == p {
                    let s = choose|s: int| 0 <= s < ls.len() && ls[s] != 0 && sym_rank(ls, s) == p;
                    assert(symbols@[sym_rank(ls, s)] == s);
                }
            }
            assert(symbols@ =~= huff_symbols(ls));
        }
        Huff { counts, symbols }
    }
}

/// Decodes one symbol with the table `h` from bit `q` of `d`: the code is
/// read one bit at a time, first bit most significant; at each length the
/// codes of that length are the next `counts[len]` values after those of
/// shorter lengths (canonical order). Gives the symbol and the position after
/// its code, or `None` when the input ends or no code of 15 bits or less matches.
pub open spec fn huff_walk(h: (Seq<u16>, Seq<u16>), d: Seq<u8>, q: int, len: int, code: int, first: int, index: int)
    -> Option<(u16, int)>
    decreases 16 - len,
{
    if len < 1 || len > 15 || q < 0 || q >= 8 * d.len() {
        None
    } else {
        let code2 = code + bit_at(d, q);
        let count = h.0[len] as int;
        if code2 - first < count {
            Some((h.1[index + code2 - first], q + 1))
        } else {
            huff_walk(h, d, q + 1, len + 1, code2 * 2, (first + count) * 2, index + count)
        }
    }
}

/// Decodes one symbol with the table `h` from bit `q` of `d`.
pub open spec fn huff_decode(h: (Seq<u16>, Seq<u16>), d: Seq<u8>, q: int) -> Option<(u16, int)> {
    huff_walk(h, d, q, 1, 0, 0, 0)
}

proof fn lemma_csum_mono(counts: Seq<u16>, a: int, b: int)
    requires
        a <= b,
    ensures
        csum(counts, a) <= csum(counts, b),
    decreases b - a,
{
    if a < b {
        lemma_csum_mono(counts, a, b - 1);
    }
}

/// A decoded symbol's code takes at least one bit.
pub proof fn lemma_huff_walk_advances(h: (Seq<u16>, Seq<u16>), d: Seq<u8>, q: int, len: int, code: int, first: int, index: int)
    ensures
        huff_walk(h, d, q, len, code, first, index) matches Some((_, q2)) ==> q < q2 <= 8 * d.len(),
    decreases 16 - len,
{
    if !(len < 1 || len > 15 || q < 0 || q >= 8 * d.len()) {
        let code2 = code + bit_at(d, q);
        let count = h.0[len] as int;
        if code2 - first >= count {
            lemma_huff_walk_advances(h, d, q + 1, len + 1, code2 * 2, (first + count) * 2, index + count);
        }
    }
}

pub proof fn lemma_bit_le1(d: Seq<u8>, q: int)
    requires
        0 <= q < 8 * d.len(),
    ensures
        bit_at(d, q) <= 1,
{
    let b = d[q / 8];
    let sh = (q % 8) as u8;
    assert(((b >> sh) & 1) <= 1) by (bit_vector);
}

proof fn lemma_i32_ops(code: i32, b: i32, x: i32)
    by (bit_vector)
    requires
        0 <= code < 0x4000_0000,
        code % 2 == 0,
        0 <= b <= 1,
        0 <= x < 0x4000_0000,
    ensures
        code | b == code + b,
        x << 1 == x * 2,
{
}

proof fn lemma_pow2_le(a: nat, b: nat)
    requires
        a <= b,
    ensures
        crate::anvil::pow2(a) <= crate::anvil::pow2(b),
        crate::anvil::pow2(16) == 65536,
    decreases b - a,
{
    reveal_with_fuel(crate::anvil::pow2, 17);
    if a < b {
        lemma_pow2_le(a, (b - 1) as nat);
    }
}

impl Huff {
    /// Decodes one symbol from `br`.
    fn decode(&self, br: &mut BitReader) -> (r: Option<u16>)
        requires
            old(br).wf(),
            huff_wf(self@),
        ensures
            final(br).wf(),
            final(br).bytes() == old(br).bytes(),
            match huff_decode(self@, old(br).bytes(), old(br).q()) {
                Some((sym, q2)) => r == Some(sym) && final(br).q() == q2,
                None => r is None,
            },
    {
        let mut code: i32 = 0;
        let mut first: i32 = 0;
        let mut index: i32 = 0;
        let mut len: usize = 1;
        proof { lemma_pow2_le(1, 16); reveal_with_fuel(crate::anvil::pow2, 2); }
        while len <= 15
            invariant
                1 <= len <= 16,
                br.wf(),
                br.bytes() == old(br).bytes(),
                huff_wf(self@),
                0 <= first <= code,
                code < crate::anvil::pow2(len as nat),
                crate::anvil::pow2(len as nat) <= 65536,
                code % 2 == 0,
                0 <= index,
                index as int == csum(self@.0, len as int),
                csum(self@.0, 16) <= self@.1.len(),
                index <= 65535 * len,
                huff_decode(self@, old(br).bytes(), old(br).q())
                    == huff_walk(self@, br.bytes(), br.q(), len as int, code as int, first as int, index as int),
            decreases 16 - len,
        {
            let ghost q0 = br.q();
            let b = match br.read_bit() {
                Some(b) => b,
                None => return None,
            };
            proof {
                lemma_bit_le1(br.bytes(), q0);
                lemma_i32_ops(code, b as i32, 0);
            }
            code = code | b as i32;
            let count = self.counts[len] as i32;
            if code - first < count {
                proof {
                    lemma_csum_mono(self@.0, len as int + 1, 16);
                }
                return Some(self.symbols[(index + (code - first)) as usize]);
            }
            proof {
                lemma_csum_mono(self@.0, len as int + 1, 16);
                lemma_i32_ops(0, 0, (first + count) as i32);
                lemma_i32_ops(0, 0, code);
                assert(crate::anvil::pow2(len as nat + 1) == 2 * crate::anvil::pow2(len as nat));
                lemma_pow2_le(len as nat + 1, 16);
            }
            index += count;
            first = (first + count) << 1;
            code <<= 1;
            len += 1;
        }
        None
    }
}

// ------------------------------------------------------------ fixed codes

/// The `n` bits of `d` from bit `q` read as a number, the first one as the
/// most significant (how Huffman codes are packed).
pub open spec fn msb_at(d: Seq<u8>, q: int, n: int) -> int
    decreases n,
{
    if n <= 0 {
        0
    } else {
        2 * msb_at(d, q, n - 1) + bit_at(d, q + n - 1)
    }
}

/// The first canonical code of length `len` for the code counts `counts`.
pub open spec fn canon_first(counts: Seq<u16>, len: int) -> int
    decreases len,
{
    if len <= 1 {
        0
    } else {
        (canon_first(counts, len - 1) + counts[len - 1]) * 2
    }
}

/// Code and code length of a literal/length symbol in the fixed code
/// (RFC 1951, 3.2.6).
pub open spec fn fixed_lit_code(sym: int) -> (int, int) {
    if sym < 144 {
        (0x30 + sym, 8)
    } else if sym < 256 {
        (0x190 + sym - 144, 9)
    } else if sym < 280 {
        (sym - 256, 7)
    } else {
        (0xC0 + sym - 280, 8)
    }
}

proof fn lemma_msb_step(d: Seq<u8>, q: int, n: int)
    requires
        0 <= q,
        0 <= n,
        q + n < 8 * d.len(),
    ensures
        2 * msb_at(d, q, n) <= msb_at(d, q, n + 1) <= 2 * msb_at(d, q, n) + 1,
        0 <= msb_at(d, q, n),
    decreases n,
{
    lemma_bit_le1(d, q + n);
    if n > 0 {
        lemma_msb_step(d, q, n - 1);
    }
}

/// Reading a code of length `len_end` whose prefixes of the shorter lengths
/// are past the codes of those lengths gives the symbol at its canonical
/// place.
proof fn lemma_walk_code(h: (Seq<u16>, Seq<u16>), d: Seq<u8>, q0: int, len: int, len_end: int)
    requires
        1 <= len <= len_end <= 15,
        0 <= q0,
        q0 + len_end <= 8 * d.len(),
        forall|j: int| len <= j < len_end ==> msb_at(d, q0, j) - canon_first(h.0, j) >= #[trigger] h.0[j],
        msb_at(d, q0, len_end) - canon_first(h.0, len_end) < h.0[len_end],
    ensures
        huff_walk(h, d, q0 + len - 1, len, 2 * msb_at(d, q0, len - 1), canon_first(h.0, len), csum(h.0, len))
            == Some((h.1[csum(h.0, len_end) + msb_at(d, q0, len_end) - canon_first(h.0, len_end)], q0 + len_end)),
    decreases len_end - len,
{
    assert(msb_at(d, q0, len) == 2 * msb_at(d, q0, len - 1) + bit_at(d, q0 + len - 1));
    if len < len_end {
        assert(msb_at(d, q0, len) - canon_first(h.0, len) >= h.0[len]);
        lemma_walk_code(h, d, q0, len + 1, len_end);
    }
}

/// Number of `j` below `k` in `[a, b)`.
pub open spec fn span(k: int, a: int, b: int) -> int {
    if k <= a { 0 } else if k >= b { b - a } else { k - a }
}

/// How many of the first `k` fixed literal/length code lengths equal `l`.
pub open spec fn fixed_lit_cnt(k: int, l: int) -> int {
    if l == 7 {
        span(k, 256, 280)
    } else if l == 8 {
        span(k, 0, 144) + span(k, 280, 288)
    } else if l == 9 {
        span(k, 144, 256)
    } else {
        0
    }
}

proof fn lemma_fixed_lit_cnt(k: int)
    requires
        0 <= k <= 288,
    ensures
        forall|l: int| #[trigger] cnt_below(fixed_lit_lengths(), k, l) == fixed_lit_cnt(k, l),
    decreases k,
{
    if k > 0 {
        lemma_fixed_lit_cnt(k - 1);
        assert forall|l: int| #[trigger] cnt_below(fixed_lit_lengths(), k, l) == fixed_lit_cnt(k, l) by {
            assert(cnt_below(fixed_lit_lengths(), k - 1, l) == fixed_lit_cnt(k - 1, l));
        }
    }
}

proof fn lemma_fixed_dist_cnt(k: int)
    requires
        0 <= k <= 30,
    ensures
        forall|l: int| #[trigger] cnt_below(fixed_dist_lengths(), k, l) == if l == 5 { k } else { 0 },
    decreases k,
{
    if k > 0 {
        lemma_fixed_dist_cnt(k - 1);
        assert forall|l: int| #[trigger] cnt_below(fixed_dist_lengths(), k, l) == if l == 5 { k } else { 0 } by {
            assert(cnt_below(fixed_dist_lengths(), k - 1, l) == if l == 5 { k - 1 } else { 0 });
        }
    }
}

/// A symbol with a code sits at its canonical place in the symbol table.
proof fn lemma_symbol_at_rank(ls: Seq<u8>, s: int)
    requires
        0 <= s < ls.len(),
        ls.len() < 65536,
        ls[s] != 0,
        forall|i: int| 0 <= i < ls.len() ==> #[trigger] ls[i] <= 15,
    ensures
        0 <= sym_rank(ls, s) < ls.len(),
        huff_symbols(ls)[sym_rank(ls, s)] == s as u16,
{
    lemma_rank(ls, s, s);
    lemma_cnt_sum(ls, ls.len() as int);
    lemma_start_is_below(ls, 16);
    let p = sym_rank(ls, s);
    assert(exists|t: int| 0 <= t < ls.len() && ls[t] != 0 && sym_rank(ls, t) == p);
    let t = choose|t: int| 0 <= t < ls.len() && ls[t] != 0 && sym_rank(ls, t) == p;
    lemma_rank(ls, s, t);
}

proof fn lemma_fixed_lit_table()
    ensures
        forall|j: int| 0 < j < 16 ==> #[trigger] huff_counts(fixed_lit_lengths())[j] == fixed_lit_cnt(288, j),
        forall|j: int| 1 <= j <= 7 ==> #[trigger] canon_first(huff_counts(fixed_lit_lengths()), j) == 0,
        canon_first(huff_counts(fixed_lit_lengths()), 8) == 48,
        canon_first(huff_counts(fixed_lit_lengths()), 9) == 400,
        csum(huff_counts(fixed_lit_lengths()), 7) == 0,
        csum(huff_counts(fixed_lit_lengths()), 8) == 24,
        csum(huff_counts(fixed_lit_lengths()), 9) == 176,
{
    let ls = fixed_lit_lengths();
    let c = huff_counts(ls);
    lemma_fixed_lit_cnt(288);
    assert forall|j: int| 0 < j < 16 implies #[trigger] c[j] == fixed_lit_cnt(288, j) by {
        assert(cnt_len(ls, j) == cnt_below(ls, 288, j));
    }
    assert forall|j: int| 1 <= j <= 7 implies #[trigger] canon_first(c, j) == 0 by {
        reveal_with_fuel(canon_first, 7);
    }
    assert(csum(c, 7) == 0) by {
        reveal_with_fuel(csum, 7);
    }
    assert(c[7] == 24);
    assert(c[8] == 152);
    assert(canon_first(c, 7) == 0);
    assert(canon_first(c, 8) == 48);
    assert(canon_first(c, 9) == 400);
}

proof fn lemma_fixed_lit_symbol(sym: int)
    requires
        0 <= sym < 288,
    ensures
        huff_symbols(fixed_lit_lengths())[csum(huff_counts(fixed_lit_lengths()), fixed_lit_code(sym).1)
            + fixed_lit_code(sym).0 - canon_first(huff_counts(fixed_lit_lengths()), fixed_lit_code(sym).1)] == sym as u16,
{
    let ls = fixed_lit_lengths();
    let c = huff_counts(ls);
    let len_end = fixed_lit_code(sym).1;
    let r = csum(c, len_end) + fixed_lit_code(sym).0 - canon_first(c, len_end);
    assert(r == sym_rank(ls, sym)) by {
        lemma_fixed_lit_table();
        lemma_fixed_lit_cnt(sym);
        assert(cnt_below(ls, sym, len_end) == fixed_lit_cnt(sym, len_end));
        lemma_fixed_lit_cnt(288);
        assert forall|j: int| 0 < j < 16 implies #[trigger] cnt_len(ls, j) < 65536 by {
            assert(cnt_len(ls, j) == cnt_below(ls, 288, j));
        }
        lemma_csum_counts(ls, len_end);
        assert(ls[sym] == len_end);
    }
    assert forall|i: int| 0 <= i < ls.len() implies #[trigger] ls[i] <= 15 && ls[i] != 0 by {}
    lemma_symbol_at_rank(ls, sym);
}

/// Reading the fixed code of a literal/length symbol gives the symbol.
pub proof fn lemma_fixed_lit_decode(d: Seq<u8>, q: int, sym: int)
    requires
        0 <= sym < 288,
        0 <= q,
        q + fixed_lit_code(sym).1 <= 8 * d.len(),
        msb_at(d, q, fixed_lit_code(sym).1) == fixed_lit_code(sym).0,
    ensures
        huff_decode(huff_of(fixed_lit_lengths()), d, q) == Some((sym as u16, q + fixed_lit_code(sym).1)),
{
    let h = huff_of(fixed_lit_lengths());
    let len_end = fixed_lit_code(sym).1;
    lemma_fixed_lit_table();
    lemma_fixed_lit_symbol(sym);
    lemma_fixed_lit_prefixes(d, q, sym);
    lemma_walk_code(h, d, q, 1, len_end);
}

/// The prefixes of a fixed literal/length code are past the codes of
/// their lengths.
proof fn lemma_fixed_lit_prefixes(d: Seq<u8>, q: int, sym: int)
    requires
        0 <= sym < 288,
        0 <= q,
        q + fixed_lit_code(sym).1 <= 8 * d.len(),
        msb_at(d, q, fixed_lit_code(sym).1) == fixed_lit_code(sym).0,
    ensures
        forall|j: int| 1 <= j < fixed_lit_code(sym).1 ==>
            msb_at(d, q, j) - canon_first(huff_counts(fixed_lit_lengths()), j) >= #[trigger] huff_counts(fixed_lit_lengths())[j],
{
    let c = huff_counts(fixed_lit_lengths());
    let len_end = fixed_lit_code(sym).1;
    lemma_fixed_lit_table();
    assert forall|j: int| 0 <= j < len_end implies msb_at(d, q, j) >= 0 by {
        lemma_msb_step(d, q, j);
    }
    if len_end >= 8 {
        lemma_msb_step(d, q, 7);
    }
    if len_end == 9 {
        lemma_msb_step(d, q, 8);
    }
    assert forall|j: int| 1 <= j < len_end implies msb_at(d, q, j) - canon_first(c, j) >= #[trigger] c[j] by {
    }
}

proof fn lemma_fixed_dist_table()
    ensures
        forall|j: int| 0 < j < 16 ==> #[trigger] huff_counts(fixed_dist_lengths())[j] == if j == 5 { 30int } else { 0int },
        forall|j: int| 1 <= j <= 5 ==> #[trigger] canon_first(huff_counts(fixed_dist_lengths()), j) == 0,
        csum(huff_counts(fixed_dist_lengths()), 5) == 0,
        forall|s: int| 0 <= s < 30 ==> #[trigger] huff_symbols(fixed_dist_lengths())[s] == s as u16,
{
    let ls = fixed_dist_lengths();
    let c = huff_counts(ls);
    lemma_fixed_dist_cnt(30);
    assert forall|j: int| 0 < j < 16 implies #[trigger] c[j] == if j == 5 { 30int } else { 0int } by {
        assert(cnt_len(ls, j) == cnt_below(ls, 30, j));
    }
    assert forall|j: int| 1 <= j <= 5 implies #[trigger] canon_first(c, j) == 0 by {
        reveal_with_fuel(canon_first, 5);
    }
    assert(csum(c, 5) == 0) by {
        reveal_with_fuel(csum, 5);
    }
    assert(len_start(ls, 5) == 0) by {
        reveal_with_fuel(len_start, 5);
    }
    assert forall|s: int| 0 <= s < 30 implies #[trigger] huff_symbols(ls)[s] == s as u16 by {
        assert forall|i: int| 0 <= i < ls.len() implies #[trigger] ls[i] <= 15 by {}
        assert(cnt_below(ls, s, 5) == s) by {
            lemma_fixed_dist_cnt(s);
        }
        lemma_symbol_at_rank(ls, s);
    }
}

/// Reading five bits `ds` (below 30) with the fixed distance code gives `ds`.
pub proof fn lemma_fixed_dist_decode(d: Seq<u8>, q: int, ds: int)
    requires
        0 <= ds < 30,
        0 <= q,
        q + 5 <= 8 * d.len(),
        msb_at(d, q, 5) == ds,
    ensures
        huff_decode(huff_of(fixed_dist_lengths()), d, q) == Some((ds as u16, q + 5)),
{
    let h = huff_of(fixed_dist_lengths());
    lemma_fixed_dist_table();
    assert forall|j: int| 0 <= j < 5 implies msb_at(d, q, j) >= 0 by {
        lemma_msb_step(d, q, j);
    }
    assert forall|j: int| 1 <= j < 5 implies msb_at(d, q, j) - canon_first(h.0, j) >= #[trigger] h.0[j] by {
    }
    lemma_walk_code(h, d, q, 1, 5);
}

// ------------------------------------------------------------------ inflate

pub const LEN_BASE: [u16; 29] = [
    3, 4, 5, 6, 7, 8, 9, 10, 11, 13, 15, 17, 19, 23, 27, 31, 35, 43, 51, 59, 67, 83, 99, 115,
    131, 163, 195, 227, 258,
];
pub const LEN_EXTRA: [u8; 29] = [
    0, 0, 0, 0, 0, 0, 0, 0, 1, 1, 1, 1, 2, 2, 2, 2, 3, 3, 3, 3, 4, 4, 4, 4, 5, 5, 5, 5, 0,
];
pub const DIST_BASE: [u16; 30] = [
    1, 2, 3, 4, 5, 7, 9, 13, 17, 25, 33, 49, 65, 97, 129, 193, 257, 385, 513, 769, 1025, 1537,
    2049, 3073, 4097, 6145, 8193, 12289, 16385, 24577,
];
pub const DIST_EXTRA: [u8; 30] = [
    0, 0, 0, 0, 1, 1, 2, 2, 3, 3, 4, 4, 5, 5, 6, 6, 7, 7, 8, 8, 9, 9, 10, 10, 11, 11, 12, 12,
    13, 13,
];
/// Order in which code length code lengths are stored.
pub const CL_ORDER: [usize; 19] = [16, 17, 18, 0, 8, 7, 9, 6, 10, 5, 11, 4, 12, 3, 13, 2, 14, 1, 15];
/// Where each code length code length is stored in `CL_ORDER`.
pub const CL_RANK: [usize; 19] = [3, 17, 15, 13, 11, 9, 7, 5, 4, 6, 8, 10, 12, 14, 16, 18, 0, 1, 2];

/// Decoding table of the code lengths `lengths`.
pub open spec fn huff_of(lengths: Seq<u8>) -> (Seq<u16>, Seq<u16>) {
    (huff_counts(lengths), huff_symbols(lengths))
}

/// Code lengths of the fixed literal/length code (RFC 1951, 3.2.6).
pub open spec fn fixed_lit_lengths() -> Seq<u8> {
    Seq::new(288, |i: int| if i < 144 { 8u8 } else if i < 256 { 9u8 } else if i < 280 { 7u8 } else { 8u8 })
}

/// Code lengths of the fixed distance code.
pub open spec fn fixed_dist_lengths() -> Seq<u8> {
    Seq::new(30, |i: int| 5u8)
}

/// `out` followed by `n` bytes copied one at a time from `dist` bytes back.
pub open spec fn lz_copy(out: Seq<u8>, dist: int, n: nat) -> Seq<u8>
    decreases n,
{
    if n == 0 {
        out
    } else {
        lz_copy(out.push(out[out.len() - dist]), dist, (n - 1) as nat)
    }
}

/// Decodes literal/length and distance codes from bit `q` up to the end of
/// block code: the output and the position after it, or `None` on a bad or
/// truncated code or a distance past the start of the output.
pub open spec fn inflate_codes(d: Seq<u8>, q: int, out: Seq<u8>, lit: (Seq<u16>, Seq<u16>), dist: (Seq<u16>, Seq<u16>))
    -> Option<(Seq<u8>, int)>
    decreases 8 * d.len() - q
    via inflate_codes_decreases
{
    match huff_decode(lit, d, q) {
        None => None,
        Some((sym, q1)) => {
            if sym < 256 {
                inflate_codes(d, q1, out.push(sym as u8), lit, dist)
            } else if sym == 256 {
                Some((out, q1))
            } else {
                let li = sym - 257;
                if li >= 29 {
                    None
                } else {
                    let ex = LEN_EXTRA@[li] as nat;
                    if q1 + ex > 8 * d.len() {
                        None
                    } else {
                        let n = LEN_BASE@[li] + bits_at(d, q1, ex);
                        let q2 = q1 + ex;
                        match huff_decode(dist, d, q2) {
                            None => None,
                            Some((ds, q3)) => {
                                if ds >= 30 {
                                    None
                                } else {
                                    let ex2 = DIST_EXTRA@[ds as int] as nat;
                                    if q3 + ex2 > 8 * d.len() {
                                        None
                                    } else {
                                        let dd = DIST_BASE@[ds as int] + bits_at(d, q3, ex2);
                                        if dd > out.len() {
                                            None
                                        } else {
                                            inflate_codes(d, q3 + ex2, lz_copy(out, dd, n as nat), lit, dist)
                                        }
                                    }
                                }
                            },
                        }
                    }
                }
            }
        },
    }
}

#[via_fn]
proof fn inflate_codes_decreases(d: Seq<u8>, q: int, out: Seq<u8>, lit: (Seq<u16>, Seq<u16>), dist: (Seq<u16>, Seq<u16>)) {
    lemma_huff_walk_advances(lit, d, q, 1, 0, 0, 0);
    if let Some((sym, q1)) = huff_decode(lit, d, q) {
        if sym > 256 && sym - 257 < 29 {
            let li = sym - 257;
            let ex = LEN_EXTRA@[li as int] as nat;
            lemma_huff_walk_advances(dist, d, q1 + ex, 1, 0, 0, 0);
        }
    }
}

/// `lengths` with the `rep` entries from `i` set to `v`.
pub open spec fn fill_lengths(lengths: Seq<u8>, i: int, rep: int, v: u8) -> Seq<u8> {
    Seq::new(lengths.len(), |k: int| if i <= k < i + rep { v } else { lengths[k] })
}

/// Decodes code lengths `i..total` with the code length code `clh` from bit
/// `q` (RFC 1951, 3.2.7): 0-15 literally, 16 repeats the previous length
/// 3-6 times, 17 and 18 skip 3-10 and 11-138 zero lengths (up to `total`).
pub open spec fn read_code_lengths(d: Seq<u8>, q: int, clh: (Seq<u16>, Seq<u16>), lengths: Seq<u8>, i: int, total: int)
    -> Option<(Seq<u8>, int)>
    decreases 8 * d.len() - q
    via read_code_lengths_decreases
{
    if i >= total {
        Some((lengths, q))
    } else {
        match huff_decode(clh, d, q) {
            None => None,
            Some((sym, q1)) => {
                if sym <= 15 {
                    read_code_lengths(d, q1, clh, lengths.update(i, sym as u8), i + 1, total)
                } else if sym == 16 {
                    if i == 0 || q1 + 2 > 8 * d.len() {
                        None
                    } else {
                        let rep = 3 + bits_at(d, q1, 2);
                        if i + rep > total {
                            None
                        } else {
                            read_code_lengths(d, q1 + 2, clh, fill_lengths(lengths, i, rep, lengths[i - 1]), i + rep, total)
                        }
                    }
                } else if sym == 17 {
                    if q1 + 3 > 8 * d.len() {
                        None
                    } else {
                        let rep = 3 + bits_at(d, q1, 3);
                        read_code_lengths(d, q1 + 3, clh, lengths, if i + rep < total { i + rep } else { total }, total)
                    }
                } else if sym == 18 {
                    if q1 + 7 > 8 * d.len() {
                        None
                    } else {
                        let rep = 11 + bits_at(d, q1, 7);
                        read_code_lengths(d, q1 + 7, clh, lengths, if i + rep < total { i + rep } else { total }, total)
                    }
                } else {
                    None
                }
            },
        }
    }
}

#[via_fn]
proof fn read_code_lengths_decreases(d: Seq<u8>, q: int, clh: (Seq<u16>, Seq<u16>), lengths: Seq<u8>, i: int, total: int) {
    lemma_huff_walk_advances(clh, d, q, 1, 0, 0, 0);
}

/// The 19 code length code lengths: 3 bits each from bit `q`, the first
/// `hclen` in `CL_ORDER`, the others 0.
pub open spec fn cl_lengths(d: Seq<u8>, q: int, hclen: int) -> Seq<u8> {
    Seq::new(19, |j: int| if (CL_RANK@[j] as int) < hclen { bits_at(d, q + 3 * CL_RANK@[j], 3) as u8 } else { 0u8 })
}

/// The tables of a dynamic Huffman block whose header starts at bit `q`,
/// and the position after the header.
pub open spec fn dynamic_tables(d: Seq<u8>, q: int)
    -> Option<((Seq<u16>, Seq<u16>), (Seq<u16>, Seq<u16>), int)>
{
    if q + 14 > 8 * d.len() {
        None
    } else {
        let hlit = bits_at(d, q, 5) + 257;
        let hdist = bits_at(d, q + 5, 5) + 1;
        let hclen = bits_at(d, q + 10, 4) + 4;
        let q1 = q + 14;
        if q1 + 3 * hclen > 8 * d.len() {
            None
        } else {
            let clh = huff_of(cl_lengths(d, q1, hclen as int));
            match read_code_lengths(d, q1 + 3 * hclen, clh, Seq::new((hlit + hdist) as nat, |k: int| 0u8), 0, hlit + hdist) {
                None => None,
                Some((ls, q2)) => Some((
                    huff_of(ls.subrange(0, hlit as int)),
                    huff_of(ls.subrange(hlit as int, (hlit + hdist) as int)),
                    q2,
                )),
            }
        }
    }
}

/// A stored block whose data starts at the byte after bit `q`: LEN (2 bytes
/// LE), NLEN (not checked), LEN bytes copied.
pub open spec fn stored_block(d: Seq<u8>, q: int, out: Seq<u8>) -> Option<(Seq<u8>, int)> {
    let p = (q + 7) / 8;
    if p + 4 > d.len() {
        None
    } else {
        let n = le_value(d.subrange(p, p + 2)) as int;
        if p + 4 + n > d.len() {
            None
        } else {
            Some((out + d.subrange(p + 4, p + 4 + n), (p + 4 + n) * 8))
        }
    }
}

/// Decodes the body of a block of type `btype` starting at bit `q1`, after
/// `out`: the output and the position after the block.
#[verifier::opaque]
pub open spec fn inflate_block(d: Seq<u8>, q1: int, out: Seq<u8>, btype: u32) -> Option<(Seq<u8>, int)> {
    if btype == 0 {
        stored_block(d, q1, out)
    } else if btype == 1 {
        inflate_codes(d, q1, out, huff_of(fixed_lit_lengths()), huff_of(fixed_dist_lengths()))
    } else if btype == 2 {
        match dynamic_tables(d, q1) {
            None => None,
            Some((lit, dist, q2)) => inflate_codes(d, q2, out, lit, dist),
        }
    } else {
        None
    }
}

/// Decodes the block starting at bit `q` and the ones after it until the
/// final block, after `out`.
pub open spec fn inflate_from(d: Seq<u8>, q: int, out: Seq<u8>) -> Option<Seq<u8>>
    decreases 8 * d.len() - q
    via inflate_from_decreases
{
    if q < 0 || q + 3 > 8 * d.len() {
        None
    } else {
        let bfinal = bit_at(d, q);
        let btype = bits_at(d, q + 1, 2);
        match inflate_block(d, q + 3, out, btype) {
            None => None,
            Some((out2, q2)) => if bfinal == 1 { Some(out2) } else { inflate_from(d, q2, out2) },
        }
    }
}

/// The bytes a raw DEFLATE stream (RFC 1951) decodes to, or `None`.
pub open spec fn inflate_spec(d: Seq<u8>) -> Option<Seq<u8>> {
    inflate_from(d, 0, Seq::empty())
}

/// One literal of a compressed block.
pub proof fn lemma_codes_literal(d: Seq<u8>, q: int, out: Seq<u8>, lit: (Seq<u16>, Seq<u16>), dist: (Seq<u16>, Seq<u16>), sym: u16, q1: int)
    requires
        huff_decode(lit, d, q) == Some((sym, q1)),
        sym < 256,
    ensures
        inflate_codes(d, q, out, lit, dist) == inflate_codes(d, q1, out.push(sym as u8), lit, dist),
{
}

/// The end of a compressed block.
pub proof fn lemma_codes_end(d: Seq<u8>, q: int, out: Seq<u8>, lit: (Seq<u16>, Seq<u16>), dist: (Seq<u16>, Seq<u16>), q1: int)
    requires
        huff_decode(lit, d, q) == Some((256u16, q1)),
    ensures
        inflate_codes(d, q, out, lit, dist) == Some((out, q1)),
{
}

/// One copy of a compressed block, with its length code `li` and distance
/// code `di`.
pub proof fn lemma_codes_copy(d: Seq<u8>, q: int, out: Seq<u8>, lit: (Seq<u16>, Seq<u16>), dist: (Seq<u16>, Seq<u16>),
    li: int, q1: int, n: int, di: int, dd: int)
    requires
        0 <= li < 29,
        0 <= di < 30,
        huff_decode(lit, d, q) == Some(((257 + li) as u16, q1)),
        q1 + LEN_EXTRA@[li] <= 8 * d.len(),
        n == LEN_BASE@[li] + bits_at(d, q1, LEN_EXTRA@[li] as nat),
        huff_decode(dist, d, q1 + LEN_EXTRA@[li]) == Some((di as u16, q1 + LEN_EXTRA@[li] + 5)),
        q1 + LEN_EXTRA@[li] + 5 + DIST_EXTRA@[di] <= 8 * d.len(),
        dd == DIST_BASE@[di] + bits_at(d, q1 + LEN_EXTRA@[li] + 5, DIST_EXTRA@[di] as nat),
        dd <= out.len(),
        n >= 0,
    ensures
        inflate_codes(d, q, out, lit, dist)
            == inflate_codes(d, q1 + LEN_EXTRA@[li] + 5 + DIST_EXTRA@[di], lz_copy(out, dd, n as nat), lit, dist),
{
}

proof fn lemma_codes_advance(d: Seq<u8>, q: int, out: Seq<u8>, lit: (Seq<u16>, Seq<u16>), dist: (Seq<u16>, Seq<u16>))
    ensures
        inflate_codes(d, q, out, lit, dist) matches Some((_, q2)) ==> q < q2 <= 8 * d.len(),
    decreases 8 * d.len() - q,
{
    lemma_huff_walk_advances(lit, d, q, 1, 0, 0, 0);
    if let Some((sym, q1)) = huff_decode(lit, d, q) {
        if sym > 256 && sym - 257 < 29 {
            let ex = LEN_EXTRA@[(sym - 257) as int] as nat;
            lemma_huff_walk_advances(dist, d, q1 + ex, 1, 0, 0, 0);
        }
        if sym < 256 {
            lemma_codes_advance(d, q1, out.push(sym as u8), lit, dist);
        } else if sym > 256 && sym - 257 < 29 {
            let li = sym - 257;
            let ex = LEN_EXTRA@[li as int] as nat;
            if q1 + ex <= 8 * d.len() {
                let n = LEN_BASE@[li as int] + bits_at(d, q1, ex);
                if let Some((ds, q3)) = huff_decode(dist, d, q1 + ex) {
                    if ds < 30 {
                        let ex2 = DIST_EXTRA@[ds as int] as nat;
                        let dd = DIST_BASE@[ds as int] + bits_at(d, q3, ex2);
                        if q3 + ex2 <= 8 * d.len() && dd <= out.len() {
                            lemma_codes_advance(d, q3 + ex2, lz_copy(out, dd, n as nat), lit, dist);
                        }
                    }
                }
            }
        }
    }
}

proof fn lemma_lengths_advance(d: Seq<u8>, q: int, clh: (Seq<u16>, Seq<u16>), lengths: Seq<u8>, i: int, total: int)
    requires
        q <= 8 * d.len(),
    ensures
        read_code_lengths(d, q, clh, lengths, i, total) matches Some((_, q2)) ==> q <= q2 <= 8 * d.len(),
    decreases 8 * d.len() - q,
{
    if i < total {
        lemma_huff_walk_advances(clh, d, q, 1, 0, 0, 0);
        if let Some((sym, q1)) = huff_decode(clh, d, q) {
            if sym <= 15 {
                lemma_lengths_advance(d, q1, clh, lengths.update(i, sym as u8), i + 1, total);
            } else if sym == 16 {
                if i != 0 && q1 + 2 <= 8 * d.len() {
                    let rep = 3 + bits_at(d, q1, 2);
                    lemma_lengths_advance(d, q1 + 2, clh, fill_lengths(lengths, i, rep, lengths[i - 1]), i + rep, total);
                }
            } else if sym == 17 {
                if q1 + 3 <= 8 * d.len() {
                    let rep = 3 + bits_at(d, q1, 3);
                    lemma_lengths_advance(d, q1 + 3, clh, lengths, if i + rep < total { i + rep } else { total }, total);
                }
            } else if sym == 18 {
                if q1 + 7 <= 8 * d.len() {
                    let rep = 11 + bits_at(d, q1, 7);
                    lemma_lengths_advance(d, q1 + 7, clh, lengths, if i + rep < total { i + rep } else { total }, total);
                }
            }
        }
    }
}

#[via_fn]
proof fn inflate_from_decreases(d: Seq<u8>, q: int, out: Seq<u8>) {
    reveal(inflate_block);
    if !(q < 0 || q + 3 > 8 * d.len()) {
        let q1 = q + 3;
        lemma_codes_advance(d, q1, out, huff_of(fixed_lit_lengths()), huff_of(fixed_dist_lengths()));
        if let Some((lit, dist, q2)) = dynamic_tables(d, q1) {
            let hclen = bits_at(d, q1 + 10, 4) + 4;
            let hlit = bits_at(d, q1, 5) + 257;
            let hdist = bits_at(d, q1 + 5, 5) + 1;
            let clh = huff_of(cl_lengths(d, q1 + 14, hclen as int));
            lemma_lengths_advance(d, q1 + 14 + 3 * hclen, clh, Seq::new((hlit + hdist) as nat, |k: int| 0u8), 0, hlit + hdist);
            lemma_codes_advance(d, q2, out, lit, dist);
        }
    }
}

proof fn lemma_shift_step(x: u32, b: u32, k: u32)
    by (bit_vector)
    requires
        k < 31,
        x < (1u32 << k),
        b <= 1,
    ensures
        x | (b << k) < (1u32 << ((k + 1) as u32)),
{
}

/// The powers of two up to `2^13`, as shifts.
pub proof fn lemma_small_shifts()
    by (bit_vector)
    ensures
        (1u32 << 0u32) == 1,
        (1u32 << 1u32) == 2,
        (1u32 << 2u32) == 4,
        (1u32 << 3u32) == 8,
        (1u32 << 4u32) == 16,
        (1u32 << 5u32) == 32,
        (1u32 << 6u32) == 64,
        (1u32 << 7u32) == 128,
        (1u32 << 8u32) == 256,
        (1u32 << 9u32) == 512,
        (1u32 << 10u32) == 1024,
        (1u32 << 11u32) == 2048,
        (1u32 << 12u32) == 4096,
        (1u32 << 13u32) == 8192,
{
}

/// Reading `n` bits gives less than `2^n`.
proof fn lemma_bits_bound(d: Seq<u8>, q: int, n: nat)
    requires
        n <= 16,
        0 <= q,
        q + n <= 8 * d.len(),
    ensures
        bits_at(d, q, n) < (1u32 << (n as u32)),
    decreases n,
{
    if n == 0 {
        lemma_small_shifts();
    } else {
        lemma_bits_bound(d, q, (n - 1) as nat);
        lemma_bit_le1(d, q + n - 1);
        lemma_shift_step(bits_at(d, q, (n - 1) as nat), bit_at(d, q + n - 1), (n - 1) as u32);
    }
}

proof fn lemma_bits_small(d: Seq<u8>, q: int, n: nat)
    requires
        n == 2 || n == 3 || n == 4 || n == 5 || n == 7 || n <= 13,
        0 <= q,
        q + n <= 8 * d.len(),
    ensures
        n == 2 ==> bits_at(d, q, n) < 4,
        n == 3 ==> bits_at(d, q, n) < 8,
        n == 4 ==> bits_at(d, q, n) < 16,
        n == 5 ==> bits_at(d, q, n) < 32,
        n == 7 ==> bits_at(d, q, n) < 128,
        n <= 13 ==> bits_at(d, q, n) < 8192,
{
    lemma_small_shifts();
    lemma_bits_bound(d, q, n);
    lemma_shift_mono(n as u32, 13);
}

proof fn lemma_shift_mono(a: u32, b: u32)
    by (bit_vector)
    requires
        a <= b,
        b < 31,
    ensures
        (1u32 << a) <= (1u32 << b),
{
}

/// Decodes literal/length and distance codes into `out` up to the end of
/// block code; `false` on a bad code (then `out` and the position are left
/// anywhere).
fn inflate_codes_exec(br: &mut BitReader, out: &mut Vec<u8>, lit: &Huff, dist: &Huff) -> (ok: bool)
    requires
        old(br).wf(),
        huff_wf(lit@),
        huff_wf(dist@),
    ensures
        final(br).wf(),
        final(br).bytes() == old(br).bytes(),
        match inflate_codes(old(br).bytes(), old(br).q(), old(out)@, lit@, dist@) {
            Some((o, q2)) => ok && final(out)@ == o && final(br).q() == q2,
            None => !ok,
        },
{
    let ghost d = br.bytes();
    loop
        invariant
            br.wf(),
            br.bytes() == d,
            d == old(br).bytes(),
            huff_wf(lit@),
            huff_wf(dist@),
            inflate_codes(d, old(br).q(), old(out)@, lit@, dist@) == inflate_codes(d, br.q(), out@, lit@, dist@),
        decreases 8 * d.len() - br.q(),
    {
        let ghost q0 = br.q();
        proof {
            lemma_huff_walk_advances(lit@, d, q0, 1, 0, 0, 0);
        }
        let sym = match lit.decode(br) {
            Some(s) => s,
            None => return false,
        };
        if sym < 256 {
            out.push(sym as u8);
        } else if sym == 256 {
            return true;
        } else {
            let li = (sym - 257) as usize;
            if li >= 29 {
                return false;
            }
            let ghost q1 = br.q();
            let ex = LEN_EXTRA[li] as u32;
            let e = match br.read_bits(ex) {
                Some(e) => e,
                None => return false,
            };
            proof { lemma_bits_small(d, q1, ex as nat); }
            let len = LEN_BASE[li] as usize + e as usize;
            let ghost q2 = br.q();
            proof { lemma_huff_walk_advances(dist@, d, q2, 1, 0, 0, 0); }
            let ds = match dist.decode(br) {
                Some(x) => x as usize,
                None => return false,
            };
            if ds >= 30 {
                return false;
            }
            let ghost q3 = br.q();
            let ex2 = DIST_EXTRA[ds] as u32;
            let e2 = match br.read_bits(ex2) {
                Some(e) => e,
                None => return false,
            };
            proof { lemma_bits_small(d, q3, ex2 as nat); }
            let dd = DIST_BASE[ds] as usize + e2 as usize;
            if dd > out.len() {
                return false;
            }
            let start = out.len() - dd;
            let ghost out0 = out@;
            let mut k: usize = 0;
            while k < len
                invariant
                    k <= len,
                    out@.len() == out0.len() + k,
                    start == out0.len() - dd,
                    1 <= dd <= out0.len(),
                    lz_copy(out0, dd as int, len as nat) == lz_copy(out@, dd as int, (len - k) as nat),
                decreases len - k,
            {
                assert(start + k < out.len());
                let b = out[start + k];
                out.push(b);
                k += 1;
            }
        }
    }
}

/// Reads a dynamic block's header and builds its two tables; `None` on a
/// bad or truncated header.
fn read_dynamic(br: &mut BitReader) -> (r: Option<(Huff, Huff)>)
    requires
        old(br).wf(),
    ensures
        final(br).wf(),
        final(br).bytes() == old(br).bytes(),
        match dynamic_tables(old(br).bytes(), old(br).q()) {
            Some((lit, dist, q2)) => r matches Some((l, dd)) && l@ == lit && dd@ == dist
                && huff_wf(l@) && huff_wf(dd@) && final(br).q() == q2,
            None => r is None,
        },
{
    let ghost d = br.bytes();
    let ghost q = br.q();
    let v1 = match br.read_bits(5) {
        Some(v) => v,
        None => return None,
    };
    proof { lemma_bits_small(d, q, 5); }
    let hlit = v1 as usize + 257;
    let v2 = match br.read_bits(5) {
        Some(v) => v,
        None => return None,
    };
    proof { lemma_bits_small(d, q + 5, 5); }
    let hdist = v2 as usize + 1;
    let v3 = match br.read_bits(4) {
        Some(v) => v,
        None => return None,
    };
    proof {
        lemma_bits_small(d, q + 10, 4);
        lemma_cl_order();
    }
    let hclen = v3 as usize + 4;
    let ghost q1 = br.q();
    let mut cl = [0u8; 19];
    for k in 0usize..hclen
        invariant
            br.wf(),
            br.bytes() == d,
            d == old(br).bytes(),
            q == old(br).q(),
            hclen as int == bits_at(d, q + 10, 4) + 4,
            q + 14 <= 8 * d.len(),
            q1 + 3 * k <= 8 * d.len() ==> true,
            hclen <= 19,
            br.q() == q1 + 3 * k,
            q1 == q + 14,
            forall|j: int| 0 <= j < 19 ==> #[trigger] CL_ORDER@[CL_RANK@[j] as int] == j,
            forall|j: int| 0 <= j < 19 ==> #[trigger] CL_RANK@[CL_ORDER@[j] as int] == j,
            forall|j: int| 0 <= j < 19 ==> (#[trigger] CL_RANK@[j]) < 19,
            forall|j: int| 0 <= j < 19 ==> (#[trigger] CL_ORDER@[j]) < 19,
            forall|j: int| 0 <= j < 19 ==> #[trigger] cl@[j] == if (CL_RANK@[j] as int) < k { bits_at(d, q1 + 3 * CL_RANK@[j], 3) as u8 } else { 0u8 },
    {
        let ghost qk = br.q();
        let v = match br.read_bits(3) {
            Some(v) => v,
            None => {
                proof { assert(q1 + 3 * hclen > 8 * d.len()); }
                return None;
            },
        };
        proof { lemma_bits_small(d, qk, 3); }
        let o = CL_ORDER[k];
        cl[o] = v as u8;
        proof {
            assert forall|j: int| 0 <= j < 19 implies #[trigger] cl@[j] == if (CL_RANK@[j] as int) < k + 1 { bits_at(d, q1 + 3 * CL_RANK@[j], 3) as u8 } else { 0u8 } by {
                if j == o as int {
                    assert(CL_RANK@[j] == k);
                } else {
                    assert(CL_RANK@[j] != k);
                }
            }
        }
    }
    proof {
        assert(cl@ =~= cl_lengths(d, q1, hclen as int));
        assert forall|j: int| 0 <= j < 19 implies #[trigger] cl@[j] <= 15 by {
            if (CL_RANK@[j] as int) < hclen {
                lemma_bits_small(d, q1 + 3 * CL_RANK@[j], 3);
            }
        }
    }
    let clh = Huff::new(cl.as_slice());
    let total = hlit + hdist;
    let mut lengths: Vec<u8> = vec![0u8; total];
    let mut i: usize = 0;
    proof {
        assert(lengths@ =~= Seq::new((bits_at(d, q, 5) + 257 + bits_at(d, q + 5, 5) + 1) as nat, |k: int| 0u8));
    }
    let ghost l0 = lengths@;
    let ghost q2 = br.q();
    let ghost whole = match read_code_lengths(d, q2, clh@, l0, 0, total as int) {
        None => None,
        Some((ls, q3)) => Some((huff_of(ls.subrange(0, hlit as int)), huff_of(ls.subrange(hlit as int, total as int)), q3)),
    };
    proof {
        assert(q2 == q1 + 3 * hclen);
        assert(clh@ == huff_of(cl_lengths(d, q1, hclen as int)));
        assert(dynamic_tables(d, q) == whole);
    }
    while i < total
        invariant
            br.wf(),
            br.bytes() == d,
            d == old(br).bytes(),
            dynamic_tables(d, q) == whole,
            q == old(br).q(),
            hlit <= 288,
            hlit < total,
            whole == match read_code_lengths(d, q2, clh@, l0, 0, total as int) {
                None => None,
                Some((ls, q3)) => Some((huff_of(ls.subrange(0, hlit as int)), huff_of(ls.subrange(hlit as int, total as int)), q3)),
            },
            huff_wf(clh@),
            i <= total,
            total <= 320,
            lengths@.len() == total,
            forall|k: int| 0 <= k < total ==> #[trigger] lengths@[k] <= 15,
            read_code_lengths(d, q2, clh@, l0, 0, total as int)
                == read_code_lengths(d, br.q(), clh@, lengths@, i as int, total as int),
        decreases 8 * d.len() - br.q(),
    {
        let ghost qa = br.q();
        proof { lemma_huff_walk_advances(clh@, d, qa, 1, 0, 0, 0); }
        let sym = match clh.decode(br) {
            Some(s) => s,
            None => return None,
        };
        let ghost qb = br.q();
        if sym <= 15 {
            lengths.set(i, sym as u8);
            i += 1;
        } else if sym == 16 {
            if i == 0 {
                return None;
            }
            let prev = lengths[i - 1];
            let rv = match br.read_bits(2) {
                Some(r) => r,
                None => return None,
            };
            proof { lemma_bits_small(d, qb, 2); }
            let r = rv as usize + 3;
            let ghost i0 = i as int;
            let ghost ls0 = lengths@;
            proof {
                if i0 + r > total {
                    assert(read_code_lengths(d, qa, clh@, ls0, i0, total as int) is None);
                }
            }
            let mut t: usize = 0;
            while t < r
                invariant
                    t <= r,
                    i == i0 + t,
                    lengths@.len() == total,
                    forall|k: int| 0 <= k < total ==> #[trigger] lengths@[k] <= 15,
                    prev <= 15,
                    forall|k: int| 0 <= k < total ==> #[trigger] lengths@[k] == if i0 <= k < i0 + t { prev } else { ls0[k] },
                    i0 + r > total ==> whole is None,
                    dynamic_tables(d, q) == whole,
                    q == old(br).q(),
                    lengths@.len() == ls0.len(),
                    i <= total,
                    i0 >= 1,
                    prev == ls0[i0 - 1],
                    br.wf(),
                    br.bytes() == d,
                    d == old(br).bytes(),
                decreases r - t,
            {
                if i >= lengths.len() {
                    return None;
                }
                lengths.set(i, prev);
                i += 1;
                t += 1;
            }
            proof {
                assert(lengths@ =~= fill_lengths(ls0, i0, r as int, ls0[i0 - 1]));
            }
        } else if sym == 17 {
            let rv = match br.read_bits(3) {
                Some(r) => r,
                None => return None,
            };
            proof { lemma_bits_small(d, qb, 3); }
            let r = rv as usize + 3;
            i = if i + r < total { i + r } else { total };
        } else if sym == 18 {
            let rv = match br.read_bits(7) {
                Some(r) => r,
                None => return None,
            };
            proof { lemma_bits_small(d, qb, 7); }
            let r = rv as usize + 11;
            i = if i + r < total { i + r } else { total };
        } else {
            return None;
        }
    }
    proof {
        assert(whole == Some((huff_of(lengths@.subrange(0, hlit as int)), huff_of(lengths@.subrange(hlit as int, total as int)), br.q())));
    }
    let lit = Huff::new(&lengths.as_slice()[0..hlit]);
    let dist = Huff::new(&lengths.as_slice()[hlit..total]);
    Some((lit, dist))
}

/// Copies a stored block whose header ended at the reader's position; `false`
/// on a truncated block (then `out` and the position are left anywhere).
fn copy_stored(br: &mut BitReader, out: &mut Vec<u8>) -> (ok: bool)
    requires
        old(br).wf(),
    ensures
        final(br).wf(),
        final(br).bytes() == old(br).bytes(),
        match stored_block(old(br).bytes(), old(br).q(), old(out)@) {
            Some((o, q2)) => ok && final(out)@ == o && final(br).q() == q2,
            None => !ok,
        },
{
    br.align_byte();
    let data = br.data;
    let p = br.pos;
    if p > data.len() || data.len() - p < 4 {
        return false;
    }
    let n16 = get_le(data, p, 2);
    proof {
        lemma_le_value_bound(data@.subrange(p as int, p + 2));
        assert(pow256(0) == 1);
        assert(pow256(1) == 256);
        assert(pow256(2) == 65536);
    }
    let n = n16 as usize;
    let start = p + 4;
    if data.len() - start < n {
        return false;
    }
    let mut k: usize = 0;
    let ghost o0 = out@;
    while k < n
        invariant
            k <= n,
            start + n <= data@.len(),
            start + n <= data.len(),
            out@ == o0 + data@.subrange(start as int, start + k),
        decreases n - k,
    {
        out.push(data[start + k]);
        k += 1;
        proof {
            assert(out@ =~= o0 + data@.subrange(start as int, start + k));
        }
    }
    br.pos = start + n;
    true
}

/// Code lengths of the fixed literal/length code, as an array.
fn fixed_lit_table() -> (r: [u8; 288])
    ensures
        r@ == fixed_lit_lengths(),
{
    let mut ll = [0u8; 288];
    for i in 0usize..288
        invariant
            ll@.len() == 288,
            forall|j: int| 0 <= j < i ==> #[trigger] ll@[j] == fixed_lit_lengths()[j],
    {
        ll[i] = if i < 144 {
            8
        } else if i < 256 {
            9
        } else if i < 280 {
            7
        } else {
            8
        };
    }
    proof { assert(ll@ =~= fixed_lit_lengths()); }
    ll
}

/// Decodes the body of a block of type `btype`; `false` on a bad block.
fn inflate_block_exec(br: &mut BitReader, out: &mut Vec<u8>, btype: u32) -> (ok: bool)
    requires
        old(br).wf(),
    ensures
        final(br).wf(),
        final(br).bytes() == old(br).bytes(),
        match inflate_block(old(br).bytes(), old(br).q(), old(out)@, btype) {
            Some((o, q2)) => ok && final(out)@ == o && final(br).q() == q2 && q2 > old(br).q(),
            None => !ok,
        },
{
    let ghost d = br.bytes();
    let ghost q1 = br.q();
    let ghost out0 = out@;
    proof { reveal(inflate_block); }
    if btype == 0 {
        copy_stored(br, out)
    } else if btype == 1 || btype == 2 {
        let (lit, dist) = if btype == 1 {
            let ll = fixed_lit_table();
            let dl = [5u8; 30];
            proof { assert(dl@ =~= fixed_dist_lengths()); }
            (Huff::new(ll.as_slice()), Huff::new(dl.as_slice()))
        } else {
            match read_dynamic(br) {
                Some(t) => t,
                None => return false,
            }
        };
        let ghost q2 = br.q();
        proof {
            lemma_codes_advance(d, q2, out0, lit@, dist@);
            if btype == 2 {
                lemma_dynamic_advance(d, q1);
            }
        }
        inflate_codes_exec(br, out, &lit, &dist)
    } else {
        false
    }
}

/// Decodes a raw DEFLATE stream (RFC 1951): stored, fixed and dynamic
/// blocks up to the final one. `None` on a malformed or truncated stream.
pub fn inflate(data: &[u8]) -> (r: Option<Vec<u8>>)
    ensures
        match r {
            Some(v) => inflate_spec(data@) == Some(v@),
            None => inflate_spec(data@) is None,
        },
{
    let mut br = BitReader::new(data);
    let mut out: Vec<u8> = Vec::new();
    let ghost d = data@;
    loop
        invariant
            br.wf(),
            br.bytes() == d,
            d == data@,
            inflate_spec(d) == inflate_from(d, br.q(), out@),
        decreases 8 * d.len() - br.q(),
    {
        let ghost q = br.q();
        let bfinal = match br.read_bit() {
            Some(b) => b,
            None => return None,
        };
        let btype = match br.read_bits(2) {
            Some(b) => b,
            None => return None,
        };
        if !inflate_block_exec(&mut br, &mut out, btype) {
            return None;
        }
        if bfinal == 1 {
            return Some(out);
        }
    }
}

proof fn lemma_dynamic_advance(d: Seq<u8>, q: int)
    requires
        0 <= q,
    ensures
        dynamic_tables(d, q) matches Some((_, _, q2)) ==> q <= q2,
{
    if q + 14 <= 8 * d.len() {
        let hlit = bits_at(d, q, 5) + 257;
        let hdist = bits_at(d, q + 5, 5) + 1;
        let hclen = bits_at(d, q + 10, 4) + 4;
        let q1 = q + 14;
        if q1 + 3 * hclen <= 8 * d.len() {
            let clh = huff_of(cl_lengths(d, q1, hclen as int));
            lemma_lengths_advance(d, q1 + 3 * hclen, clh, Seq::new((hlit + hdist) as nat, |k: int| 0u8), 0, hlit + hdist);
        }
    }
}

// --------------------------------------------------------------------- zip

/// Little-endian 16-bit field at `o`.
pub open spec fn le16(d: Seq<u8>, o: int) -> int {
    le_value(d.subrange(o, o + 2)) as int
}

/// Little-endian 32-bit field at `o`.
pub open spec fn le32(d: Seq<u8>, o: int) -> int {
    le_value(d.subrange(o, o + 4)) as int
}

proof fn lemma_le_small(d: Seq<u8>, o: int)
    requires
        0 <= o,
        o + 4 <= d.len(),
    ensures
        le16(d, o) == d[o] + 256 * d[o + 1],
        le32(d, o) == d[o] + 256 * d[o + 1] + 65536 * d[o + 2] + 16777216 * d[o + 3],
{
    let s2 = d.subrange(o, o + 2);
    let s4 = d.subrange(o, o + 4);
    assert(s2.drop_first().drop_first() =~= Seq::<u8>::empty());
    assert(s4.drop_first().drop_first().drop_first().drop_first() =~= Seq::<u8>::empty());
    assert(le_value(s2.drop_first()) == s2[1] + 256 * le_value(s2.drop_first().drop_first()));
    assert(le_value(s4.drop_first().drop_first().drop_first()) == s4[3] + 256 * le_value(s4.drop_first().drop_first().drop_first().drop_first()));
    assert(le_value(s4.drop_first().drop_first()) == s4[2] + 256 * le_value(s4.drop_first().drop_first().drop_first()));
    assert(le_value(s4.drop_first()) == s4[1] + 256 * le_value(s4.drop_first().drop_first()));
}

proof fn lemma_or_bytes(a: u32, b: u32, c: u32, e: u32)
    by (bit_vector)
    requires
        a < 256,
        b < 256,
        c < 256,
        e < 256,
    ensures
        a | (b << 8) == a + 256 * b,
        a | (b << 8) | (c << 16) | (e << 24) == a + 256 * b + 65536 * c + 16777216 * e,
{
}

/// Little-endian 16-bit field at `o`.
pub fn u16le(d: &[u8], o: usize) -> (r: u32)
    requires
        o + 2 <= d@.len(),
    ensures
        r == le16(d@, o as int),
        r < 65536,
{
    proof {
        if o + 4 <= d@.len() {
            lemma_le_small(d@, o as int);
        } else {
            let s2 = d@.subrange(o as int, o + 2);
            assert(s2.drop_first().drop_first() =~= Seq::<u8>::empty());
            assert(le_value(s2.drop_first()) == s2[1] + 256 * le_value(s2.drop_first().drop_first()));
        }
        lemma_or_bytes(d[o as int] as u32, d[o + 1] as u32, 0, 0);
    }
    d[o] as u32 | ((d[o + 1] as u32) << 8)
}

/// Little-endian 32-bit field at `o`.
pub fn u32le(d: &[u8], o: usize) -> (r: u32)
    requires
        o + 4 <= d@.len(),
    ensures
        r == le32(d@, o as int),
{
    proof {
        lemma_le_small(d@, o as int);
        lemma_or_bytes(d[o as int] as u32, d[o + 1] as u32, d[o + 2] as u32, d[o + 3] as u32);
    }
    d[o] as u32 | ((d[o + 1] as u32) << 8) | ((d[o + 2] as u32) << 16) | ((d[o + 3] as u32) << 24)
}

/// The end-of-central-directory record: the last place from `i` down to
/// `start` where its signature `50 4b 05 06` stands.
pub open spec fn eocd_from(d: Seq<u8>, i: int, start: int) -> Option<int>
    decreases i - start,
{
    if d[i] == 0x50 && d[i + 1] == 0x4b && d[i + 2] == 0x05 && d[i + 3] == 0x06 {
        Some(i)
    } else if i <= start {
        None
    } else {
        eocd_from(d, i - 1, start)
    }
}

/// An entry's data: stored (method 0) as it is, deflated (method 8)
/// inflated; `None` for another method or a bad stream.
pub open spec fn zip_data(method: int, raw: Seq<u8>) -> Option<Seq<u8>> {
    if method == 0 {
        Some(raw)
    } else if method == 8 {
        inflate_spec(raw)
    } else {
        None
    }
}

/// Where the central directory header after the one at `p` starts.
pub open spec fn zip_next(d: Seq<u8>, p: int) -> int {
    p + 46 + le16(d, p + 28) + le16(d, p + 30) + le16(d, p + 32)
}

/// The entry of the central directory header at `p`: its name and data, or
/// `None` when its local header or data is out of place or its data does
/// not decode.
pub open spec fn zip_entry(d: Seq<u8>, p: int) -> Option<(Seq<char>, Seq<u8>)> {
    let method = le16(d, p + 10);
    let csize = le32(d, p + 20);
    let name_len = le16(d, p + 28);
    let lho = le32(d, p + 42);
    let name = lossy_text(d.subrange(p + 46, p + 46 + name_len));
    if lho + 30 > d.len() || le32(d, lho) != 0x0403_4b50 {
        None
    } else {
        let dstart = lho + 30 + le16(d, lho + 26) + le16(d, lho + 28);
        if dstart + csize > d.len() {
            None
        } else {
            match zip_data(method, d.subrange(dstart, dstart + csize)) {
                None => None,
                Some(bytes) => Some((name, bytes)),
            }
        }
    }
}

/// The entries of the central directory from byte `p`, `k` of them at most:
/// the walk stops at a short or unsigned header; an entry without a place or
/// a decoding is skipped.
pub open spec fn zip_walk(d: Seq<u8>, p: int, k: int) -> Seq<(Seq<char>, Seq<u8>)>
    decreases k,
{
    if k <= 0 || p < 0 || p + 46 > d.len() || le32(d, p) != 0x0201_4b50 {
        Seq::empty()
    } else {
        let rest = zip_walk(d, zip_next(d, p), k - 1);
        match zip_entry(d, p) {
            None => rest,
            Some(e) => seq![e] + rest,
        }
    }
}

/// Reads the entry whose central directory header is at `p`; gives where
/// the next header starts.
fn read_entry(data: &[u8], p: usize) -> (r: (usize, Option<(String, Vec<u8>)>))
    requires
        p + 46 <= data@.len(),
        p + 46 + le16(data@, p + 28) <= data@.len(),
        data@.len() + 0x30000 <= usize::MAX,
    ensures
        r.0 == zip_next(data@, p as int),
        match r.1 {
            Some(e) => zip_entry(data@, p as int) == Some((e.0@, e.1@)),
            None => zip_entry(data@, p as int) is None,
        },
{
    let method = u16le(data, p + 10) as usize;
    let csize = u32le(data, p + 20) as usize;
    let name_len = u16le(data, p + 28) as usize;
    let extra_len = u16le(data, p + 30) as usize;
    let comment_len = u16le(data, p + 32) as usize;
    let lho = u32le(data, p + 42) as usize;
    let name = from_utf8_lossy(&data[p + 46..p + 46 + name_len]);
    let next = p + 46 + name_len + extra_len + comment_len;
    if lho > data.len() || data.len() - lho < 30 || u32le(data, lho) != 0x0403_4b50 {
        return (next, None);
    }
    let lname = u16le(data, lho + 26) as usize;
    let lextra = u16le(data, lho + 28) as usize;
    let dstart = lho + 30 + lname + lextra;
    if dstart > data.len() || csize > data.len() - dstart {
        return (next, None);
    }
    let raw = &data[dstart..dstart + csize];
    if method == 0 {
        (next, Some((name, vstd::slice::slice_to_vec(raw))))
    } else if method == 8 {
        match inflate(raw) {
            Some(b) => (next, Some((name, b))),
            None => (next, None),
        }
    } else {
        (next, None)
    }
}

/// Every entry name met along the walk lies inside the archive.
pub open spec fn zip_names_fit(d: Seq<u8>, p: int, k: int) -> bool
    decreases k,
{
    if k <= 0 || p < 0 || p + 46 > d.len() || le32(d, p) != 0x0201_4b50 {
        true
    } else {
        let name_len = le16(d, p + 28);
        &&& p + 46 + name_len <= d.len()
        &&& zip_names_fit(d, p + 46 + name_len + le16(d, p + 30) + le16(d, p + 32), k - 1)
    }
}

/// Where the central directory starts and how many entries it lists, or
/// `None` when there is no usable end record.
pub open spec fn zip_directory(d: Seq<u8>) -> Option<(int, int)> {
    if d.len() < 22 {
        None
    } else {
        let start = if d.len() >= 66000 { d.len() - 66000 } else { 0 };
        match eocd_from(d, d.len() - 22, start) {
            None => None,
            Some(e) => {
                let n = le16(d, e + 10);
                let cd_off = le32(d, e + 16);
                let cd_size = le32(d, e + 12);
                if cd_off + cd_size > d.len() { None } else { Some((cd_off, n)) }
            },
        }
    }
}

/// The (name, bytes) entries of a ZIP archive.
pub open spec fn zip_spec(d: Seq<u8>) -> Seq<(Seq<char>, Seq<u8>)> {
    match zip_directory(d) {
        None => Seq::empty(),
        Some((p, n)) => zip_walk(d, p, n),
    }
}

/// The archive's entry names all lie inside it.
pub open spec fn zip_readable(d: Seq<u8>) -> bool {
    match zip_directory(d) {
        None => true,
        Some((p, n)) => zip_names_fit(d, p, n),
    }
}

/// Where the central directory starts and how many entries it lists, as
/// `zip_directory` says.
fn find_directory(data: &[u8]) -> (r: Option<(usize, usize)>)
    ensures
        match r {
            Some((p, n)) => zip_directory(data@) == Some((p as int, n as int)) && p <= data@.len(),
            None => zip_directory(data@) is None,
        },
{
    let ghost d = data@;
    if data.len() < 22 {
        return None;
    }
    let start = data.len().saturating_sub(66_000);
    let mut i = data.len() - 22;
    let mut eocd: Option<usize> = None;
    loop
        invariant_except_break
            eocd is None,
        invariant
            d == data@,
            d.len() >= 22,
            start == if d.len() >= 66000 { d.len() - 66000 } else { 0 },
            start <= i <= d.len() - 22,
            eocd_from(d, d.len() - 22, start as int) == eocd_from(d, i as int, start as int),
        ensures
            match eocd {
                Some(e) => eocd_from(d, d.len() - 22, start as int) == Some(e as int) && e + 22 <= d.len(),
                None => eocd_from(d, d.len() - 22, start as int) is None,
            },
        decreases i,
    {
        if data[i] == 0x50 && data[i + 1] == 0x4b && data[i + 2] == 0x05 && data[i + 3] == 0x06 {
            eocd = Some(i);
            break;
        }
        if i == start {
            break;
        }
        i -= 1;
    }
    let eocd = match eocd {
        Some(e) => e,
        None => return None,
    };
    let n_entries = u16le(data, eocd + 10) as usize;
    let cd_off = u32le(data, eocd + 16) as usize;
    let cd_size = u32le(data, eocd + 12) as usize;
    if cd_off > data.len() || cd_size > data.len() - cd_off {
        return None;
    }
    Some((cd_off, n_entries))
}

/// Whether every entry name met along the central directory lies inside the
/// archive, so that `zip_entries` can read it.
pub fn zip_names_inside(data: &[u8]) -> (r: bool)
    ensures
        r == zip_readable(data@),
{
    let ghost d = data@;
    let (cd_off, n) = match find_directory(data) {
        Some(x) => x,
        None => return true,
    };
    let mut p: usize = cd_off;
    let mut k: usize = n;
    loop
        invariant
            d == data@,
            p <= d.len(),
            zip_readable(d) == zip_names_fit(d, p as int, k as int),
        decreases k,
    {
        if k == 0 || data.len() - p < 46 || u32le(data, p) != 0x0201_4b50 {
            return true;
        }
        let name_len = u16le(data, p + 28) as usize;
        if name_len > data.len() - p - 46 {
            return false;
        }
        let extra = u16le(data, p + 30) as usize;
        let comment = u16le(data, p + 32) as usize;
        let rest = data.len() - p - 46 - name_len;
        if extra > rest || comment > rest - extra {
            proof {
                let np = zip_next(d, p as int);
                assert(np > d.len());
                assert(zip_names_fit(d, np, k - 1));
            }
            return true;
        }
        p = p + 46 + name_len + extra + comment;
        k -= 1;
    }
}

/// Minimal ZIP reader: walks the central directory, returns (name, bytes)
/// for every entry stored (method 0) or deflated (method 8).
pub fn zip_entries(data: &[u8]) -> (r: Vec<(String, Vec<u8>)>)
    requires
        zip_readable(data@),
        data@.len() + 0x30000 <= usize::MAX,
    ensures
        r@.len() == zip_spec(data@).len(),
        forall|i: int| 0 <= i < r@.len() ==> (#[trigger] r@[i]).0@ == zip_spec(data@)[i].0 && r@[i].1@ == zip_spec(data@)[i].1,
{
    let ghost d = data@;
    let mut out: Vec<(String, Vec<u8>)> = Vec::new();
    let (cd_off, n_entries) = match find_directory(data) {
        Some(x) => x,
        None => return out,
    };
    let mut p = cd_off;
    let mut k: usize = 0;
    let ghost all = zip_walk(d, cd_off as int, n_entries as int);
    while k < n_entries
        invariant
            d == data@,
            d.len() + 0x30000 <= usize::MAX,
            k <= n_entries,
            zip_names_fit(d, p as int, (n_entries - k) as int),
            all == zip_walk(d, cd_off as int, n_entries as int),
            out@.len() + zip_walk(d, p as int, (n_entries - k) as int).len() == all.len(),
            forall|j: int| 0 <= j < out@.len() ==> (#[trigger] out@[j]).0@ == all[j].0 && out@[j].1@ == all[j].1,
            forall|j: int| 0 <= j < zip_walk(d, p as int, (n_entries - k) as int).len()
                ==> #[trigger] zip_walk(d, p as int, (n_entries - k) as int)[j] == all[out@.len() + j],
        ensures
            out@.len() == all.len(),
            forall|j: int| 0 <= j < out@.len() ==> (#[trigger] out@[j]).0@ == all[j].0 && out@[j].1@ == all[j].1,
        decreases n_entries - k,
    {
        let ghost rem = (n_entries - k) as int;
        if p > data.len() || data.len() - p < 46 || u32le(data, p) != 0x0201_4b50 {
            proof {
                assert(zip_walk(d, p as int, rem).len() == 0);
            }
            break;
        }
        let ghost here = zip_walk(d, p as int, rem);
        let ghost rest = zip_walk(d, zip_next(d, p as int), rem - 1);
        let (next, entry) = read_entry(data, p);
        p = next;
        k += 1;
        match entry {
            Some(e) => {
                let ghost o0 = out@;
                let ghost ev = (e.0@, e.1@);
                out.push(e);
                proof {
                    assert(here == seq![ev] + rest);
                    assert(here[0] == all[o0.len() as int]);
                    assert forall|j: int| 0 <= j < rest.len() implies #[trigger] rest[j] == all[out@.len() + j] by {
                        assert(here[1 + j] == rest[j]);
                    }
                }
            },
            None => {
                proof { assert(here == rest); }
            },
        }
    }
    out
}

proof fn lemma_cl_order()
    ensures
        forall|j: int| 0 <= j < 19 ==> #[trigger] CL_ORDER@[CL_RANK@[j] as int] == j,
        forall|j: int| 0 <= j < 19 ==> #[trigger] CL_RANK@[CL_ORDER@[j] as int] == j,
        forall|j: int| 0 <= j < 19 ==> (#[trigger] CL_RANK@[j]) < 19,
        forall|j: int| 0 <= j < 19 ==> (#[trigger] CL_ORDER@[j]) < 19,
{
    assert(CL_ORDER@ =~= seq![16usize, 17, 18, 0, 8, 7, 9, 6, 10, 5, 11, 4, 12, 3, 13, 2, 14, 1, 15]);
    assert(CL_RANK@ =~= seq![3usize, 17, 15, 13, 11, 9, 7, 5, 4, 6, 8, 10, 12, 14, 16, 18, 0, 1, 2]);
}


// ------------------------------------------------------------------ the pack

/// An image as plain values: width, height, RGBA bytes.
pub type Img = (u32, u32, Seq<u8>);

/// An image as plain values.
pub open spec fn image_view(i: Rgba) -> Img {
    (i.w, i.h, i.px@)
}

/// An image with a size the decoder accepts, its bytes four per pixel.
pub open spec fn decodable(i: Img) -> bool {
    1 <= i.0 <= 1024 && 1 <= i.1 <= 8192 && i.2.len() == i.0 * i.1 * 4
}

/// The `size` by `size` tile resampled from an image (see `Rgba::to_tile`).
pub open spec fn tile_of(i: Img, size: u32) -> Img {
    let src = tile_source(i.2, i.0 as int, i.1 as int);
    (size, size, Seq::new((size * size * 4) as nat, |k: int| tile_byte(src.0, src.1, src.2, size as int, k)))
}

/// A copy of an image.
fn copy_image(img: &Rgba) -> (r: Rgba)
    ensures
        image_view(r) == image_view(*img),
{
    Rgba { w: img.w, h: img.h, px: vstd::slice::slice_to_vec(img.px.as_slice()) }
}

/// The image stored under `k`: the first of `names` equal to `k`, paired
/// with `images` in order.
pub open spec fn image_lookup(names: Seq<Seq<char>>, images: Seq<Img>, k: Seq<char>) -> Option<Img>
    decreases names.len(),
{
    if names.len() == 0 || images.len() == 0 {
        None
    } else if names[0] == k {
        Some(images[0])
    } else {
        image_lookup(names.drop_first(), images.drop_first(), k)
    }
}

/// The image of the first candidate whose lowercase form names one.
pub open spec fn first_image(cands: Seq<Seq<char>>, names: Seq<Seq<char>>, images: Seq<Img>) -> Option<Img>
    decreases cands.len(),
{
    if cands.len() == 0 {
        None
    } else {
        match image_lookup(names, images, lowercase(cands[0])) {
            Some(i) => Some(i),
            None => first_image(cands.drop_first(), names, images),
        }
    }
}

/// The bytes stored under `k` in an association list.
pub open spec fn raw_lookup(raw: Seq<(Seq<char>, Seq<u8>)>, k: Seq<char>) -> Option<Seq<u8>>
    decreases raw.len(),
{
    if raw.len() == 0 {
        None
    } else if raw[0].0 == k {
        Some(raw[0].1)
    } else {
        raw_lookup(raw.drop_first(), k)
    }
}

/// `raw` (kept in key order) with `k` mapped to `v`: an existing entry is
/// replaced, else a new one goes where the order puts it.
pub open spec fn raw_insert(raw: Seq<(Seq<char>, Seq<u8>)>, k: Seq<char>, v: Seq<u8>) -> Seq<(Seq<char>, Seq<u8>)>
    decreases raw.len(),
{
    if raw.len() == 0 {
        seq![(k, v)]
    } else if raw[0].0 == k {
        seq![(k, v)] + raw.drop_first()
    } else if key_lt(k, raw[0].0) {
        seq![(k, v)] + raw
    } else {
        seq![raw[0]] + raw_insert(raw.drop_first(), k, v)
    }
}

/// The keys of `raw` that begin with `p`, in order.
pub open spec fn keys_with_prefix(raw: Seq<(Seq<char>, Seq<u8>)>, p: Seq<char>) -> Seq<Seq<char>>
    decreases raw.len(),
{
    if raw.len() == 0 {
        Seq::empty()
    } else {
        let rest = keys_with_prefix(raw.drop_last(), p);
        if starts_with(raw.last().0, p) { rest.push(raw.last().0) } else { rest }
    }
}

/// Keys in strictly increasing order.
pub open spec fn keys_sorted(k: Seq<Seq<char>>) -> bool {
    forall|i: int, j: int| 0 <= i < j < k.len() ==> key_lt(#[trigger] k[i], #[trigger] k[j])
}

/// No key twice.
pub open spec fn keys_distinct(k: Seq<Seq<char>>) -> bool {
    forall|i: int, j: int| 0 <= i < j < k.len() ==> #[trigger] k[i] != #[trigger] k[j]
}

/// The keys of an association list.
pub open spec fn raw_keys_of(raw: Seq<(Seq<char>, Seq<u8>)>) -> Seq<Seq<char>> {
    Seq::new(raw.len(), |i: int| raw[i].0)
}

/// "assets/"
pub open spec fn assets_dir() -> Seq<char> {
    seq!['a', 's', 's', 'e', 't', 's', '/']
}

/// "/assets/"
pub open spec fn assets_inner() -> Seq<char> {
    seq!['/', 'a', 's', 's', 'e', 't', 's', '/']
}

/// "blockstates/"
pub open spec fn blockstates_dir() -> Seq<char> {
    seq!['b', 'l', 'o', 'c', 'k', 's', 't', 'a', 't', 'e', 's', '/']
}

/// "models/"
pub open spec fn models_dir() -> Seq<char> {
    seq!['m', 'o', 'd', 'e', 'l', 's', '/']
}

/// `p` with each backslash turned into a slash.
pub open spec fn slashed(p: Seq<char>) -> Seq<char> {
    Seq::new(p.len(), |i: int| if p[i] == '\\' { '/' } else { p[i] })
}

/// The key of a pack file of interest: its lowercase path from the
/// namespace directory on ("blockstates/x.json", "models/block/y.json"),
/// found after "assets/<namespace>/" at the start or after the first
/// "/assets/"; `None` for any other file.
pub open spec fn asset_key(path: Seq<char>) -> Option<Seq<char>> {
    let lower = lowercase(slashed(path));
    let rest = if starts_with(lower, assets_dir()) {
        Some(lower)
    } else {
        match find_from(lower, assets_inner(), 0) {
            Some(i) => Some(lower.skip(i + 1)),
            None => None,
        }
    };
    match rest {
        None => None,
        Some(r) => {
            let t = r.skip(7);
            match find_from(t, seq!['/'], 0) {
                None => None,
                Some(j) => {
                    let rem = t.skip(j + 1);
                    if starts_with(rem, blockstates_dir()) || starts_with(rem, models_dir()) {
                        Some(rem)
                    } else {
                        None
                    }
                },
            }
        },
    }
}

/// Normalises a pack path ("assets/<ns>/blockstates/x.json" in a zip, or a
/// disk path holding "/assets/") to its key; `None` when it is not a
/// blockstate or model file.
pub fn norm_asset_path(path: &str) -> (r: Option<String>)
    ensures
        match r {
            Some(k) => asset_key(path@) == Some(k@),
            None => asset_key(path@) is None,
        },
{
    let cs = chars_of(path);
    let mut sl: Vec<char> = Vec::new();
    for i in 0usize..cs.len()
        invariant
            cs@ == path@,
            sl@.len() == i,
            forall|j: int| 0 <= j < i ==> #[trigger] sl@[j] == if cs@[j] == '\\' { '/' } else { cs@[j] },
    {
        sl.push(if cs[i] == '\\' { '/' } else { cs[i] });
    }
    assert(sl@ =~= slashed(path@));
    let joined = string_of(sl.as_slice());
    let lower = lower_chars(joined.as_str());
    let a1: [char; 7] = ['a', 's', 's', 'e', 't', 's', '/'];
    let a2: [char; 8] = ['/', 'a', 's', 's', 'e', 't', 's', '/'];
    let bs: [char; 12] = ['b', 'l', 'o', 'c', 'k', 's', 't', 'a', 't', 'e', 's', '/'];
    let md: [char; 7] = ['m', 'o', 'd', 'e', 'l', 's', '/'];
    let sl1: [char; 1] = ['/'];
    assert(a1@ =~= assets_dir());
    assert(a2@ =~= assets_inner());
    assert(bs@ =~= blockstates_dir());
    assert(md@ =~= models_dir());
    assert(sl1@ =~= seq!['/']);
    let ghost l = lower@;
    let nl = lower.len();
    let start: usize = if chars_start_with(lower.as_slice(), a1.as_slice()) {
        0
    } else {
        match chars_find(lower.as_slice(), a2.as_slice(), 0) {
            Some(i) => {
                proof {
                    crate::text::lemma_find_from(l, assets_inner(), 0);
                    assert(l.subrange(i as int, i + 8) == assets_inner());
                    assert(l.subrange(i + 1, i + 8) =~= assets_dir()) by {
                        assert forall|k: int| 0 <= k < 7 implies l.subrange(i + 1, i + 8)[k] == assets_dir()[k] by {
                            assert(l.subrange(i as int, i + 8)[k + 1] == assets_inner()[k + 1]);
                        }
                    }
                    assert(i + 8 <= nl);
                }
                i + 1
            },
            None => return None,
        }
    };
    assert(l.skip(start as int).subrange(0, 7) == assets_dir()) by {
        if start == 0 {
            assert(l.skip(0) =~= l);
        } else {
            assert(l.skip(start as int).subrange(0, 7) =~= l.subrange(start as int, start + 7));
        }
    }
    assert(start + 7 <= lower.len());
    let t = &lower.as_slice()[start + 7..lower.len()];
    assert(t@ =~= l.skip(start as int).skip(7));
    match chars_find(t, sl1.as_slice(), 0) {
        None => None,
        Some(j) => {
            proof {
                crate::text::lemma_find_from(t@, seq!['/'], 0);
                assert(occurs_at(t@, seq!['/'], j as int));
            }
            let rem = &t[j + 1..t.len()];
            assert(rem@ =~= t@.skip(j + 1));
            if chars_start_with(rem, bs.as_slice()) || chars_start_with(rem, md.as_slice()) {
                Some(string_of(rem))
            } else {
                None
            }
        },
    }
}

/// "pack", "pack_icon" and "pack.mcmeta": pack metadata, never a texture.
pub open spec fn meta_stem(s: Seq<char>) -> bool {
    ||| s == seq!['p', 'a', 'c', 'k']
    ||| s == seq!['p', 'a', 'c', 'k', '_', 'i', 'c', 'o', 'n']
    ||| s == seq!['p', 'a', 'c', 'k', '.', 'm', 'c', 'm', 'e', 't', 'a']
}

/// Stems that are pack metadata, never block textures.
pub fn is_meta_stem(stem: &str) -> (r: bool)
    ensures
        r == meta_stem(stem@),
{
    let s = chars_of(stem);
    let a: [char; 4] = ['p', 'a', 'c', 'k'];
    let b: [char; 9] = ['p', 'a', 'c', 'k', '_', 'i', 'c', 'o', 'n'];
    let c: [char; 11] = ['p', 'a', 'c', 'k', '.', 'm', 'c', 'm', 'e', 't', 'a'];
    assert(a@ =~= seq!['p', 'a', 'c', 'k']);
    assert(b@ =~= seq!['p', 'a', 'c', 'k', '_', 'i', 'c', 'o', 'n']);
    assert(c@ =~= seq!['p', 'a', 'c', 'k', '.', 'm', 'c', 'm', 'e', 't', 'a']);
    chars_eq(s.as_slice(), a.as_slice()) || chars_eq(s.as_slice(), b.as_slice()) || chars_eq(s.as_slice(), c.as_slice())
}

/// "grass"
pub open spec fn grass_stem() -> Seq<char> {
    seq!['g', 'r', 'a', 's', 's']
}

/// "foliage"
pub open spec fn foliage_stem() -> Seq<char> {
    seq!['f', 'o', 'l', 'i', 'a', 'g', 'e']
}

/// A pack's contents as plain values: the loaded texture names in the order
/// they were found, their images, the grass and foliage colormaps, and the
/// raw blockstate and model files in key order.
pub type PackState = (Seq<Seq<char>>, Seq<Img>, Option<Img>, Option<Img>, Seq<(Seq<char>, Seq<u8>)>);

/// An optional image as plain values.
pub open spec fn opt_image(o: Option<Rgba>) -> Option<Img> {
    match o {
        Some(i) => Some(image_view(i)),
        None => None,
    }
}

/// A texture found under `key`: kept unless the stem is pack metadata or
/// the name is already loaded (the first pack to provide a name wins), and
/// only when the bytes decode.
pub open spec fn png_step(st: PackState, key: Seq<char>, bytes: Seq<u8>) -> PackState {
    if meta_stem(key) || image_lookup(st.0, st.1, key) is Some {
        st
    } else {
        match png_spec(bytes) {
            Some(img) => (st.0.push(key), st.1.push(img), st.2, st.3, st.4),
            None => st,
        }
    }
}

/// A colormap found under `stem`: the first decodable grass and foliage maps
/// are kept at full resolution.
pub open spec fn colormap_step(st: PackState, stem: Seq<char>, bytes: Seq<u8>) -> PackState {
    match png_spec(bytes) {
        None => st,
        Some(img) => if stem == grass_stem() {
            if st.2 is None { (st.0, st.1, Some(img), st.3, st.4) } else { st }
        } else if stem == foliage_stem() {
            if st.3 is None { (st.0, st.1, st.2, Some(img), st.4) } else { st }
        } else {
            st
        },
    }
}

/// A raw file stored under `key`, replacing an earlier one.
pub open spec fn raw_step(st: PackState, key: Seq<char>, bytes: Seq<u8>) -> PackState {
    (st.0, st.1, st.2, st.3, raw_insert(st.4, key, bytes))
}

/// The textures of resource packs, indexed by lowercase file stem, with the
/// colormaps and the raw blockstate and model files.
pub struct Pack {
    names: Vec<String>,
    images: Vec<Rgba>,
    pub colormap_grass: Option<Rgba>,
    pub colormap_foliage: Option<Rgba>,
    raw: Vec<(Vec<char>, Vec<u8>)>,
}

/// Each texture name is loaded once.
pub proof fn loaded_names_distinct(p: &Pack)
    requires
        p.wf(),
    ensures
        keys_distinct(p.names_view()),
{
}

/// Strings as character sequences.
pub open spec fn strings_view(v: Seq<String>) -> Seq<Seq<char>> {
    Seq::new(v.len(), |i: int| v[i]@)
}

impl Pack {
    /// The loaded texture names, in the order they were found.
    pub closed spec fn names_view(&self) -> Seq<Seq<char>> {
        strings_view(self.names@)
    }

    /// The images of the loaded names, in the same order.
    pub closed spec fn images_view(&self) -> Seq<Img> {
        Seq::new(self.images@.len(), |i: int| image_view(self.images@[i]))
    }

    /// The raw files, in key order.
    pub closed spec fn raw_view(&self) -> Seq<(Seq<char>, Seq<u8>)> {
        Seq::new(self.raw@.len(), |i: int| (self.raw@[i].0@, self.raw@[i].1@))
    }

    /// The whole pack as plain values.
    pub closed spec fn state(&self) -> PackState {
        (self.names_view(), self.images_view(), opt_image(self.colormap_grass), opt_image(self.colormap_foliage), self.raw_view())
    }

    /// Each name once, with one decodable image; raw keys in strict order.
    pub closed spec fn wf(&self) -> bool {
        &&& self.names@.len() == self.images@.len()
        &&& keys_distinct(self.names_view())
        &&& forall|i: int| 0 <= i < self.images@.len() ==> decodable(#[trigger] image_view(self.images@[i]))
        &&& keys_sorted(raw_keys_of(self.raw_view()))
    }

    /// A pack with nothing loaded.
    pub fn empty() -> (r: Pack)
        ensures
            r.wf(),
            r.state() == (Seq::<Seq<char>>::empty(), Seq::<Img>::empty(), None::<Img>, None::<Img>, Seq::<(Seq<char>, Seq<u8>)>::empty()),
    {
        let r = Pack { names: Vec::new(), images: Vec::new(), colormap_grass: None, colormap_foliage: None, raw: Vec::new() };
        assert(r.names_view() =~= Seq::<Seq<char>>::empty());
        assert(r.images_view() =~= Seq::<Img>::empty());
        assert(r.raw_view() =~= Seq::<(Seq<char>, Seq<u8>)>::empty());
        r
    }

    /// Number of textures loaded.
    pub fn len(&self) -> (r: usize)
        requires
            self.wf(),
        ensures
            r == self.names_view().len(),
    {
        self.names.len()
    }

    /// The loaded texture names, in the order they were found.
    pub fn loaded_names(&self) -> (r: &[String])
        ensures
            strings_view(r@) == self.names_view(),
    {
        self.names.as_slice()
    }

    /// Where `k` is among the loaded names.
    fn find_name(&self, k: &String) -> (r: Option<usize>)
        requires
            self.wf(),
        ensures
            match r {
                Some(i) => i < self.names@.len() && image_lookup(self.names_view(), self.images_view(), k@)
                    == Some(self.images_view()[i as int]),
                None => image_lookup(self.names_view(), self.images_view(), k@) is None,
            },
    {
        let ghost nv = self.names_view();
        let ghost iv = self.images_view();
        proof {
            assert(nv.skip(0) =~= nv);
            assert(iv.skip(0) =~= iv);
        }
        for i in 0usize..self.names.len()
            invariant
                self.wf(),
                nv == self.names_view(),
                iv == self.images_view(),
                image_lookup(nv, iv, k@) == image_lookup(nv.skip(i as int), iv.skip(i as int), k@),
        {
            if self.names[i] == *k {
                return Some(i);
            }
            proof {
                assert(nv.skip(i as int).drop_first() =~= nv.skip(i + 1));
                assert(iv.skip(i as int).drop_first() =~= iv.skip(i + 1));
            }
        }
        None
    }

    /// The candidates as character sequences.
    pub open spec fn cands_view(names: Seq<&str>) -> Seq<Seq<char>> {
        Seq::new(names.len(), |i: int| names[i]@)
    }

    /// Index of the image of the first candidate (lowercased) that is loaded.
    fn first_hit(&self, names: &[&str]) -> (r: Option<usize>)
        requires
            self.wf(),
        ensures
            match r {
                Some(j) => j < self.images@.len() && first_image(Self::cands_view(names@), self.names_view(), self.images_view())
                    == Some(self.images_view()[j as int]),
                None => first_image(Self::cands_view(names@), self.names_view(), self.images_view()) is None,
            },
    {
        let ghost cv = Self::cands_view(names@);
        let ghost nv = self.names_view();
        let ghost iv = self.images_view();
        proof {
            assert(cv.skip(0) =~= cv);
        }
        for i in 0usize..names.len()
            invariant
                self.wf(),
                cv == Self::cands_view(names@),
                nv == self.names_view(),
                iv == self.images_view(),
                first_image(cv, nv, iv) == first_image(cv.skip(i as int), nv, iv),
        {
            let lk = to_lowercase(names[i]);
            proof {
                assert(cv.skip(i as int)[0] == names@[i as int]@);
                assert(cv.skip(i as int).drop_first() =~= cv.skip(i + 1));
            }
            match self.find_name(&lk) {
                Some(j) => {
                    return Some(j);
                },
                None => {},
            }
        }
        None
    }

    /// Full-resolution image of the first candidate found (entity textures,
    /// colormaps...).
    pub fn get_full(&self, names: &[&str]) -> (r: Option<Rgba>)
        requires
            self.wf(),
        ensures
            opt_image(r) == first_image(Self::cands_view(names@), self.names_view(), self.images_view()),
    {
        match self.first_hit(names) {
            Some(j) => Some(copy_image(&self.images[j])),
            None => None,
        }
    }

    /// The first candidate found (lowercase stem), resampled to a 16 by 16
    /// tile.
    pub fn get(&self, names: &[&str]) -> (r: Option<Rgba>)
        requires
            self.wf(),
        ensures
            match first_image(Self::cands_view(names@), self.names_view(), self.images_view()) {
                Some(img) => r matches Some(t) && image_view(t) == tile_of(img, 16),
                None => r is None,
            },
    {
        match self.first_hit(names) {
            Some(j) => {
                let img = &self.images[j];
                proof {
                    assert(decodable(image_view(self.images@[j as int])));
                    let w = img.w;
                    let h = img.h;
                    assert(w * h * 4 <= u32::MAX) by (nonlinear_arith)
                        requires 1 <= w <= 1024, 1 <= h <= 8192;
                    if h > w {
                        assert(img.px@.len() >= w * w * 4) by (nonlinear_arith)
                            requires img.px@.len() == w * h * 4, h > w, w >= 1;
                    }
                }
                let t = img.to_tile(16);
                assert(t.px@ =~= tile_of(image_view(*img), 16).2);
                Some(t)
            },
            None => None,
        }
    }
}

proof fn lemma_lookup_none(names: Seq<Seq<char>>, images: Seq<Img>, k: Seq<char>)
    requires
        names.len() == images.len(),
        image_lookup(names, images, k) is None,
    ensures
        forall|i: int| 0 <= i < names.len() ==> names[i] != k,
    decreases names.len(),
{
    if names.len() > 0 {
        lemma_lookup_none(names.drop_first(), images.drop_first(), k);
        assert forall|i: int| 0 <= i < names.len() implies names[i] != k by {
            if i > 0 {
                assert(names[i] == names.drop_first()[i - 1]);
            }
        }
    }
}

proof fn lemma_lookup_push(names: Seq<Seq<char>>, images: Seq<Img>, k: Seq<char>, n: Seq<char>, img: Img)
    requires
        names.len() == images.len(),
        image_lookup(names, images, n) is None,
    ensures
        image_lookup(names.push(n), images.push(img), k)
            == if image_lookup(names, images, k) is Some { image_lookup(names, images, k) } else if k == n { Some(img) } else { None },
    decreases names.len(),
{
    let np = names.push(n);
    let ip = images.push(img);
    if names.len() > 0 {
        assert(np.drop_first() =~= names.drop_first().push(n));
        assert(ip.drop_first() =~= images.drop_first().push(img));
        assert(np[0] == names[0]);
        assert(ip[0] == images[0]);
        if names[0] != k {
            assert(names[0] != n);
            lemma_lookup_push(names.drop_first(), images.drop_first(), k, n, img);
            assert(image_lookup(np, ip, k) == image_lookup(np.drop_first(), ip.drop_first(), k));
            assert(image_lookup(names, images, k) == image_lookup(names.drop_first(), images.drop_first(), k));
        }
    } else {
        assert(np.drop_first() =~= Seq::<Seq<char>>::empty());
        assert(ip.drop_first() =~= Seq::<Img>::empty());
        assert(np[0] == n);
        assert(ip[0] == img);
        assert(image_lookup(np.drop_first(), ip.drop_first(), k) is None);
    }
}

/// Inserting into an ordered association list where `j` is the first key
/// not before `k`.
proof fn lemma_raw_insert_at(raw: Seq<(Seq<char>, Seq<u8>)>, k: Seq<char>, v: Seq<u8>, j: int)
    requires
        0 <= j <= raw.len(),
        forall|a: int| 0 <= a < j ==> key_lt(#[trigger] raw[a].0, k),
        j < raw.len() ==> !key_lt(raw[j].0, k),
    ensures
        raw_insert(raw, k, v) == if j < raw.len() && raw[j].0 == k { raw.update(j, (k, v)) } else { raw.insert(j, (k, v)) },
    decreases j,
{
    if j == 0 {
        if raw.len() == 0 {
            assert(raw.insert(0, (k, v)) =~= seq![(k, v)]);
        } else if raw[0].0 == k {
            assert(raw.update(0, (k, v)) =~= seq![(k, v)] + raw.drop_first());
        } else {
            lemma_key_lt_total(raw[0].0, k);
            assert(raw.insert(0, (k, v)) =~= seq![(k, v)] + raw);
        }
    } else {
        lemma_key_lt_irrefl(k);
        lemma_key_lt_asym(raw[0].0, k);
        assert(raw[0].0 != k);
        let rest = raw.drop_first();
        assert forall|a: int| 0 <= a < j - 1 implies key_lt(#[trigger] rest[a].0, k) by {
            assert(rest[a] == raw[a + 1]);
        }
        lemma_raw_insert_at(rest, k, v, j - 1);
        if j < raw.len() && raw[j].0 == k {
            assert(raw.update(j, (k, v)) =~= seq![raw[0]] + rest.update(j - 1, (k, v)));
        } else {
            assert(raw.insert(j, (k, v)) =~= seq![raw[0]] + rest.insert(j - 1, (k, v)));
        }
    }
}

/// Looking up after an insertion: the new value for its key, the old ones
/// for every other key.
pub proof fn raw_insert_lookup(raw: Seq<(Seq<char>, Seq<u8>)>, k: Seq<char>, v: Seq<u8>, q: Seq<char>)
    ensures
        raw_lookup(raw_insert(raw, k, v), q) == if q == k { Some(v) } else { raw_lookup(raw, q) },
    decreases raw.len(),
{
    let e: Seq<(Seq<char>, Seq<u8>)> = seq![(k, v)];
    let ins = raw_insert(raw, k, v);
    if raw.len() > 0 {
        if raw[0].0 == k {
            assert(ins == e + raw.drop_first());
            assert(ins[0] == (k, v));
            assert(ins.drop_first() =~= raw.drop_first());
        } else if key_lt(k, raw[0].0) {
            assert(ins == e + raw);
            assert(ins[0] == (k, v));
            assert(ins.drop_first() =~= raw);
        } else {
            let rest = raw_insert(raw.drop_first(), k, v);
            assert(ins == seq![raw[0]] + rest);
            assert(ins[0] == raw[0]);
            assert(ins.drop_first() =~= rest);
            raw_insert_lookup(raw.drop_first(), k, v, q);
        }
    } else {
        assert(ins == e);
        assert(ins.drop_first() =~= Seq::<(Seq<char>, Seq<u8>)>::empty());
        assert(ins[0] == (k, v));
        assert(raw_lookup(ins.drop_first(), q) is None);
    }
}

/// The keys with a prefix are keys of the list.
proof fn lemma_prefix_keys_member(raw: Seq<(Seq<char>, Seq<u8>)>, p: Seq<char>)
    ensures
        forall|a: int| 0 <= a < keys_with_prefix(raw, p).len() ==>
            exists|j: int| 0 <= j < raw.len() && #[trigger] keys_with_prefix(raw, p)[a] == raw[j].0,
    decreases raw.len(),
{
    if raw.len() > 0 {
        let d = raw.drop_last();
        lemma_prefix_keys_member(d, p);
        let kp = keys_with_prefix(raw, p);
        assert forall|a: int| 0 <= a < kp.len() implies
            exists|j: int| 0 <= j < raw.len() && #[trigger] kp[a] == raw[j].0 by {
            if a < keys_with_prefix(d, p).len() {
                let j = choose|j: int| 0 <= j < d.len() && keys_with_prefix(d, p)[a] == d[j].0;
                assert(kp[a] == raw[j].0);
            } else {
                assert(kp[a] == raw[raw.len() - 1].0);
            }
        }
    }
}

/// The keys with a given prefix come out in order.
pub proof fn prefix_keys_sorted(raw: Seq<(Seq<char>, Seq<u8>)>, p: Seq<char>)
    requires
        keys_sorted(raw_keys_of(raw)),
    ensures
        keys_sorted(keys_with_prefix(raw, p)),
    decreases raw.len(),
{
    if raw.len() > 0 {
        let d = raw.drop_last();
        assert forall|i: int, j: int| 0 <= i < j < raw_keys_of(d).len() implies
            key_lt(#[trigger] raw_keys_of(d)[i], #[trigger] raw_keys_of(d)[j]) by {
            assert(raw_keys_of(d)[i] == raw_keys_of(raw)[i]);
            assert(raw_keys_of(d)[j] == raw_keys_of(raw)[j]);
        }
        prefix_keys_sorted(d, p);
        lemma_prefix_keys_member(d, p);
        let kd = keys_with_prefix(d, p);
        let kp = keys_with_prefix(raw, p);
        assert forall|i: int, j: int| 0 <= i < j < kp.len() implies key_lt(#[trigger] kp[i], #[trigger] kp[j]) by {
            if j == kd.len() {
                let a = choose|a: int| 0 <= a < d.len() && kd[i] == d[a].0;
                assert(raw_keys_of(raw)[a] == kd[i]);
                assert(raw_keys_of(raw)[raw.len() - 1] == raw.last().0);
            }
        }
    }
}

impl Pack {
    /// A raw pack file (blockstate or model) by its normalised key,
    /// compared in lowercase.
    pub fn get_raw(&self, key: &str) -> (r: Option<&[u8]>)
        requires
            self.wf(),
        ensures
            match r {
                Some(v) => raw_lookup(self.raw_view(), lowercase(key@)) == Some(v@),
                None => raw_lookup(self.raw_view(), lowercase(key@)) is None,
            },
    {
        let lk = lower_chars(key);
        let ghost rv = self.raw_view();
        proof {
            assert(rv.skip(0) =~= rv);
        }
        for i in 0usize..self.raw.len()
            invariant
                rv == self.raw_view(),
                lk@ == lowercase(key@),
                raw_lookup(rv, lk@) == raw_lookup(rv.skip(i as int), lk@),
        {
            if chars_eq(self.raw[i].0.as_slice(), lk.as_slice()) {
                return Some(self.raw[i].1.as_slice());
            }
            proof {
                assert(rv.skip(i as int).drop_first() =~= rv.skip(i + 1));
            }
        }
        None
    }

    /// All raw keys under a prefix (such as "blockstates/"), sorted.
    pub fn raw_keys(&self, prefix: &str) -> (r: Vec<String>)
        requires
            self.wf(),
        ensures
            strings_view(r@) == keys_with_prefix(self.raw_view(), prefix@),
            keys_sorted(strings_view(r@)),
    {
        let pc = chars_of(prefix);
        let ghost rv = self.raw_view();
        let mut out: Vec<String> = Vec::new();
        for i in 0usize..self.raw.len()
            invariant
                rv == self.raw_view(),
                pc@ == prefix@,
                strings_view(out@) == keys_with_prefix(rv.subrange(0, i as int), prefix@),
        {
            let ghost before = out@;
            if chars_start_with(self.raw[i].0.as_slice(), pc.as_slice()) {
                out.push(string_of(self.raw[i].0.as_slice()));
                assert(strings_view(out@) =~= strings_view(before).push(rv[i as int].0));
            }
            proof {
                assert(rv.subrange(0, i + 1).drop_last() =~= rv.subrange(0, i as int));
            }
        }
        proof {
            assert(rv.subrange(0, rv.len() as int) =~= rv);
            prefix_keys_sorted(rv, prefix@);
        }
        out
    }

    /// Stores a raw pack file under `key`, replacing an earlier one.
    pub fn insert_raw(&mut self, key: String, bytes: Vec<u8>)
        requires
            old(self).wf(),
        ensures
            final(self).wf(),
            final(self).state() == raw_step(old(self).state(), key@, bytes@),
    {
        let kc = chars_of(key.as_str());
        let ghost rv = self.raw_view();
        let ghost kv = key@;
        let mut j: usize = 0;
        while j < self.raw.len() && chars_lt(self.raw[j].0.as_slice(), kc.as_slice())
            invariant
                rv == self.raw_view(),
                kc@ == kv,
                j <= rv.len(),
                forall|a: int| 0 <= a < j ==> key_lt(#[trigger] rv[a].0, kv),
            decreases self.raw.len() - j,
        {
            j += 1;
        }
        proof {
            lemma_raw_insert_at(rv, kv, bytes@, j as int);
        }
        let ghost old_raw = self.raw@;
        if j < self.raw.len() && chars_eq(self.raw[j].0.as_slice(), kc.as_slice()) {
            self.raw.set(j, (kc, bytes));
            assert(self.raw_view() =~= rv.update(j as int, (kv, bytes@)));
            assert(raw_keys_of(self.raw_view()) =~= raw_keys_of(rv));
        } else {
            self.raw.insert(j, (kc, bytes));
            assert(self.raw_view() =~= rv.insert(j as int, (kv, bytes@)));
            proof {
                let nk = raw_keys_of(self.raw_view());
                if j < rv.len() {
                    lemma_key_lt_total(rv[j as int].0, kv);
                }
                assert forall|a: int, b: int| 0 <= a < b < nk.len() implies key_lt(#[trigger] nk[a], #[trigger] nk[b]) by {
                    let ok = raw_keys_of(rv);
                    if b < j {
                        assert(key_lt(ok[a], ok[b]));
                    } else if b == j {
                        assert(nk[a] == rv[a].0);
                    } else if a == j {
                        assert(nk[b] == rv[b - 1].0);
                        if b - 1 > j {
                            assert(key_lt(ok[j as int], ok[b - 1]));
                            lemma_key_lt_trans(kv, rv[j as int].0, rv[b - 1].0);
                        }
                    } else if a < j {
                        assert(nk[b] == ok[b - 1]);
                        assert(key_lt(ok[a], ok[b - 1]));
                    } else {
                        assert(key_lt(ok[a - 1], ok[b - 1]));
                    }
                }
            }
        }
        assert(self.names_view() == old(self).names_view());
        assert(self.images_view() == old(self).images_view());
    }

    /// Stores a texture under `key`: skipped for pack metadata and for a
    /// name already loaded, and when the bytes do not decode.
    pub fn insert_png(&mut self, key: String, bytes: &[u8])
        requires
            old(self).wf(),
        ensures
            final(self).wf(),
            final(self).state() == png_step(old(self).state(), key@, bytes@),
    {
        if is_meta_stem(key.as_str()) {
            return;
        }
        if self.find_name(&key).is_some() {
            return;
        }
        match png_decode(bytes) {
            Some(img) => {
                let ghost nv = self.names_view();
                let ghost iv = self.images_view();
                proof {
                    lemma_png_dims(bytes@);
                    lemma_lookup_none(nv, iv, key@);
                }
                self.names.push(key);
                self.images.push(img);
                assert(self.names_view() =~= nv.push(key@));
                assert(self.images_view() =~= iv.push(image_view(img)));
                assert forall|i: int| 0 <= i < self.images@.len() implies decodable(#[trigger] image_view(self.images@[i])) by {
                    if i < iv.len() {
                        assert(self.images@[i] == old(self).images@[i]);
                    }
                }
            },
            None => {},
        }
    }

    /// Stores a colormap at full resolution: the first decodable "grass" and
    /// "foliage" maps are kept.
    pub fn insert_colormap(&mut self, stem: &str, bytes: &[u8])
        requires
            old(self).wf(),
        ensures
            final(self).wf(),
            final(self).state() == colormap_step(old(self).state(), stem@, bytes@),
    {
        let img = match png_decode(bytes) {
            Some(i) => i,
            None => return,
        };
        let s = chars_of(stem);
        let g: [char; 5] = ['g', 'r', 'a', 's', 's'];
        let f: [char; 7] = ['f', 'o', 'l', 'i', 'a', 'g', 'e'];
        assert(g@ =~= grass_stem());
        assert(f@ =~= foliage_stem());
        if chars_eq(s.as_slice(), g.as_slice()) {
            if self.colormap_grass.is_none() {
                self.colormap_grass = Some(img);
            }
        } else if chars_eq(s.as_slice(), f.as_slice()) {
            if self.colormap_foliage.is_none() {
                self.colormap_foliage = Some(img);
            }
        }
    }
}

/// ".png"
pub open spec fn png_ext() -> Seq<char> {
    seq!['.', 'p', 'n', 'g']
}

/// ".png.mcmeta"
pub open spec fn png_meta_ext() -> Seq<char> {
    seq!['.', 'p', 'n', 'g', '.', 'm', 'c', 'm', 'e', 't', 'a']
}

/// ".json"
pub open spec fn json_ext() -> Seq<char> {
    seq!['.', 'j', 's', 'o', 'n']
}

/// "/colormap/"
pub open spec fn colormap_dir() -> Seq<char> {
    seq!['/', 'c', 'o', 'l', 'o', 'r', 'm', 'a', 'p', '/']
}

/// Position of the last '/' of `s`, or -1 when there is none.
pub open spec fn last_slash(s: Seq<char>) -> int
    decreases s.len(),
{
    if s.len() == 0 {
        -1
    } else if s.last() == '/' {
        s.len() - 1
    } else {
        last_slash(s.drop_last())
    }
}

/// `s` with every trailing `p` removed.
pub open spec fn trim_suffix(s: Seq<char>, p: Seq<char>) -> Seq<char>
    decreases s.len(),
{
    if p.len() > 0 && ends_with(s, p) {
        trim_suffix(s.subrange(0, s.len() - p.len()), p)
    } else {
        s
    }
}

/// One archive entry read into the pack: ".png" entries (in any case, not
/// ".png.mcmeta") become textures under the lowercase stem of their file
/// name, or colormaps when their path holds "/colormap/"; ".json" entries
/// of interest are kept raw under their key; anything else is skipped.
pub open spec fn zip_entry_step(st: PackState, name: Seq<char>, bytes: Seq<u8>) -> PackState {
    let lower = lowercase(name);
    if ends_with(lower, png_meta_ext()) {
        st
    } else if !ends_with(lower, png_ext()) {
        if ends_with(lower, json_ext()) {
            match asset_key(name) {
                Some(k) => raw_step(st, k, bytes),
                None => st,
            }
        } else {
            st
        }
    } else {
        let seg = name.skip(last_slash(name) + 1);
        if seg.len() == 0 {
            st
        } else {
            let stem = lowercase(trim_suffix(seg, png_ext()));
            if find_from(lower, colormap_dir(), 0) is Some {
                colormap_step(st, stem, bytes)
            } else {
                png_step(st, stem, bytes)
            }
        }
    }
}

/// The archive's entries read into the pack in order.
pub open spec fn zip_scan(st: PackState, entries: Seq<(Seq<char>, Seq<u8>)>) -> PackState
    decreases entries.len(),
{
    if entries.len() == 0 {
        st
    } else {
        zip_scan(zip_entry_step(st, entries[0].0, entries[0].1), entries.drop_first())
    }
}

/// One past the last '/' of `s` (0 when there is none): where its last
/// path segment starts.
fn segment_start(s: &[char]) -> (r: usize)
    ensures
        r as int == last_slash(s@) + 1,
        r <= s@.len(),
{
    let mut i = s.len();
    proof {
        assert(s@.subrange(0, s@.len() as int) =~= s@);
    }
    loop
        invariant
            i <= s@.len(),
            last_slash(s@) == last_slash(s@.subrange(0, i as int)),
        decreases i,
    {
        if i == 0 {
            return 0;
        }
        if s[i - 1] == '/' {
            return i;
        }
        proof {
            assert(s@.subrange(0, i as int).drop_last() =~= s@.subrange(0, i - 1));
        }
        i -= 1;
    }
}

/// Length of `s` once every trailing ".png" is removed.
fn trim_png(s: &[char]) -> (r: usize)
    ensures
        r <= s@.len(),
        s@.subrange(0, r as int) == trim_suffix(s@, png_ext()),
{
    let ext: [char; 4] = ['.', 'p', 'n', 'g'];
    assert(ext@ =~= png_ext());
    let mut e = s.len();
    proof {
        assert(s@.subrange(0, s@.len() as int) =~= s@);
    }
    loop
        invariant
            e <= s@.len(),
            ext@ == png_ext(),
            trim_suffix(s@, png_ext()) == trim_suffix(s@.subrange(0, e as int), png_ext()),
        decreases e,
    {
        let cur = &s[0..e];
        if !chars_end_with(cur, ext.as_slice()) {
            return e;
        }
        proof {
            assert(cur@.subrange(0, e - 4) =~= s@.subrange(0, e - 4));
        }
        e -= 4;
    }
}

impl Pack {
    /// Reads one archive entry into the pack.
    fn scan_entry(&mut self, name: &str, bytes: &[u8])
        requires
            old(self).wf(),
        ensures
            final(self).wf(),
            final(self).state() == zip_entry_step(old(self).state(), name@, bytes@),
    {
        let lower = lower_chars(name);
        let pm: [char; 11] = ['.', 'p', 'n', 'g', '.', 'm', 'c', 'm', 'e', 't', 'a'];
        let pn: [char; 4] = ['.', 'p', 'n', 'g'];
        let js: [char; 5] = ['.', 'j', 's', 'o', 'n'];
        let cm: [char; 10] = ['/', 'c', 'o', 'l', 'o', 'r', 'm', 'a', 'p', '/'];
        assert(pm@ =~= png_meta_ext());
        assert(pn@ =~= png_ext());
        assert(js@ =~= json_ext());
        assert(cm@ =~= colormap_dir());
        if chars_end_with(lower.as_slice(), pm.as_slice()) {
            return;
        }
        if !chars_end_with(lower.as_slice(), pn.as_slice()) {
            if chars_end_with(lower.as_slice(), js.as_slice()) {
                match norm_asset_path(name) {
                    Some(key) => self.insert_raw(key, vstd::slice::slice_to_vec(bytes)),
                    None => {},
                }
            }
            return;
        }
        let nc = chars_of(name);
        let st = segment_start(nc.as_slice());
        let seg = &nc.as_slice()[st..nc.len()];
        assert(seg@ =~= name@.skip(last_slash(name@) + 1));
        if seg.len() == 0 {
            return;
        }
        let e = trim_png(seg);
        let stem_raw = string_of(&seg[0..e]);
        let stem = to_lowercase(stem_raw.as_str());
        if chars_find(lower.as_slice(), cm.as_slice(), 0).is_some() {
            self.insert_colormap(stem.as_str(), bytes);
        } else {
            self.insert_png(stem, bytes);
        }
    }

    /// Reads the textures, colormaps and raw files of a ZIP archive (vanilla
    /// packs are distributed so), in the archive's order.
    pub fn scan_zip(&mut self, data: &[u8])
        requires
            old(self).wf(),
            zip_readable(data@),
            data@.len() + 0x30000 <= usize::MAX,
        ensures
            final(self).wf(),
            final(self).state() == zip_scan(old(self).state(), zip_spec(data@)),
    {
        let entries = zip_entries(data);
        let ghost zs = zip_spec(data@);
        let ghost st0 = self.state();
        proof {
            assert(zs.skip(0) =~= zs);
        }
        for i in 0usize..entries.len()
            invariant
                self.wf(),
                zs == zip_spec(data@),
                entries@.len() == zs.len(),
                forall|k: int| 0 <= k < entries@.len() ==> (#[trigger] entries@[k]).0@ == zs[k].0 && entries@[k].1@ == zs[k].1,
                zip_scan(st0, zs) == zip_scan(self.state(), zs.skip(i as int)),
        {
            proof {
                assert(zs.skip(i as int)[0] == zs[i as int]);
                assert(zs.skip(i as int).drop_first() =~= zs.skip(i + 1));
                assert(entries@[i as int].0@ == zs[i as int].0);
            }
            self.scan_entry(entries[i].0.as_str(), entries[i].1.as_slice());
        }
    }
}

/// The code length alphabet of a dynamic block (RFC 1951, 3.2.7), one
/// symbol read at `q` into lengths that are still zero from `i` on: 0-15 is
/// the next length; 16 repeats the previous length 3 + (2 extra bits) times;
/// 17 gives 3 + (3 extra bits) zero lengths and 18 gives 11 + (7 extra bits)
/// zero lengths (both cut at `total`); reading then goes on after the extra
/// bits.
pub proof fn code_length_symbols(d: Seq<u8>, q: int, clh: (Seq<u16>, Seq<u16>), lengths: Seq<u8>, i: int, total: int)
    requires
        0 <= i < total <= lengths.len(),
        forall|k: int| i <= k < total ==> lengths[k] == 0,
        huff_decode(clh, d, q) is Some,
    ensures
        ({
            let (sym, q1) = huff_decode(clh, d, q).unwrap();
            let here = read_code_lengths(d, q, clh, lengths, i, total);
            &&& sym <= 15 ==> here == read_code_lengths(d, q1, clh, lengths.update(i, sym as u8), i + 1, total)
            &&& (sym == 16 && i > 0 && q1 + 2 <= 8 * d.len() && i + 3 + bits_at(d, q1, 2) <= total) ==> here
                == read_code_lengths(d, q1 + 2, clh, fill_lengths(lengths, i, 3 + bits_at(d, q1, 2), lengths[i - 1]),
                i + 3 + bits_at(d, q1, 2), total)
            &&& (sym == 17 && q1 + 3 <= 8 * d.len()) ==> ({
                let n = if i + 3 + bits_at(d, q1, 3) < total { 3 + bits_at(d, q1, 3) } else { total - i };
                here == read_code_lengths(d, q1 + 3, clh, fill_lengths(lengths, i, n, 0), i + n, total)
            })
            &&& (sym == 18 && q1 + 7 <= 8 * d.len()) ==> ({
                let n = if i + 11 + bits_at(d, q1, 7) < total { 11 + bits_at(d, q1, 7) } else { total - i };
                here == read_code_lengths(d, q1 + 7, clh, fill_lengths(lengths, i, n, 0), i + n, total)
            })
        }),
{
    let (sym, q1) = huff_decode(clh, d, q).unwrap();
    if sym == 17 {
        let n = if i + 3 + bits_at(d, q1, 3) < total { 3 + bits_at(d, q1, 3) } else { total - i };
        assert(fill_lengths(lengths, i, n, 0) =~= lengths);
    }
    if sym == 18 {
        let n = if i + 11 + bits_at(d, q1, 7) < total { 11 + bits_at(d, q1, 7) } else { total - i };
        assert(fill_lengths(lengths, i, n, 0) =~= lengths);
    }
}

/// A ZIP local file record: the signature `50 4b 03 04`, 22 header bytes
/// `hdr` (version, flags, method, time, CRC, sizes), the name and extra
/// field lengths (little-endian), the name, the extra field, the data.
pub open spec fn local_record(hdr: Seq<u8>, name: Seq<u8>, extra: Seq<u8>, data: Seq<u8>) -> Seq<u8> {
    seq![0x50u8, 0x4bu8, 0x03u8, 0x04u8] + hdr + crate::bytes::le_bytes(name.len(), 2) + crate::bytes::le_bytes(
        extra.len(),
        2,
    ) + name + extra + data
}

/// A ZIP central directory header: the signature `50 4b 01 02`, 6 bytes
/// `a` (versions, flags), the method, 8 bytes `b` (time, date, CRC), the
/// compressed and uncompressed sizes, the name, extra field and comment
/// lengths, 8 bytes `c` (disk, attributes), the local header's offset, then
/// the name, extra field and comment.
pub open spec fn central_record(
    a: Seq<u8>,
    method: u16,
    b: Seq<u8>,
    csize: u32,
    usize_: u32,
    c: Seq<u8>,
    lho: u32,
    name: Seq<u8>,
    extra: Seq<u8>,
    comment: Seq<u8>,
) -> Seq<u8> {
    seq![0x50u8, 0x4bu8, 0x01u8, 0x02u8] + a + le_bytes(method as nat, 2) + b + le_bytes(csize as nat, 4) + le_bytes(
        usize_ as nat,
        4,
    ) + le_bytes(name.len(), 2) + le_bytes(extra.len(), 2) + le_bytes(comment.len(), 2) + c + le_bytes(lho as nat, 4)
        + name + extra + comment
}

proof fn lemma_field_at(d: Seq<u8>, at: int, rec: Seq<u8>, off: int, f: Seq<u8>)
    requires
        0 <= at,
        0 <= off,
        off + f.len() <= rec.len(),
        at + rec.len() <= d.len(),
        d.subrange(at, at + rec.len()) == rec,
        rec.subrange(off, off + f.len()) == f,
    ensures
        d.subrange(at + off, at + off + f.len()) == f,
{
    assert(d.subrange(at + off, at + off + f.len()) =~= f) by {
        assert forall|k: int| 0 <= k < f.len() implies d.subrange(at + off, at + off + f.len())[k] == f[k] by {
            assert(d[at + off + k] == rec[off + k]);
            assert(rec.subrange(off, off + f.len())[k] == rec[off + k]);
        }
    }
}

/// An entry written as a local record (`hdr`, local name and extra field,
/// `data`) and a central directory header pointing at it reads back as the
/// central name and the data: as they are for a stored entry, inflated for
/// a deflated one. The data starts after the local record's own name and
/// extra field, whatever length the central header gives its extra field,
/// and the next central header follows this one's comment.
pub proof fn zip_entry_reads_back(
    d: Seq<u8>,
    p: int,
    a: Seq<u8>,
    method: u16,
    b: Seq<u8>,
    usize_: u32,
    c: Seq<u8>,
    lho: u32,
    cname: Seq<u8>,
    cextra: Seq<u8>,
    comment: Seq<u8>,
    hdr: Seq<u8>,
    lname: Seq<u8>,
    lextra: Seq<u8>,
    data: Seq<u8>,
)
    requires
        a.len() == 6 && b.len() == 8 && c.len() == 8 && hdr.len() == 22,
        cname.len() < 65536 && cextra.len() < 65536 && comment.len() < 65536,
        lname.len() < 65536 && lextra.len() < 65536,
        data.len() < 0x1_0000_0000,
        method == 0 || method == 8,
        0 <= p,
        p + central_record(a, method, b, data.len() as u32, usize_, c, lho, cname, cextra, comment).len() <= d.len(),
        d.subrange(p, p + central_record(a, method, b, data.len() as u32, usize_, c, lho, cname, cextra, comment).len())
            == central_record(a, method, b, data.len() as u32, usize_, c, lho, cname, cextra, comment),
        lho + local_record(hdr, lname, lextra, data).len() <= d.len(),
        d.subrange(lho as int, lho + local_record(hdr, lname, lextra, data).len()) == local_record(hdr, lname, lextra, data),
    ensures
        zip_next(d, p) == p + central_record(a, method, b, data.len() as u32, usize_, c, lho, cname, cextra, comment).len(),
        method == 0 ==> zip_entry(d, p) == Some((lossy_text(cname), data)),
        method == 8 ==> zip_entry(d, p) == match inflate_spec(data) {
            Some(x) => Some((lossy_text(cname), x)),
            None => None,
        },
{
    lemma_central_fields(d, p, a, method, b, data.len() as u32, usize_, c, lho, cname, cextra, comment);
    lemma_local_fields(d, lho as int, hdr, lname, lextra, data);
}

#[verifier::rlimit(50)]
proof fn lemma_central_fields(
    d: Seq<u8>,
    p: int,
    a: Seq<u8>,
    method: u16,
    b: Seq<u8>,
    csize: u32,
    usize_: u32,
    c: Seq<u8>,
    lho: u32,
    cname: Seq<u8>,
    cextra: Seq<u8>,
    comment: Seq<u8>,
)
    requires
        a.len() == 6 && b.len() == 8 && c.len() == 8,
        cname.len() < 65536 && cextra.len() < 65536 && comment.len() < 65536,
        0 <= p,
        p + central_record(a, method, b, csize, usize_, c, lho, cname, cextra, comment).len() <= d.len(),
        d.subrange(p, p + central_record(a, method, b, csize, usize_, c, lho, cname, cextra, comment).len())
            == central_record(a, method, b, csize, usize_, c, lho, cname, cextra, comment),
    ensures
        le16(d, p + 10) == method,
        le32(d, p + 20) == csize,
        le16(d, p + 28) == cname.len(),
        le16(d, p + 30) == cextra.len(),
        le16(d, p + 32) == comment.len(),
        le32(d, p + 42) == lho,
        d.subrange(p + 46, p + 46 + cname.len()) == cname,
        central_record(a, method, b, csize, usize_, c, lho, cname, cextra, comment).len() == 46 + cname.len()
            + cextra.len() + comment.len(),
{
    let cr = central_record(a, method, b, csize, usize_, c, lho, cname, cextra, comment);
    assert(pow256(2) == 65536 && pow256(4) == 0x1_0000_0000) by {
        reveal_with_fuel(pow256, 5);
    }
    crate::bytes::lemma_le_roundtrip(method as nat, 2);
    crate::bytes::lemma_le_roundtrip(csize as nat, 4);
    crate::bytes::lemma_le_roundtrip(usize_ as nat, 4);
    crate::bytes::lemma_le_roundtrip(cname.len(), 2);
    crate::bytes::lemma_le_roundtrip(cextra.len(), 2);
    crate::bytes::lemma_le_roundtrip(comment.len(), 2);
    crate::bytes::lemma_le_roundtrip(lho as nat, 4);
    assert(cr.subrange(10, 12) =~= le_bytes(method as nat, 2));
    lemma_field_at(d, p, cr, 10, le_bytes(method as nat, 2));
    assert(cr.subrange(20, 24) =~= le_bytes(csize as nat, 4));
    lemma_field_at(d, p, cr, 20, le_bytes(csize as nat, 4));
    assert(cr.subrange(28, 30) =~= le_bytes(cname.len(), 2));
    lemma_field_at(d, p, cr, 28, le_bytes(cname.len(), 2));
    assert(cr.subrange(30, 32) =~= le_bytes(cextra.len(), 2));
    lemma_field_at(d, p, cr, 30, le_bytes(cextra.len(), 2));
    assert(cr.subrange(32, 34) =~= le_bytes(comment.len(), 2));
    lemma_field_at(d, p, cr, 32, le_bytes(comment.len(), 2));
    assert(cr.subrange(42, 46) =~= le_bytes(lho as nat, 4));
    lemma_field_at(d, p, cr, 42, le_bytes(lho as nat, 4));
    assert(cr.subrange(46, 46 + cname.len() as int) =~= cname);
    lemma_field_at(d, p, cr, 46, cname);
}

#[verifier::rlimit(50)]
proof fn lemma_local_fields(d: Seq<u8>, lho: int, hdr: Seq<u8>, lname: Seq<u8>, lextra: Seq<u8>, data: Seq<u8>)
    requires
        hdr.len() == 22,
        lname.len() < 65536 && lextra.len() < 65536,
        0 <= lho,
        lho + local_record(hdr, lname, lextra, data).len() <= d.len(),
        d.subrange(lho, lho + local_record(hdr, lname, lextra, data).len()) == local_record(hdr, lname, lextra, data),
    ensures
        le32(d, lho) == 0x0403_4b50,
        le16(d, lho + 26) == lname.len(),
        le16(d, lho + 28) == lextra.len(),
        lho + 30 + lname.len() + lextra.len() + data.len() <= d.len(),
        d.subrange(lho + 30 + lname.len() + lextra.len(), lho + 30 + lname.len() + lextra.len() + data.len()) == data,
{
    let lr = local_record(hdr, lname, lextra, data);
    assert(pow256(2) == 65536) by {
        reveal_with_fuel(pow256, 3);
    }
    crate::bytes::lemma_le_roundtrip(lname.len(), 2);
    crate::bytes::lemma_le_roundtrip(lextra.len(), 2);
    let sig = seq![0x50u8, 0x4bu8, 0x03u8, 0x04u8];
    assert(lr.subrange(0, 4) =~= sig);
    lemma_field_at(d, lho, lr, 0, sig);
    assert(crate::bytes::le_value(sig) == 0x0403_4b50) by {
        reveal_with_fuel(crate::bytes::le_value, 5);
        assert(sig.drop_first() =~= seq![0x4bu8, 0x03u8, 0x04u8]);
        assert(sig.drop_first().drop_first() =~= seq![0x03u8, 0x04u8]);
        assert(sig.drop_first().drop_first().drop_first() =~= seq![0x04u8]);
        assert(sig.drop_first().drop_first().drop_first().drop_first() =~= Seq::<u8>::empty());
    }
    assert(lr.subrange(26, 28) =~= le_bytes(lname.len(), 2));
    lemma_field_at(d, lho, lr, 26, le_bytes(lname.len(), 2));
    assert(lr.subrange(28, 30) =~= le_bytes(lextra.len(), 2));
    lemma_field_at(d, lho, lr, 28, le_bytes(lextra.len(), 2));
    let off: int = 30 + lname.len() as int + lextra.len() as int;
    assert(lr.subrange(off, off + data.len() as int) =~= data);
    lemma_field_at(d, lho, lr, off, data);
}

/// The length and distance codes of DEFLATE (RFC 1951, 3.2.5) tile their
/// ranges: length codes cover 3, 4, ... 258 one after the other, each over
/// 2^extra values from its base (the last two both ending at 258), and
/// distance codes cover 1 to 32768 the same way.
pub proof fn length_distance_codes_tile()
    ensures
        LEN_BASE@[0] == 3,
        forall|s: int| 0 <= s < 27 ==> LEN_BASE@[s + 1] as int == LEN_BASE@[s] as int
            + vstd::arithmetic::power2::pow2(#[trigger] LEN_EXTRA@[s] as nat),
        LEN_BASE@[27] as int + vstd::arithmetic::power2::pow2(LEN_EXTRA@[27] as nat) == 258 + 1,
        LEN_BASE@[28] == 258 && LEN_EXTRA@[28] == 0,
        DIST_BASE@[0] == 1,
        forall|s: int| 0 <= s < 29 ==> DIST_BASE@[s + 1] as int == DIST_BASE@[s] as int
            + vstd::arithmetic::power2::pow2(#[trigger] DIST_EXTRA@[s] as nat),
        DIST_BASE@[29] as int + vstd::arithmetic::power2::pow2(DIST_EXTRA@[29] as nat) == 32768 + 1,
{
    vstd::arithmetic::power2::lemma2_to64();
    assert forall|s: int| 0 <= s < 27 implies LEN_BASE@[s + 1] as int == LEN_BASE@[s] as int
        + vstd::arithmetic::power2::pow2(#[trigger] LEN_EXTRA@[s] as nat) by {
        vstd::arithmetic::power2::lemma2_to64();
    }
    assert forall|s: int| 0 <= s < 29 implies DIST_BASE@[s + 1] as int == DIST_BASE@[s] as int
        + vstd::arithmetic::power2::pow2(#[trigger] DIST_EXTRA@[s] as nat) by {
        vstd::arithmetic::power2::lemma2_to64();
    }
}

/// The code length code lengths come in the order 16, 17, 18, 0, 8, 7, 9,
/// 6, 10, 5, 11, 4, 12, 3, 13, 2, 14, 1, 15 (RFC 1951, 3.2.7), and the
/// rank of each code length symbol is its place in that order.
pub proof fn code_length_order()
    ensures
        CL_ORDER@ == seq![16usize, 17, 18, 0, 8, 7, 9, 6, 10, 5, 11, 4, 12, 3, 13, 2, 14, 1, 15],
        forall|j: int| 0 <= j < 19 ==> CL_RANK@[#[trigger] CL_ORDER@[j] as int] as int == j,
{
    assert(CL_ORDER@ =~= seq![16usize, 17, 18, 0, 8, 7, 9, 6, 10, 5, 11, 4, 12, 3, 13, 2, 14, 1, 15]);
}

} // verus!
