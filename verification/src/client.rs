//! The client's connection phases and the decoding of chunk sections.
use vstd::prelude::*;
use crate::bytes::{be_value, get_be};
use crate::mcproto::{be_field, varint_scan, R2};
use crate::nbt::{parse_network, NbtRdr};

verus! {

/// Where a client connection stands: connecting, downloading the world,
/// playing.
#[derive(Clone, Copy, PartialEq, Eq, Structural, Debug)]
pub enum Phase {
    Connecting,
    Downloading,
    Playing,
}

/// A VarInt read at `p`, with `dflt` in place of a value that could not be
/// read, and the position after it.
pub open spec fn vi_or(b: Seq<u8>, p: int, dflt: i32) -> (i32, int) {
    let (v, q) = varint_scan(b, p, 0, 0);
    match v {
        Some(u) => (u as i32, q),
        None => (dflt, q),
    }
}

/// `n` VarInts read one after the other from `p` (zero for each that could
/// not be read), as `u32`, and the position after them.
pub open spec fn varints_scan(b: Seq<u8>, p: int, n: nat) -> (Seq<u32>, int)
    decreases n,
{
    if n == 0 {
        (Seq::empty(), p)
    } else {
        let (s, q) = varints_scan(b, p, (n - 1) as nat);
        let (v, q2) = vi_or(b, q, 0);
        (s.push(v as u32), q2)
    }
}

/// The mask of the low `bits` bits, for the entry widths of a block
/// container.
pub open spec fn low_mask(bits: u64) -> u64 {
    if bits == 4 {
        0xF
    } else if bits == 5 {
        0x1F
    } else if bits == 6 {
        0x3F
    } else if bits == 7 {
        0x7F
    } else {
        0xFF
    }
}

/// Entries per 64-bit word at `bits` bits per entry.
pub open spec fn per_long(bits: u64) -> u64 {
    (64u64 / bits) as u64
}

/// Words needed for the 4096 entries of a section at `bits` bits per entry.
pub open spec fn longs_needed(bits: u64) -> int {
    (4096 + per_long(bits) - 1) / (per_long(bits) as int)
}

/// The state of entry `i` of a section whose packed words start at `base`:
/// the palette entry that its index names, or 0 past the palette's end.
pub open spec fn packed_state(b: Seq<u8>, base: int, pal: Seq<u32>, bits: u64, i: int) -> u32 {
    let per = per_long(bits) as int;
    let li = i / per;
    let off = i % per;
    let l = be_value(b.subrange(base + li * 8, base + li * 8 + 8)) as u64;
    let v = (l >> ((off * bits) as u64)) & low_mask(bits);
    if (v as int) < pal.len() {
        pal[v as int]
    } else {
        0
    }
}

/// Reads a paletted block container at `p`: its 4096 block states, or
/// `None` where it is malformed or holds global ids, and the position after
/// it.
pub open spec fn block_container_scan(b: Seq<u8>, p: int) -> (Option<Seq<u32>>, int) {
    let (bits, p1) = vi_or(b, p, -1i32);
    if bits == 0 {
        let (v, p2) = vi_or(b, p1, 0);
        let (n, p3) = vi_or(b, p2, 0);
        if n != 0 {
            (None, p3)
        } else {
            (Some(Seq::new(4096, |i: int| v as u32)), p3)
        }
    } else if 4 <= bits <= 8 {
        let (plen, p2) = vi_or(b, p1, 0);
        let (pal, p3) = varints_scan(b, p2, (plen as usize) as nat);
        let (nl, p4) = vi_or(b, p3, 0);
        let nlongs = (nl as usize) as int;
        if nlongs != longs_needed(bits as u64) || p4 + nlongs * 8 > b.len() {
            (None, p4)
        } else {
            (
                Some(Seq::new(4096, |i: int| packed_state(b, p4, pal, bits as u64, i))),
                p4 + nlongs * 8,
            )
        }
    } else {
        (None, p1)
    }
}

/// Skips a paletted biome container at `p`: whether it was well formed, and
/// the position after it.
pub open spec fn biome_container_scan(b: Seq<u8>, p: int) -> (bool, int) {
    let (bits, p1) = vi_or(b, p, -1i32);
    if bits == 0 {
        let (_v, p2) = vi_or(b, p1, 0);
        let (n, p3) = vi_or(b, p2, 0);
        (n == 0, p3)
    } else if 1 <= bits <= 8 {
        let (plen, p2) = vi_or(b, p1, 0);
        let (_pal, p3) = varints_scan(b, p2, (plen as usize) as nat);
        let (nl, p4) = vi_or(b, p3, 0);
        let n = (nl as usize) as int * 8;
        if n <= usize::MAX && p4 + n <= b.len() {
            (true, p4 + n)
        } else {
            (false, p4)
        }
    } else {
        (false, p1)
    }
}

proof fn lemma_varint_scan_pos(b: Seq<u8>, p: int, i: nat, acc: u32)
    requires
        0 <= p,
    ensures
        p <= varint_scan(b, p, i, acc).1,
        p <= b.len() ==> varint_scan(b, p, i, acc).1 <= b.len(),
    decreases 5 - i,
{
    if !(i >= 5 || p < 0 || p >= b.len()) {
        let byte = b[p];
        let acc2 = acc | (((byte % 0x80) as u32) << ((7 * i) as u32));
        if byte >= 0x80 {
            lemma_varint_scan_pos(b, p + 1, i + 1, acc2);
        }
    }
}

fn vi_or_exec(r: &mut R2, dflt: i32) -> (v: i32)
    ensures
        final(r).b@ == old(r).b@,
        (v, final(r).p as int) == vi_or(old(r).b@, old(r).p as int, dflt),
        old(r).p <= final(r).p,
        old(r).p <= old(r).b@.len() ==> final(r).p <= old(r).b@.len(),
{
    proof { lemma_varint_scan_pos(r.b@, r.p as int, 0, 0); }
    match r.vi() {
        Some(v) => v,
        None => dflt,
    }
}

fn read_varints(r: &mut R2, n: usize) -> (pal: Vec<u32>)
    ensures
        final(r).b@ == old(r).b@,
        (pal@, final(r).p as int) == varints_scan(old(r).b@, old(r).p as int, n as nat),
        old(r).p <= old(r).b@.len() ==> final(r).p <= old(r).b@.len(),
{
    let mut pal: Vec<u32> = Vec::new();
    let ghost b = r.b@;
    let ghost p0 = r.p as int;
    let mut k: usize = 0;
    while k < n
        invariant
            k <= n,
            r.b@ == b,
            b == old(r).b@,
            p0 == old(r).p as int,
            (pal@, r.p as int) == varints_scan(b, p0, k as nat),
            p0 <= b.len() ==> r.p <= b.len(),
        decreases n - k,
    {
        let v = vi_or_exec(r, 0);
        pal.push(v as u32);
        k += 1;
    }
    pal
}

proof fn lemma_shift_fits(off: int, bits: int)
    requires
        4 <= bits <= 8,
        0 <= off < 64int / bits,
    ensures
        off * bits < 64,
{
    assert(off * bits <= (64int / bits - 1) * bits) by (nonlinear_arith)
        requires off <= 64int / bits - 1, bits > 0;
    assert((64int / bits) * bits <= 64) by (nonlinear_arith) requires bits > 0;
    assert((64int / bits - 1) * bits == (64int / bits) * bits - bits) by (nonlinear_arith);
}

/// Reads a paletted block container: the 4096 block states of a section, in
/// x, then z, then y order, or `None` where the container is malformed,
/// its words run past the end, or it holds global ids.
pub fn decode_container(r: &mut R2) -> (states: Option<Vec<u32>>)
    ensures
        final(r).b@ == old(r).b@,
        ({
            let (s, q) = block_container_scan(old(r).b@, old(r).p as int);
            &&& final(r).p as int == q
            &&& match s {
                Some(t) => states matches Some(v) && v@ == t,
                None => states is None,
            }
        }),
{
    let ghost b = r.b@;
    let bits = vi_or_exec(r, -1);
    if bits == 0 {
        let v = vi_or_exec(r, 0);
        let n = vi_or_exec(r, 0);
        if n != 0 {
            return None;
        }
        let entries: Vec<u32> = vec![v as u32; 4096];
        proof { assert(entries@ == Seq::new(4096, |i: int| v as u32)); }
        return Some(entries);
    }
    if bits < 4 || bits > 8 {
        return None;
    }
    let plen = vi_or_exec(r, 0);
    let pal = read_varints(r, plen as usize);
    let nl = vi_or_exec(r, 0);
    let nlongs = nl as usize;
    let bits_u: u64 = bits as u64;
    let per: u64 = if bits_u == 4 {
        16
    } else if bits_u == 5 {
        12
    } else if bits_u == 6 {
        10
    } else if bits_u == 7 {
        9
    } else {
        8
    };
    let expected: u64 = (4096 + per - 1) / per;
    assert(per == per_long(bits as u64)) by {
        if bits_u == 4 {
            assert(64u64 / bits_u == 16) by (nonlinear_arith) requires bits_u == 4;
        } else if bits_u == 5 {
            assert(64u64 / bits_u == 12) by (nonlinear_arith) requires bits_u == 5;
        } else if bits_u == 6 {
            assert(64u64 / bits_u == 10) by (nonlinear_arith) requires bits_u == 6;
        } else if bits_u == 7 {
            assert(64u64 / bits_u == 9) by (nonlinear_arith) requires bits_u == 7;
        } else {
            assert(64u64 / bits_u == 8) by (nonlinear_arith) requires bits_u == 8;
        }
    }
    assert(expected as int == longs_needed(bits as u64));
    if nlongs as u64 != expected || r.p > r.b.len() || nlongs > (r.b.len() - r.p) / 8 {
        proof {
            if nlongs as int == longs_needed(bits as u64) && r.p <= r.b.len() {
                assert(r.p + nlongs * 8 > r.b.len());
            }
        }
        return None;
    }
    let base = r.p;
    let mut entries: Vec<u32> = Vec::new();
    let mut i: usize = 0;
    while i < 4096
        invariant
            4 <= bits <= 8,
            bits_u == bits as u64,
            per == per_long(bits_u),
            8 <= per <= 16,
            r.b@ == b,
            b.len() <= usize::MAX,
            base + nlongs * 8 <= b.len(),
            nlongs as int == longs_needed(bits_u),
            i <= 4096,
            entries@.len() == i,
            forall|j: int| 0 <= j < i ==> entries@[j] == packed_state(b, base as int, pal@, bits_u, j),
        decreases 4096 - i,
    {
        let li = i / (per as usize);
        let off = i % (per as usize);
        proof {
            assert(li * (per as int) <= i) by (nonlinear_arith)
                requires li as int == (i as int) / (per as int), per > 0, i >= 0;
            assert(li < nlongs) by (nonlinear_arith)
                requires li as int == (i as int) / (per as int), per > 0, i < 4096,
                    nlongs as int == (4096 + per - 1) / (per as int);
            lemma_shift_fits(off as int, bits as int);
            assert(li * 8 + 8 <= nlongs * 8);
            assert(base + li * 8 + 8 <= b.len());
        }
        let l = get_be(r.b, base + li * 8, 8);
        let sh: u64 = (off * (bits_u as usize)) as u64;
        let mask: u64 = if bits_u == 4 {
            0xF
        } else if bits_u == 5 {
            0x1F
        } else if bits_u == 6 {
            0x3F
        } else if bits_u == 7 {
            0x7F
        } else {
            0xFF
        };
        let v = (l >> sh) & mask;
        let state = if v < pal.len() as u64 {
            pal[v as usize]
        } else {
            0
        };
        entries.push(state);
        i += 1;
    }
    r.p = base + nlongs * 8;
    proof { assert(entries@ == Seq::new(4096, |j: int| packed_state(b, base as int, pal@, bits_u, j))); }
    Some(entries)
}

/// Skips a paletted biome container; whether it was well formed. A word
/// count whose byte size does not fit in `usize` counts as malformed.
pub fn skip_biome_container(r: &mut R2) -> (ok: bool)
    ensures
        final(r).b@ == old(r).b@,
        (ok, final(r).p as int) == biome_container_scan(old(r).b@, old(r).p as int),
{
    let bits = vi_or_exec(r, -1);
    if bits == 0 {
        let _v = vi_or_exec(r, 0);
        let n = vi_or_exec(r, 0);
        return n == 0;
    }
    if bits < 1 || bits > 8 {
        return false;
    }
    let plen = vi_or_exec(r, 0);
    let _pal = read_varints(r, plen as usize);
    let nl = vi_or_exec(r, 0);
    let nlongs = nl as usize;
    match nlongs.checked_mul(8) {
        Some(n) => r.skip(n).is_some(),
        None => false,
    }
}

/// Reads `n` chunk sections from `p`, each a block count, a block container
/// and a biome container: their block states, or `None` at the first
/// malformed container, and the position reached.
pub open spec fn sections_scan(b: Seq<u8>, p: int, n: nat) -> (Option<Seq<Seq<u32>>>, int)
    decreases n,
{
    if n == 0 {
        (Some(Seq::empty()), p)
    } else {
        let (prev, q) = sections_scan(b, p, (n - 1) as nat);
        match prev {
            None => (None, q),
            Some(s) => {
                let (_count, q1) = be_field(b, q, 2);
                let (st, q2) = block_container_scan(b, q1);
                match st {
                    None => (None, q2),
                    Some(t) => {
                        let (ok, q3) = biome_container_scan(b, q2);
                        if ok {
                            (Some(s.push(t)), q3)
                        } else {
                            (None, q3)
                        }
                    },
                }
            },
        }
    }
}

/// Decodes the section data of a chunk packet: the block states of its 24
/// sections, bottom up, or `None` when a container is malformed.
pub fn decode_chunk(data: &[u8]) -> (r: Option<Vec<Vec<u32>>>)
    ensures
        match sections_scan(data@, 0, 24).0 {
            Some(t) => t.len() == 24 && (r matches Some(v) && v@.len() == 24 && forall|i: int|
                0 <= i < 24 ==> (#[trigger] v@[i])@ == t[i]),
            None => r is None,
        },
{
    let mut r = R2::new(data);
    let mut out: Vec<Vec<u32>> = Vec::new();
    let mut sy: usize = 0;
    while sy < 24
        invariant
            sy <= 24,
            r.b@ == data@,
            ({
                let (s, q) = sections_scan(data@, 0, sy as nat);
                &&& s matches Some(t)
                &&& r.p as int == q
                &&& out@.len() == t.len()
                &&& forall|i: int| 0 <= i < t.len() ==> (#[trigger] out@[i])@ == t[i]
            }),
        decreases 24 - sy,
    {
        let ghost q0 = r.p as int;
        let ghost t0 = sections_scan(data@, 0, sy as nat).0->Some_0;
        let _count = r.i16v();
        let ghost q1 = r.p as int;
        assert(q1 == be_field(data@, q0, 2).1);
        let states = decode_container(&mut r);
        let ghost q2 = r.p as int;
        let st = match states {
            Some(st) => st,
            None => {
                proof {
                    assert(block_container_scan(data@, q1).0 is None);
                    assert(sections_scan(data@, 0, (sy + 1) as nat).0 is None);
                    lemma_sections_stop(data@, (sy + 1) as nat, 24);
                }
                return None;
            },
        };
        assert(block_container_scan(data@, q1).0 == Some(st@));
        if !skip_biome_container(&mut r) {
            proof {
                assert(sections_scan(data@, 0, (sy + 1) as nat).0 is None);
                lemma_sections_stop(data@, (sy + 1) as nat, 24);
            }
            return None;
        }
        assert(sections_scan(data@, 0, (sy + 1) as nat) == (Some(t0.push(st@)), r.p as int));
        out.push(st);
        sy += 1;
    }
    proof { lemma_sections_len(data@, 24); }
    Some(out)
}

proof fn lemma_sections_len(b: Seq<u8>, n: nat)
    ensures
        sections_scan(b, 0, n).0 matches Some(t) ==> t.len() == n,
    decreases n,
{
    if n > 0 {
        lemma_sections_len(b, (n - 1) as nat);
    }
}

proof fn lemma_sections_stop(b: Seq<u8>, k: nat, n: nat)
    requires
        k <= n,
        sections_scan(b, 0, k).0 is None,
    ensures
        sections_scan(b, 0, n).0 is None,
    decreases n - k,
{
    if k < n {
        lemma_sections_stop(b, k + 1, n);
    }
}

/// The fields of a chunk packet that the client reads: the chunk's x and z
/// (0 where they cannot be read), then the section data, which follows the
/// heightmaps (a network compound, when one can be read there) and its
/// VarInt length, cut at the payload's end.
pub open spec fn chunk_packet_spec(b: Seq<u8>) -> (i32, i32, Seq<u8>) {
    let (x, p1) = be_field(b, 0, 4);
    let cx = match x {
        Some(n) => (n as u32) as i32,
        None => 0i32,
    };
    let (z, p2) = be_field(b, p1, 4);
    let cz = match z {
        Some(n) => (n as u32) as i32,
        None => 0i32,
    };
    let rest = b.subrange(p2, b.len() as int);
    let p3 = match parse_network(rest, 0) {
        Some((_v, q)) => p2 + q,
        None => p2,
    };
    let (clen, p4) = vi_or(b, p3, 0);
    let end = if p4 + ((clen as usize) as int) < b.len() {
        p4 + ((clen as usize) as int)
    } else {
        b.len() as int
    };
    (cx, cz, b.subrange(p4, end))
}

/// Splits a chunk packet's payload into the chunk's coordinates and its
/// section data.
pub fn chunk_packet_data(payload: &[u8]) -> (r: (i32, i32, Vec<u8>))
    ensures
        r.0 == chunk_packet_spec(payload@).0,
        r.1 == chunk_packet_spec(payload@).1,
        r.2@ == chunk_packet_spec(payload@).2,
{
    let mut r = R2::new(payload);
    let cx = match r.i32v() {
        Some(v) => v,
        None => 0,
    };
    let cz = match r.i32v() {
        Some(v) => v,
        None => 0,
    };
    let len = payload.len();
    assert(r.p <= len);
    let rest = r.rest();
    let mut nr = NbtRdr::new(rest);
    if nr.read_network().is_some() {
        assert(rest@.len() == payload@.len() - r.p);
        r.p = r.p + nr.pos();
    }
    let clen = vi_or_exec(&mut r, 0) as usize;
    let end = if r.p <= len && clen < len - r.p {
        r.p + clen
    } else {
        len
    };
    let start = if r.p < end { r.p } else { end };
    let mut data: Vec<u8> = Vec::new();
    let mut i = start;
    while i < end
        invariant
            start <= i <= end <= len,
            len == payload@.len(),
            data@ == payload@.subrange(start as int, i as int),
        decreases end - i,
    {
        data.push(payload[i]);
        i += 1;
    }
    (cx, cz, data)
}

/// Entry `i` of a packed container with `bits` bits per entry is the
/// `bits`-bit field of its word: the word's value divided by
/// 2^(offset * bits), modulo 2^bits, names the palette entry (0 past the
/// palette's end). So every palette index below 2^bits can be reached.
pub proof fn packed_entry_is_field(b: Seq<u8>, base: int, pal: Seq<u32>, bits: u64, i: int)
    requires
        4 <= bits <= 8,
        0 <= i,
        0 <= base,
        base + (i / (64int / bits as int)) * 8 + 8 <= b.len(),
    ensures
        ({
            let per = 64int / bits as int;
            let li = i / per;
            let off = i % per;
            let w = be_value(b.subrange(base + li * 8, base + li * 8 + 8));
            let idx = (w / vstd::arithmetic::power2::pow2((off * bits) as nat)) % vstd::arithmetic::power2::pow2(
                bits as nat,
            );
            packed_state(b, base, pal, bits, i) == if idx < pal.len() { pal[idx as int] } else { 0 }
        }),
{
    let per = 64int / bits as int;
    assert(per_long(bits) as int == per);
    assert(per >= 8) by (nonlinear_arith) requires 4 <= bits <= 8, per == 64int / bits as int;
    let li = i / per;
    let off = i % per;
    let ws = b.subrange(base + li * 8, base + li * 8 + 8);
    let w = be_value(ws);
    crate::bytes::lemma_be_value_bound(ws);
    assert(crate::bytes::pow256(8) == 0x1_0000_0000_0000_0000) by {
        reveal_with_fuel(crate::bytes::pow256, 9);
    }
    let l = w as u64;
    lemma_shift_fits(off, bits as int);
    let sh = (off * bits) as u64;
    vstd::bits::lemma_u64_shr_is_div(l, sh);
    let x = l >> sh;
    vstd::arithmetic::power2::lemma2_to64();
    vstd::bits::lemma_u64_low_bits_mask_is_mod(x, bits as nat);
    assert(low_mask(bits) == vstd::bits::low_bits_mask(bits as nat) as u64);
}

} // verus!
