//! Vanilla Minecraft Java protocol primitives (protocol 766): VarInt and
//! VarLong (LEB128), strings, UUIDs and packed block positions.
use vstd::prelude::*;
use vstd::string::StringSliceAdditionalSpecFns;
use crate::bytes::{be_bytes, be_value, get_be, get_le, le_bytes, le_value, lemma_be_value_bound, lemma_le_value_bound, pow256, push_be, push_le};

verus! {

// ---------------------------------------------------------------- VarInt / VarLong

/// LEB128 bytes of a 32-bit word: 7 bits per byte, least significant group
/// first, high bit set on every byte but the last.
pub open spec fn varint_bytes(v: u32) -> Seq<u8>
    decreases v,
{
    if v < 0x80 {
        seq![v as u8]
    } else {
        seq![(v % 0x80 + 0x80) as u8] + varint_bytes(v / 0x80)
    }
}

/// LEB128 bytes of a 64-bit word.
pub open spec fn varlong_bytes(v: u64) -> Seq<u8>
    decreases v,
{
    if v < 0x80 {
        seq![v as u8]
    } else {
        seq![(v % 0x80 + 0x80) as u8] + varlong_bytes(v / 0x80)
    }
}

proof fn lemma_u32_group(v: u32)
    by (bit_vector)
    ensures
        (v & 0xFFFFFF80 == 0) == (v < 0x80),
        v & 0x7F == v % 0x80,
        ((v & 0x7F) | 0x80) == v % 0x80 + 0x80,
        v >> 7 == v / 0x80,
{
}

proof fn lemma_u64_group(v: u64)
    by (bit_vector)
    ensures
        (v & 0xFFFFFFFFFFFFFF80 == 0) == (v < 0x80),
        v & 0x7F == v % 0x80,
        ((v & 0x7F) | 0x80) == v % 0x80 + 0x80,
        v >> 7 == v / 0x80,
{
}

/// Number of bytes of the VarInt encoding of `v`.
pub fn varint_len(v: u32) -> (n: usize)
    ensures
        n == varint_bytes(v).len(),
        1 <= n <= 5,
{
    proof { lemma_varint_bytes_len(v); lemma_u32_group(v); }
    let mut n: usize = 1;
    let mut w: u32 = v >> 7;
    let ghost mut u: u32 = v;
    while w != 0
        invariant
            w == u / 0x80,
            1 <= varint_bytes(u).len(),
            varint_bytes(v).len() == n - 1 + varint_bytes(u).len(),
            varint_bytes(v).len() <= 5,
        decreases w,
    {
        proof {
            lemma_u32_group(w);
            lemma_varint_bytes_len(w);
            u = w;
        }
        n += 1;
        w = w >> 7;
    }
    n
}

/// 128 to the power `k`.
pub open spec fn pow128(k: nat) -> nat
    decreases k,
{
    if k == 0 { 1 } else { 128 * pow128((k - 1) as nat) }
}

proof fn lemma_varint_len_bound(v: u32, k: nat)
    requires
        v < pow128(k),
        k >= 1,
    ensures
        varint_bytes(v).len() <= k,
        1 <= varint_bytes(v).len(),
    decreases k,
{
    if v >= 0x80 {
        assert(k > 1) by { if k == 1 { assert(pow128(1) == 128 * pow128(0)); } }
        let p = pow128((k - 1) as nat);
        assert(pow128(k) == 128 * p);
        assert(v / 0x80 < p) by (nonlinear_arith)
            requires v < 128 * p;
        lemma_varint_len_bound(v / 0x80, (k - 1) as nat);
        assert(varint_bytes(v) == seq![(v % 0x80 + 0x80) as u8] + varint_bytes(v / 0x80));
    }
}

proof fn lemma_varlong_len_bound(v: u64, k: nat)
    requires
        v < pow128(k),
        k >= 1,
    ensures
        varlong_bytes(v).len() <= k,
        1 <= varlong_bytes(v).len(),
    decreases k,
{
    if v >= 0x80 {
        assert(k > 1) by { if k == 1 { assert(pow128(1) == 128 * pow128(0)); } }
        let p = pow128((k - 1) as nat);
        assert(pow128(k) == 128 * p);
        assert(v / 0x80 < p) by (nonlinear_arith)
            requires v < 128 * p;
        lemma_varlong_len_bound(v / 0x80, (k - 1) as nat);
        assert(varlong_bytes(v) == seq![(v % 0x80 + 0x80) as u8] + varlong_bytes(v / 0x80));
    }
}

pub proof fn lemma_varint_bytes_len(v: u32)
    ensures
        1 <= varint_bytes(v).len() <= 5,
        varint_bytes(v).len() == 1 <==> v < 0x80,
{
    reveal_with_fuel(pow128, 6);
    lemma_varint_len_bound(v, 5);
    if v >= 0x80 {
        lemma_varint_len_bound(v / 0x80, 5);
    }
}

proof fn lemma_varlong_bytes_len(v: u64)
    ensures
        1 <= varlong_bytes(v).len() <= 10,
        varlong_bytes(v).len() == 1 <==> v < 0x80,
{
    reveal_with_fuel(pow128, 11);
    lemma_varlong_len_bound(v, 10);
    if v >= 0x80 {
        lemma_varlong_len_bound(v / 0x80, 10);
    }
}

/// Appends the VarInt encoding of `v` (its two's complement bits) to `out`.
pub fn write_varint(out: &mut Vec<u8>, v: i32)
    ensures
        final(out)@ == old(out)@ + varint_bytes(v as u32),
{
    let mut w: u32 = v as u32;
    loop
        invariant
            old(out)@ + varint_bytes(v as u32) == out@ + varint_bytes(w),
        decreases w,
    {
        proof { lemma_u32_group(w); }
        if w & 0xFFFFFF80 == 0 {
            out.push(w as u8);
            return;
        }
        let ghost before = out@;
        out.push(((w & 0x7F) | 0x80) as u8);
        proof {
            assert(before + varint_bytes(w) == out@ + varint_bytes(w / 0x80));
        }
        w = w >> 7;
    }
}

/// Appends the VarLong encoding of `v` (its two's complement bits) to `out`.
pub fn write_varlong(out: &mut Vec<u8>, v: i64)
    ensures
        final(out)@ == old(out)@ + varlong_bytes(v as u64),
{
    let mut w: u64 = v as u64;
    loop
        invariant
            old(out)@ + varlong_bytes(v as u64) == out@ + varlong_bytes(w),
        decreases w,
    {
        proof { lemma_u64_group(w); }
        if w & 0xFFFFFFFFFFFFFF80 == 0 {
            out.push(w as u8);
            return;
        }
        let ghost before = out@;
        out.push(((w & 0x7F) | 0x80) as u8);
        proof {
            assert(before + varlong_bytes(w) == out@ + varlong_bytes(w / 0x80));
        }
        w = w >> 7;
    }
}

/// Reads a VarInt at `p` in `b`, the `i`-th group (of at most 5) next, with the
/// groups read so far OR-ed into `acc`. Gives the value, or `None` when the
/// input ends or the fifth byte still has its continuation bit, and the
/// position after the last byte consumed.
pub open spec fn varint_scan(b: Seq<u8>, p: int, i: nat, acc: u32) -> (Option<u32>, int)
    decreases 5 - i,
{
    if i >= 5 || p < 0 || p >= b.len() {
        (None, p)
    } else {
        let byte = b[p];
        let acc2 = acc | (((byte % 0x80) as u32) << ((7 * i) as u32));
        if byte < 0x80 {
            (Some(acc2), p + 1)
        } else {
            varint_scan(b, p + 1, i + 1, acc2)
        }
    }
}

/// Reads a VarLong: as `varint_scan`, with at most 10 groups into 64 bits.
pub open spec fn varlong_scan(b: Seq<u8>, p: int, i: nat, acc: u64) -> (Option<u64>, int)
    decreases 10 - i,
{
    if i >= 10 || p < 0 || p >= b.len() {
        (None, p)
    } else {
        let byte = b[p];
        let acc2 = acc | (((byte % 0x80) as u64) << ((7 * i) as u64));
        if byte < 0x80 {
            (Some(acc2), p + 1)
        } else {
            varlong_scan(b, p + 1, i + 1, acc2)
        }
    }
}

/// Reads a VarInt at `*p`, advancing `*p` past the bytes consumed (also on failure).
pub fn read_varint(b: &[u8], p: &mut usize) -> (r: Option<i32>)
    ensures
        ({
            let (v, q) = varint_scan(b@, *old(p) as int, 0, 0);
            &&& *final(p) as int == q
            &&& match v {
                Some(u) => r == Some(u as i32),
                None => r is None,
            }
        }),
{
    let mut v: u32 = 0;
    let ghost p0 = *p as int;
    for i in 0u32..5
        invariant
            p0 == *old(p) as int,
            varint_scan(b@, p0, 0, 0) == varint_scan(b@, *p as int, i as nat, v),
    {
        if *p >= b.len() {
            assert(varint_scan(b@, *p as int, i as nat, v) == (None::<u32>, *p as int));
            return None;
        }
        let byte = b[*p];
        let ghost q = *p as int;
        let ghost v0 = v;
        *p += 1;
        proof { lemma_u8_group(byte); }
        v = v | (((byte & 0x7F) as u32) << (7 * i));
        assert(byte == b@[q]);
        assert(v == v0 | (((byte % 0x80) as u32) << ((7 * i) as u32)));
        if byte & 0x80 == 0 {
            assert(varint_scan(b@, q, i as nat, v0) == (Some(v), q + 1));
        }
        if byte & 0x80 == 0 {
            return Some(v as i32);
        }
    }
    None
}

/// Reads a VarLong at `*p`, advancing `*p` past the bytes consumed (also on failure).
pub fn read_varlong(b: &[u8], p: &mut usize) -> (r: Option<i64>)
    ensures
        ({
            let (v, q) = varlong_scan(b@, *old(p) as int, 0, 0);
            &&& *final(p) as int == q
            &&& match v {
                Some(u) => r == Some(u as i64),
                None => r is None,
            }
        }),
{
    let mut v: u64 = 0;
    let ghost p0 = *p as int;
    for i in 0u64..10
        invariant
            p0 == *old(p) as int,
            varlong_scan(b@, p0, 0, 0) == varlong_scan(b@, *p as int, i as nat, v),
    {
        if *p >= b.len() {
            return None;
        }
        let byte = b[*p];
        *p += 1;
        proof { lemma_u8_group(byte); }
        v = v | (((byte & 0x7F) as u64) << (7 * i));
        if byte & 0x80 == 0 {
            return Some(v as i64);
        }
    }
    None
}

proof fn lemma_u8_group(b: u8)
    by (bit_vector)
    ensures
        b & 0x7F == b % 0x80,
        (b & 0x80 == 0) == (b < 0x80),
{
}

/// The low `7 * i` bits of `v`.
pub open spec fn low_groups32(v: u32, i: nat) -> u32 {
    v & (((1u32 << ((7 * i) as u32)) - 1) as u32)
}

/// The low `7 * i` bits of `v`.
pub open spec fn low_groups64(v: u64, i: nat) -> u64 {
    v & (((1u64 << ((7 * i) as u64)) - 1) as u64)
}

proof fn lemma_scan_step32(v: u32, i: u32)
    by (bit_vector)
    requires
        i < 5,
    ensures
        (v & (((1u32 << ((7 * i) as u32)) - 1) as u32)) | (((v >> ((7 * i) as u32)) & 0x7F) << ((7 * i) as u32))
            == (if i < 4 { v & (((1u32 << ((7 * (i + 1)) as u32)) - 1) as u32) } else { v }),
        (v >> ((7 * i) as u32)) < 0x80 ==> (v & (((1u32 << ((7 * i) as u32)) - 1) as u32)) | ((v >> ((7 * i) as u32)) << ((7 * i) as u32)) == v,
        i < 4 ==> (v >> ((7 * i) as u32)) >> 7 == v >> ((7 * (i + 1)) as u32),
        i == 4 ==> (v >> ((7 * i) as u32)) < 0x80,
        i == 0 ==> (v & (((1u32 << ((7 * i) as u32)) - 1) as u32)) == 0,
        i == 0 ==> v >> ((7 * i) as u32) == v,
{
}

proof fn lemma_scan_step64(v: u64, i: u64)
    by (bit_vector)
    requires
        i < 10,
    ensures
        (v & (((1u64 << ((7 * i) as u64)) - 1) as u64)) | (((v >> ((7 * i) as u64)) & 0x7F) << ((7 * i) as u64))
            == (if i < 9 { v & (((1u64 << ((7 * (i + 1)) as u64)) - 1) as u64) } else { v }),
        (v >> ((7 * i) as u64)) < 0x80 ==> (v & (((1u64 << ((7 * i) as u64)) - 1) as u64)) | ((v >> ((7 * i) as u64)) << ((7 * i) as u64)) == v,
        i < 9 ==> (v >> ((7 * i) as u64)) >> 7 == v >> ((7 * (i + 1)) as u64),
        i == 9 ==> (v >> ((7 * i) as u64)) < 0x80,
        i == 0 ==> (v & (((1u64 << ((7 * i) as u64)) - 1) as u64)) == 0,
        i == 0 ==> v >> ((7 * i) as u64) == v,
{
}

proof fn lemma_varint_scan_from(s: Seq<u8>, q: int, i: nat, v: u32)
    requires
        i < 5,
        0 <= q,
        q + varint_bytes(v >> ((7 * i) as u32)).len() <= s.len(),
        s.subrange(q, q + varint_bytes(v >> ((7 * i) as u32)).len()) == varint_bytes(v >> ((7 * i) as u32)),
    ensures
        varint_scan(s, q, i, low_groups32(v, i)) == (Some(v), q + varint_bytes(v >> ((7 * i) as u32)).len()),
    decreases 5 - i,
{
    let w = v >> ((7 * i) as u32);
    let enc = varint_bytes(w);
    lemma_scan_step32(v, i as u32);
    lemma_u32_group(w);
    lemma_varint_bytes_len(w);
    assert(s[q] == enc[0]);
    let byte = s[q];
    assert(byte % 0x80 == w % 0x80);
    if w < 0x80 {
        assert(byte < 0x80);
        assert(((byte % 0x80) as u32) == w);
    } else {
        assert(byte >= 0x80);
        let w2 = v >> ((7 * (i + 1)) as u32);
        assert(w2 == w / 0x80);
        let tail = varint_bytes(w2);
        assert(enc == seq![byte] + tail);
        assert(s.subrange(q + 1, q + 1 + tail.len()) == tail) by {
            assert forall|k: int| 0 <= k < tail.len() implies s.subrange(q + 1, q + 1 + tail.len())[k] == tail[k] by {
                assert(s.subrange(q, q + enc.len())[k + 1] == enc[k + 1]);
            }
        }
        lemma_varint_scan_from(s, q + 1, i + 1, v);
    }
}

proof fn lemma_varlong_scan_from(s: Seq<u8>, q: int, i: nat, v: u64)
    requires
        i < 10,
        0 <= q,
        q + varlong_bytes(v >> ((7 * i) as u64)).len() <= s.len(),
        s.subrange(q, q + varlong_bytes(v >> ((7 * i) as u64)).len()) == varlong_bytes(v >> ((7 * i) as u64)),
    ensures
        varlong_scan(s, q, i, low_groups64(v, i)) == (Some(v), q + varlong_bytes(v >> ((7 * i) as u64)).len()),
    decreases 10 - i,
{
    let w = v >> ((7 * i) as u64);
    let enc = varlong_bytes(w);
    lemma_scan_step64(v, i as u64);
    lemma_u64_group(w);
    lemma_varlong_bytes_len(w);
    assert(s[q] == enc[0]);
    let byte = s[q];
    assert(byte % 0x80 == w % 0x80);
    if w < 0x80 {
        assert(byte < 0x80);
        assert(((byte % 0x80) as u64) == w);
    } else {
        assert(byte >= 0x80);
        let w2 = v >> ((7 * (i + 1)) as u64);
        assert(w2 == w / 0x80);
        let tail = varlong_bytes(w2);
        assert(enc == seq![byte] + tail);
        assert(s.subrange(q + 1, q + 1 + tail.len()) == tail) by {
            assert forall|k: int| 0 <= k < tail.len() implies s.subrange(q + 1, q + 1 + tail.len())[k] == tail[k] by {
                assert(s.subrange(q, q + enc.len())[k + 1] == enc[k + 1]);
            }
        }
        lemma_varlong_scan_from(s, q + 1, i + 1, v);
    }
}

/// Reading a VarInt where one was written gives the value back and stops
/// right after its bytes, whatever precedes or follows it.
pub proof fn varint_roundtrip(pre: Seq<u8>, v: i32, rest: Seq<u8>)
    ensures
        varint_scan(pre + varint_bytes(v as u32) + rest, pre.len() as int, 0, 0)
            == (Some(v as u32), (pre.len() + varint_bytes(v as u32).len()) as int),
        (v as u32) as i32 == v,
{
    let u = v as u32;
    let s = pre + varint_bytes(u) + rest;
    lemma_scan_step32(u, 0);
    assert(s.subrange(pre.len() as int, (pre.len() + varint_bytes(u).len()) as int) == varint_bytes(u));
    lemma_varint_scan_from(s, pre.len() as int, 0nat, u);
    lemma_cast32(v);
}

/// Reading a VarLong where one was written gives the value back and stops
/// right after its bytes, whatever precedes or follows it.
pub proof fn varlong_roundtrip(pre: Seq<u8>, v: i64, rest: Seq<u8>)
    ensures
        varlong_scan(pre + varlong_bytes(v as u64) + rest, pre.len() as int, 0, 0)
            == (Some(v as u64), (pre.len() + varlong_bytes(v as u64).len()) as int),
        (v as u64) as i64 == v,
{
    let u = v as u64;
    let s = pre + varlong_bytes(u) + rest;
    lemma_scan_step64(u, 0);
    assert(s.subrange(pre.len() as int, (pre.len() + varlong_bytes(u).len()) as int) == varlong_bytes(u));
    lemma_varlong_scan_from(s, pre.len() as int, 0nat, u);
    lemma_cast64(v);
}

pub proof fn lemma_cast32(v: i32)
    by (bit_vector)
    ensures
        (v as u32) as i32 == v,
{
}

pub proof fn lemma_cast64(v: i64)
    by (bit_vector)
    ensures
        (v as u64) as i64 == v,
{
}

// ---------------------------------------------------------------- primitives

/// Appends all of `b` to `out`.
pub fn push_bytes(out: &mut Vec<u8>, b: &[u8])
    ensures
        final(out)@ == old(out)@ + b@,
{
    out.extend_from_slice(b);
    proof {
        assert forall|k: int| 0 <= k < b@.len() implies #[trigger] out@[old(out)@.len() + k] == b@[k] by {
            assert(cloned::<u8>(b@[k], out@[old(out)@.len() + k]));
        }
        assert(out@ =~= old(out)@ + b@);
    }
}

/// What `String::from_utf8_lossy` makes of `b`.
pub uninterp spec fn utf8_lossy(b: Seq<u8>) -> Seq<char>;

/// Calls `String::from_utf8_lossy`: valid UTF-8 is decoded as it is; invalid
/// sequences become U+FFFD, which no clause here states beyond the name.
#[verifier::external_body]
pub(crate) fn from_utf8_lossy(b: &[u8]) -> (s: String)
    ensures
        vstd::utf8::valid_utf8(b@) ==> s@ == vstd::utf8::decode_utf8(b@),
        !vstd::utf8::valid_utf8(b@) ==> s@ == utf8_lossy(b@),
{
    String::from_utf8_lossy(b).into_owned()
}

/// The text `String::from_utf8_lossy` gives for `b`: its decoding when it is
/// valid UTF-8.
pub open spec fn lossy_text(b: Seq<u8>) -> Seq<char> {
    if vstd::utf8::valid_utf8(b) {
        vstd::utf8::decode_utf8(b)
    } else {
        utf8_lossy(b)
    }
}

/// The bytes of a protocol string: VarInt byte length, then UTF-8.
pub open spec fn string_bytes(s: Seq<char>) -> Seq<u8> {
    let b = vstd::utf8::encode_utf8(s);
    varint_bytes(((b.len() as i32) as u32)) + b
}

/// Appends `s` as a protocol string (VarInt byte length + UTF-8).
pub fn write_string(out: &mut Vec<u8>, s: &str)
    ensures
        final(out)@ == old(out)@ + string_bytes(s@),
{
    let b = s.as_bytes();
    write_varint(out, b.len() as i32);
    push_bytes(out, b);
    proof {
        assert(final(out)@ =~= old(out)@ + string_bytes(s@));
    }
}

/// Reads a protocol string of at most `max` bytes at `*p`: `None` when the
/// length does not read, is negative as an `i32` (then huge as a `usize`),
/// is over `max`, or runs past the end. On success `*p` moves past it.
pub open spec fn string_scan(b: Seq<u8>, p: int, max: usize) -> (Option<Seq<char>>, int) {
    let (n, q) = varint_scan(b, p, 0, 0);
    match n {
        None => (None, q),
        Some(u) => {
            let len = ((u as i32) as usize) as int;
            if len > max || q + len > b.len() {
                (None, q)
            } else {
                (Some(lossy_text(b.subrange(q, q + len))), q + len)
            }
        },
    }
}

/// Reads a protocol string of at most `max` bytes at `*p`.
pub fn read_string(b: &[u8], p: &mut usize, max: usize) -> (r: Option<String>)
    ensures
        ({
            let (v, q) = string_scan(b@, *old(p) as int, max);
            &&& *final(p) as int == q
            &&& match v {
                Some(t) => r matches Some(rs) && rs@ == t,
                None => r is None,
            }
        }),
{
    let n = match read_varint(b, p) {
        Some(v) => v as usize,
        None => return None,
    };
    if n > max || *p > b.len() || n > b.len() - *p {
        return None;
    }
    let s = from_utf8_lossy(&b[*p..*p + n]);
    *p += n;
    Some(s)
}

/// Reading a string where one was written gives it back and stops right
/// after its bytes, when its UTF-8 fits in `max` bytes and in an `i32`.
pub proof fn string_roundtrip(pre: Seq<u8>, s: Seq<char>, rest: Seq<u8>, max: usize)
    requires
        vstd::utf8::encode_utf8(s).len() <= max,
        vstd::utf8::encode_utf8(s).len() <= i32::MAX,
    ensures
        string_scan(pre + string_bytes(s) + rest, pre.len() as int, max)
            == (Some(s), (pre.len() + string_bytes(s).len()) as int),
{
    let b = vstd::utf8::encode_utf8(s);
    let n = b.len();
    let vb = varint_bytes((n as i32) as u32);
    let all = pre + string_bytes(s) + rest;
    assert(all == pre + vb + (b + rest));
    varint_roundtrip(pre, n as i32, b + rest);
    let q = pre.len() + vb.len();
    assert(((((n as i32) as u32) as i32) as usize) == n);
    assert(all.subrange(q as int, (q + n) as int) =~= b);
    vstd::utf8::encode_utf8_valid_utf8(s);
    vstd::utf8::encode_utf8_decode_utf8(s);
}

/// Appends the 16 bytes of a UUID.
pub fn write_uuid(out: &mut Vec<u8>, u: [u8; 16])
    ensures
        final(out)@ == old(out)@ + u@,
{
    push_bytes(out, u.as_slice());
}

/// Reads 16 bytes at `*p` as a UUID; `None`, with `*p` unchanged, when fewer remain.
pub fn read_uuid(b: &[u8], p: &mut usize) -> (r: Option<[u8; 16]>)
    ensures
        *old(p) + 16 <= b@.len() ==> (r matches Some(u) && u@ == b@.subrange(*old(p) as int, *old(p) + 16)
            && *final(p) == *old(p) + 16),
        *old(p) + 16 > b@.len() ==> r is None && *final(p) == *old(p),
{
    if *p > b.len() || b.len() - *p < 16 {
        return None;
    }
    let mut u = [0u8; 16];
    for i in 0usize..16
        invariant
            *p + 16 <= b.len(),
            forall|k: int| 0 <= k < i ==> u@[k] == b@[*p + k],
    {
        u[i] = b[*p + i];
    }
    proof {
        assert(u@ =~= b@.subrange(*p as int, *p + 16));
    }
    *p += 16;
    Some(u)
}

/// Packed block position: x in the top 26 bits, z in the next 26, y in the
/// low 12 (each taken modulo its width).
pub open spec fn position_word(x: i32, y: i32, z: i32) -> i64 {
    (((x as i64) & 0x3FF_FFFF) << 38) | (((z as i64) & 0x3FF_FFFF) << 12) | ((y as i64) & 0xFFF)
}

/// Packs a block position as x:26 | z:26 | y:12.
pub fn pack_position(x: i32, y: i32, z: i32) -> (r: i64)
    ensures
        r == position_word(x, y, z),
{
    ((x as i64 & 0x3FF_FFFF) << 38) | ((z as i64 & 0x3FF_FFFF) << 12) | (y as i64 & 0xFFF)
}

/// A block position.
pub struct BlockPos {
    pub x: i32,
    pub y: i32,
    pub z: i32,
}

/// Unpacks x:26 | z:26 | y:12, each field sign-extended.
pub fn unpack_position(v: i64) -> (r: BlockPos)
    ensures
        r.x == (v >> 38) as i32,
        r.z == ((v << 26) >> 38) as i32,
        r.y == ((v << 52) >> 52) as i32,
{
    let x = (v >> 38) as i32;
    let z = ((v << 26) >> 38) as i32;
    let y = ((v << 52) >> 52) as i32;
    BlockPos { x, y, z }
}

/// Unpacking a packed position gives it back when x and z fit in 26 signed
/// bits and y in 12.
pub proof fn position_roundtrip(x: i32, y: i32, z: i32)
    requires
        -0x200_0000 <= x < 0x200_0000,
        -0x800 <= y < 0x800,
        -0x200_0000 <= z < 0x200_0000,
    ensures
        (position_word(x, y, z) >> 38) as i32 == x,
        ((position_word(x, y, z) << 26) >> 38) as i32 == z,
        ((position_word(x, y, z) << 52) >> 52) as i32 == y,
{
    lemma_position_bits(x, y, z);
}

/// A position written with `W2::pos` reads back with `R2::pos` as itself,
/// in eight bytes, whatever precedes or follows it, when x and z fit in 26
/// signed bits and y in 12.
pub proof fn position_field_roundtrip(pre: Seq<u8>, x: i32, y: i32, z: i32, rest: Seq<u8>)
    requires
        -0x200_0000 <= x < 0x200_0000,
        -0x800 <= y < 0x800,
        -0x200_0000 <= z < 0x200_0000,
    ensures
        ({
            let b = pre + be_bytes((position_word(x, y, z) as u64) as nat, 8) + rest;
            let (v, q) = be_field(b, pre.len() as int, 8);
            &&& q == pre.len() + 8
            &&& v is Some
            &&& ((v.unwrap() as u64) as i64 >> 38) as i32 == x
            &&& ((((v.unwrap() as u64) as i64) << 52) >> 52) as i32 == y
            &&& ((((v.unwrap() as u64) as i64) << 26) >> 38) as i32 == z
        }),
{
    let w = position_word(x, y, z);
    let u = w as u64;
    let bb = be_bytes(u as nat, 8);
    let b = pre + bb + rest;
    crate::bytes::lemma_be_roundtrip(u as nat, 8);
    assert(pow256(8) == 0x1_0000_0000_0000_0000) by {
        reveal_with_fuel(pow256, 9);
    }
    assert(b.subrange(pre.len() as int, pre.len() as int + 8) =~= bb);
    assert(be_value(bb) == u as nat);
    lemma_cast64(w);
    position_roundtrip(x, y, z);
}

proof fn lemma_position_bits(x: i32, y: i32, z: i32)
    by (bit_vector)
    requires
        -0x200_0000 <= x < 0x200_0000,
        -0x800 <= y < 0x800,
        -0x200_0000 <= z < 0x200_0000,
    ensures
        ((((((x as i64) & 0x3FF_FFFF) << 38) | (((z as i64) & 0x3FF_FFFF) << 12) | ((y as i64) & 0xFFF)) >> 38) as i32) == x,
        (((((((x as i64) & 0x3FF_FFFF) << 38) | (((z as i64) & 0x3FF_FFFF) << 12) | ((y as i64) & 0xFFF)) << 26) >> 38) as i32) == z,
        (((((((x as i64) & 0x3FF_FFFF) << 38) | (((z as i64) & 0x3FF_FFFF) << 12) | ((y as i64) & 0xFFF)) << 52) >> 52) as i32) == y,
{
}

// ---------------------------------------------------------------- payload builder

/// Clientbound payload builder (big-endian, as vanilla).
pub struct W2 {
    pub v: Vec<u8>,
}

impl W2 {
    pub fn new() -> (r: W2)
        ensures
            r.v@ == Seq::<u8>::empty(),
    {
        W2 { v: Vec::new() }
    }

    /// Appends a VarInt.
    pub fn vi(self, v: i32) -> (r: W2)
        ensures
            r.v@ == self.v@ + varint_bytes(v as u32),
    {
        let mut s = self;
        write_varint(&mut s.v, v);
        s
    }

    /// Appends a VarLong.
    pub fn vl(self, v: i64) -> (r: W2)
        ensures
            r.v@ == self.v@ + varlong_bytes(v as u64),
    {
        let mut s = self;
        write_varlong(&mut s.v, v);
        s
    }

    pub fn u8v(self, v: u8) -> (r: W2)
        ensures
            r.v@ == self.v@.push(v),
    {
        let mut s = self;
        s.v.push(v);
        s
    }

    pub fn i8v(self, v: i8) -> (r: W2)
        ensures
            r.v@ == self.v@.push(v as u8),
    {
        let mut s = self;
        s.v.push(v as u8);
        s
    }

    /// Appends a boolean as one byte, 1 or 0.
    pub fn b(self, v: bool) -> (r: W2)
        ensures
            r.v@ == self.v@.push(if v { 1u8 } else { 0u8 }),
    {
        let mut s = self;
        s.v.push(if v { 1 } else { 0 });
        s
    }

    pub fn i16v(self, v: i16) -> (r: W2)
        ensures
            r.v@ == self.v@ + be_bytes((v as u16) as nat, 2),
    {
        let mut s = self;
        push_be(&mut s.v, (v as u16) as u64, 2);
        s
    }

    pub fn u16v(self, v: u16) -> (r: W2)
        ensures
            r.v@ == self.v@ + be_bytes(v as nat, 2),
    {
        let mut s = self;
        push_be(&mut s.v, v as u64, 2);
        s
    }

    pub fn i32v(self, v: i32) -> (r: W2)
        ensures
            r.v@ == self.v@ + be_bytes((v as u32) as nat, 4),
    {
        let mut s = self;
        push_be(&mut s.v, (v as u32) as u64, 4);
        s
    }

    pub fn i64v(self, v: i64) -> (r: W2)
        ensures
            r.v@ == self.v@ + be_bytes((v as u64) as nat, 8),
    {
        let mut s = self;
        push_be(&mut s.v, v as u64, 8);
        s
    }

    /// Appends an f32 given by its IEEE 754 bits.
    pub fn f32_bits(self, bits: u32) -> (r: W2)
        ensures
            r.v@ == self.v@ + be_bytes(bits as nat, 4),
    {
        let mut s = self;
        push_be(&mut s.v, bits as u64, 4);
        s
    }

    /// Appends an f64 given by its IEEE 754 bits.
    pub fn f64_bits(self, bits: u64) -> (r: W2)
        ensures
            r.v@ == self.v@ + be_bytes(bits as nat, 8),
    {
        let mut s = self;
        push_be(&mut s.v, bits, 8);
        s
    }

    /// Appends a protocol string.
    pub fn s(self, t: &str) -> (r: W2)
        ensures
            r.v@ == self.v@ + string_bytes(t@),
    {
        let mut s = self;
        write_string(&mut s.v, t);
        s
    }

    pub fn uuid(self, u: &[u8; 16]) -> (r: W2)
        ensures
            r.v@ == self.v@ + u@,
    {
        let mut s = self;
        write_uuid(&mut s.v, *u);
        s
    }

    /// Appends a packed block position.
    pub fn pos(self, x: i32, y: i32, z: i32) -> (r: W2)
        ensures
            r.v@ == self.v@ + be_bytes((position_word(x, y, z) as u64) as nat, 8),
    {
        self.i64v(pack_position(x, y, z))
    }

    pub fn bytes(self, b: &[u8]) -> (r: W2)
        ensures
            r.v@ == self.v@ + b@,
    {
        let mut s = self;
        push_bytes(&mut s.v, b);
        s
    }

    /// Appends network NBT.
    pub fn nbt(self, n: &crate::nbt::Nbt) -> (r: W2)
        ensures
            r.v@ == self.v@ + seq![crate::nbt::TAG_COMPOUND] + crate::nbt::payload_bytes(crate::nbt::nbt_view(*n)),
    {
        let mut s = self;
        n.write_network(&mut s.v);
        s
    }

    pub fn done(self) -> (r: Vec<u8>)
        ensures
            r@ == self.v@,
    {
        self.v
    }
}

// ---------------------------------------------------------------- payload reader

/// Big-endian field of `k` bytes at `p`: its value and the position after it,
/// or `None` and `p` unchanged when fewer than `k` bytes remain.
pub open spec fn be_field(b: Seq<u8>, p: int, k: nat) -> (Option<nat>, int) {
    if 0 <= p && p + k <= b.len() {
        (Some(be_value(b.subrange(p, p + k))), p + k)
    } else {
        (None, p)
    }
}

/// Serverbound payload reader.
pub struct R2<'a> {
    pub b: &'a [u8],
    pub p: usize,
}

impl<'a> R2<'a> {
    pub fn new(b: &'a [u8]) -> (r: R2<'a>)
        ensures
            r.b@ == b@,
            r.p == 0,
    {
        R2 { b, p: 0 }
    }

    fn be(&mut self, k: usize) -> (r: Option<u64>)
        requires
            k <= 8,
        ensures
            final(self).b@ == old(self).b@,
            ({
                let (v, q) = be_field(old(self).b@, old(self).p as int, k as nat);
                &&& final(self).p as int == q
                &&& match v {
                    Some(n) => r == Some(n as u64) && n < pow256(k as nat),
                    None => r is None,
                }
            }),
    {
        if self.p > self.b.len() || self.b.len() - self.p < k {
            return None;
        }
        let v = get_be(self.b, self.p, k);
        proof { lemma_be_value_bound(self.b@.subrange(self.p as int, self.p + k)); }
        self.p += k;
        Some(v)
    }

    /// Reads a VarInt.
    pub fn vi(&mut self) -> (r: Option<i32>)
        ensures
            final(self).b@ == old(self).b@,
            ({
                let (v, q) = varint_scan(old(self).b@, old(self).p as int, 0, 0);
                &&& final(self).p as int == q
                &&& match v {
                    Some(u) => r == Some(u as i32),
                    None => r is None,
                }
            }),
    {
        read_varint(self.b, &mut self.p)
    }

    pub fn u8v(&mut self) -> (r: Option<u8>)
        ensures
            final(self).b@ == old(self).b@,
            old(self).p < old(self).b@.len() ==> r == Some(old(self).b@[old(self).p as int])
                && final(self).p == old(self).p + 1,
            old(self).p >= old(self).b@.len() ==> r is None && final(self).p == old(self).p,
    {
        if self.p >= self.b.len() {
            return None;
        }
        let v = self.b[self.p];
        self.p += 1;
        Some(v)
    }

    pub fn i8v(&mut self) -> (r: Option<i8>)
        ensures
            final(self).b@ == old(self).b@,
            old(self).p < old(self).b@.len() ==> r == Some(old(self).b@[old(self).p as int] as i8)
                && final(self).p == old(self).p + 1,
            old(self).p >= old(self).b@.len() ==> r is None && final(self).p == old(self).p,
    {
        match self.u8v() {
            Some(v) => Some(v as i8),
            None => None,
        }
    }

    /// Reads a boolean: any non-zero byte is true.
    pub fn b(&mut self) -> (r: Option<bool>)
        ensures
            final(self).b@ == old(self).b@,
            old(self).p < old(self).b@.len() ==> r == Some(old(self).b@[old(self).p as int] != 0)
                && final(self).p == old(self).p + 1,
            old(self).p >= old(self).b@.len() ==> r is None && final(self).p == old(self).p,
    {
        match self.u8v() {
            Some(v) => Some(v != 0),
            None => None,
        }
    }

    pub fn i16v(&mut self) -> (r: Option<i16>)
        ensures
            final(self).b@ == old(self).b@,
            ({
                let (v, q) = be_field(old(self).b@, old(self).p as int, 2);
                &&& final(self).p as int == q
                &&& match v {
                    Some(n) => r == Some((n as u16) as i16),
                    None => r is None,
                }
            }),
    {
        proof { reveal_with_fuel(pow256, 5); }
        match self.be(2) {
            Some(v) => Some((v as u16) as i16),
            None => None,
        }
    }

    pub fn u16v(&mut self) -> (r: Option<u16>)
        ensures
            final(self).b@ == old(self).b@,
            ({
                let (v, q) = be_field(old(self).b@, old(self).p as int, 2);
                &&& final(self).p as int == q
                &&& match v {
                    Some(n) => r == Some(n as u16),
                    None => r is None,
                }
            }),
    {
        proof { reveal_with_fuel(pow256, 5); }
        match self.be(2) {
            Some(v) => Some(v as u16),
            None => None,
        }
    }

    pub fn i32v(&mut self) -> (r: Option<i32>)
        ensures
            final(self).b@ == old(self).b@,
            ({
                let (v, q) = be_field(old(self).b@, old(self).p as int, 4);
                &&& final(self).p as int == q
                &&& match v {
                    Some(n) => r == Some((n as u32) as i32),
                    None => r is None,
                }
            }),
    {
        proof { reveal_with_fuel(pow256, 5); }
        match self.be(4) {
            Some(v) => Some((v as u32) as i32),
            None => None,
        }
    }

    pub fn i64v(&mut self) -> (r: Option<i64>)
        ensures
            final(self).b@ == old(self).b@,
            ({
                let (v, q) = be_field(old(self).b@, old(self).p as int, 8);
                &&& final(self).p as int == q
                &&& match v {
                    Some(n) => r == Some((n as u64) as i64),
                    None => r is None,
                }
            }),
    {
        match self.be(8) {
            Some(v) => Some(v as i64),
            None => None,
        }
    }

    /// Reads a protocol string of at most `max` bytes.
    pub fn s(&mut self, max: usize) -> (r: Option<String>)
        ensures
            final(self).b@ == old(self).b@,
            ({
                let (v, q) = string_scan(old(self).b@, old(self).p as int, max);
                &&& final(self).p as int == q
                &&& match v {
                    Some(t) => r matches Some(rs) && rs@ == t,
                    None => r is None,
                }
            }),
    {
        read_string(self.b, &mut self.p, max)
    }

    pub fn uuid(&mut self) -> (r: Option<[u8; 16]>)
        ensures
            final(self).b@ == old(self).b@,
            old(self).p + 16 <= old(self).b@.len() ==> (r matches Some(u) && u@
                == old(self).b@.subrange(old(self).p as int, old(self).p + 16) && final(self).p
                == old(self).p + 16),
            old(self).p + 16 > old(self).b@.len() ==> r is None && final(self).p == old(self).p,
    {
        read_uuid(self.b, &mut self.p)
    }

    /// Reads an f64 as its IEEE 754 bits.
    pub fn f64_bits(&mut self) -> (r: Option<u64>)
        ensures
            final(self).b@ == old(self).b@,
            ({
                let (v, q) = be_field(old(self).b@, old(self).p as int, 8);
                &&& final(self).p as int == q
                &&& match v {
                    Some(n) => r == Some(n as u64),
                    None => r is None,
                }
            }),
    {
        self.be(8)
    }

    /// Reads an f32 as its IEEE 754 bits.
    pub fn f32_bits(&mut self) -> (r: Option<u32>)
        ensures
            final(self).b@ == old(self).b@,
            ({
                let (v, q) = be_field(old(self).b@, old(self).p as int, 4);
                &&& final(self).p as int == q
                &&& match v {
                    Some(n) => r == Some(n as u32),
                    None => r is None,
                }
            }),
    {
        proof { reveal_with_fuel(pow256, 5); }
        match self.be(4) {
            Some(v) => Some(v as u32),
            None => None,
        }
    }

    /// Reads a packed block position as (x, y, z).
    pub fn pos(&mut self) -> (r: Option<(i32, i32, i32)>)
        ensures
            final(self).b@ == old(self).b@,
            ({
                let (v, q) = be_field(old(self).b@, old(self).p as int, 8);
                &&& final(self).p as int == q
                &&& match v {
                    Some(n) => {
                        let w = (n as u64) as i64;
                        r == Some(((w >> 38) as i32, ((w << 52) >> 52) as i32, ((w << 26) >> 38) as i32))
                    },
                    None => r is None,
                }
            }),
    {
        let v = match self.i64v() {
            Some(v) => v,
            None => return None,
        };
        let bp = unpack_position(v);
        Some((bp.x, bp.y, bp.z))
    }

    /// Skips `n` bytes; `None`, with the position unchanged, when fewer remain.
    pub fn skip(&mut self, n: usize) -> (r: Option<()>)
        ensures
            final(self).b@ == old(self).b@,
            old(self).p + n <= old(self).b@.len() ==> r is Some && final(self).p == old(self).p + n,
            old(self).p + n > old(self).b@.len() ==> r is None && final(self).p == old(self).p,
    {
        if self.p > self.b.len() || n > self.b.len() - self.p {
            return None;
        }
        self.p += n;
        Some(())
    }

    /// The bytes not read yet (none when the position is past the end).
    pub fn rest(&self) -> (r: &'a [u8])
        ensures
            self.p <= self.b@.len() ==> r@ == self.b@.subrange(self.p as int, self.b@.len() as int),
            self.p > self.b@.len() ==> r@ == Seq::<u8>::empty(),
    {
        let start = if self.p < self.b.len() { self.p } else { self.b.len() };
        &self.b[start..self.b.len()]
    }
}

// ---------------------------------------------------------------- MD5 (offline UUIDs)

/// Per-round left rotations of MD5 (RFC 1321).
pub const MD5_S: [u32; 64] = [
    7, 12, 17, 22, 7, 12, 17, 22, 7, 12, 17, 22, 7, 12, 17, 22, 5, 9, 14, 20, 5, 9, 14, 20, 5,
    9, 14, 20, 5, 9, 14, 20, 4, 11, 16, 23, 4, 11, 16, 23, 4, 11, 16, 23, 4, 11, 16, 23, 6,
    10, 15, 21, 6, 10, 15, 21, 6, 10, 15, 21, 6, 10, 15, 21,
];

/// Per-round additive constants of MD5 (RFC 1321).
pub const MD5_K: [u32; 64] = [
    0xd76aa478, 0xe8c7b756, 0x242070db, 0xc1bdceee, 0xf57c0faf, 0x4787c62a, 0xa8304613, 0xfd469501,
    0x698098d8, 0x8b44f7af, 0xffff5bb1, 0x895cd7be, 0x6b901122, 0xfd987193, 0xa679438e, 0x49b40821,
    0xf61e2562, 0xc040b340, 0x265e5a51, 0xe9b6c7aa, 0xd62f105d, 0x02441453, 0xd8a1e681, 0xe7d3fbc8,
    0x21e1cde6, 0xc33707d6, 0xf4d50d87, 0x455a14ed, 0xa9e3e905, 0xfcefa3f8, 0x676f02d9, 0x8d2a4c8a,
    0xfffa3942, 0x8771f681, 0x6d9d6122, 0xfde5380c, 0xa4beea44, 0x4bdecfa9, 0xf6bb4b60, 0xbebfbc70,
    0x289b7ec6, 0xeaa127fa, 0xd4ef3085, 0x04881d05, 0xd9d4d039, 0xe6db99e5, 0x1fa27cf8, 0xc4ac5665,
    0xf4292244, 0x432aff97, 0xab9423a7, 0xfc93a039, 0x655b59c3, 0x8f0ccc92, 0xffeff47d, 0x85845dd1,
    0x6fa87e4f, 0xfe2ce6e0, 0xa3014314, 0x4e0811a1, 0xf7537e82, 0xbd3af235, 0x2ad7d2bb, 0xeb86d391,
];

pub open spec fn wadd(x: u32, y: u32) -> u32 {
    vstd::wrapping::u32_specs::wrapping_add(x, y)
}

/// `x` rotated left by `s` bits.
pub open spec fn rotl(x: u32, s: u32) -> u32 {
    if s == 0 || s >= 32 { x } else { (x << s) | (x >> ((32 - s) as u32)) }
}

fn rotate_left(x: u32, s: u32) -> (r: u32)
    requires
        0 < s < 32,
    ensures
        r == rotl(x, s),
{
    (x << s) | (x >> (32 - s))
}

/// The round function of MD5 round `i`.
pub open spec fn md5_f(i: int, b: u32, c: u32, d: u32) -> u32 {
    if i < 16 {
        (b & c) | (!b & d)
    } else if i < 32 {
        (d & b) | (!d & c)
    } else if i < 48 {
        b ^ c ^ d
    } else {
        c ^ (b | !d)
    }
}

/// The message word used by MD5 round `i`.
pub open spec fn md5_g(i: int) -> int {
    if i < 16 {
        i
    } else if i < 32 {
        (5 * i + 1) % 16
    } else if i < 48 {
        (3 * i + 5) % 16
    } else {
        (7 * i) % 16
    }
}

/// MD5 state (a, b, c, d) after rounds `i..64` on the 16 words `m`.
pub open spec fn md5_rounds(st: (u32, u32, u32, u32), m: Seq<u32>, i: nat) -> (u32, u32, u32, u32)
    decreases 64 - i,
{
    if i >= 64 {
        st
    } else {
        let (a, b, c, d) = st;
        let f2 = wadd(wadd(wadd(md5_f(i as int, b, c, d), a), MD5_K@[i as int]), m[md5_g(i as int)]);
        md5_rounds((d, wadd(b, rotl(f2, MD5_S@[i as int])), b, c), m, i + 1)
    }
}

/// The sixteen little-endian words of a 64-byte block.
pub open spec fn md5_words(block: Seq<u8>) -> Seq<u32> {
    Seq::new(16, |i: int| le_value(block.subrange(4 * i, 4 * i + 4)) as u32)
}

/// MD5 state after one 64-byte block.
pub open spec fn md5_block(st: (u32, u32, u32, u32), block: Seq<u8>) -> (u32, u32, u32, u32) {
    let (a, b, c, d) = md5_rounds(st, md5_words(block), 0);
    (wadd(st.0, a), wadd(st.1, b), wadd(st.2, c), wadd(st.3, d))
}

/// MD5 state after the first `n` 64-byte blocks of `data`.
pub open spec fn md5_blocks(data: Seq<u8>, n: nat) -> (u32, u32, u32, u32)
    decreases n,
{
    if n == 0 {
        (0x67452301, 0xEFCDAB89, 0x98BADCFE, 0x10325476)
    } else {
        md5_block(md5_blocks(data, (n - 1) as nat), data.subrange(64 * (n - 1), (64 * n) as int))
    }
}

/// Number of zero bytes MD5 pads with after the 0x80 byte.
pub open spec fn md5_zeros(len: nat) -> nat {
    ((55 - (len % 64) as int + 64) % 64) as nat
}

/// MD5 message padding: 0x80, zeros to 56 mod 64, the bit length (64-bit LE).
pub open spec fn md5_padded(msg: Seq<u8>) -> Seq<u8> {
    msg + seq![0x80u8] + Seq::new(md5_zeros(msg.len()), |i: int| 0u8) + le_bytes(msg.len() * 8, 8)
}

/// MD5 digest (RFC 1321) of `msg`.
pub open spec fn md5_digest(msg: Seq<u8>) -> Seq<u8> {
    let p = md5_padded(msg);
    let (a, b, c, d) = md5_blocks(p, p.len() / 64);
    le_bytes(a as nat, 4) + le_bytes(b as nat, 4) + le_bytes(c as nat, 4) + le_bytes(d as nat, 4)
}

fn md5_block_exec(data: &Vec<u8>, off: usize, st: (u32, u32, u32, u32)) -> (r: (u32, u32, u32, u32))
    requires
        off + 64 <= data.len(),
    ensures
        r == md5_block(st, data@.subrange(off as int, off + 64)),
{
    let ghost block = data@.subrange(off as int, off + 64);
    let mut m: Vec<u32> = Vec::new();
    for i in 0usize..16
        invariant
            off + 64 <= data.len(),
            block == data@.subrange(off as int, off + 64),
            m@.len() == i,
            forall|k: int| 0 <= k < i ==> m@[k] == md5_words(block)[k],
    {
        let w = get_le(data.as_slice(), off + i * 4, 4);
        proof {
            assert(data@.subrange(off + i * 4, off + i * 4 + 4) =~= block.subrange(4 * i, 4 * i + 4));
        }
        m.push(w as u32);
    }
    proof { assert(m@ =~= md5_words(block)); }
    let (mut a, mut b, mut c, mut d) = st;
    for i in 0usize..64
        invariant
            m@ == md5_words(block),
            md5_rounds(st, m@, 0) == md5_rounds((a, b, c, d), m@, i as nat),
    {
        let f = if i < 16 {
            (b & c) | (!b & d)
        } else if i < 32 {
            (d & b) | (!d & c)
        } else if i < 48 {
            b ^ c ^ d
        } else {
            c ^ (b | !d)
        };
        let g = if i < 16 {
            i
        } else if i < 32 {
            (5 * i + 1) % 16
        } else if i < 48 {
            (3 * i + 5) % 16
        } else {
            (7 * i) % 16
        };
        let f2 = f.wrapping_add(a).wrapping_add(MD5_K[i]).wrapping_add(m[g]);
        a = d;
        d = c;
        c = b;
        b = b.wrapping_add(rotate_left(f2, MD5_S[i]));
    }
    (st.0.wrapping_add(a), st.1.wrapping_add(b), st.2.wrapping_add(c), st.3.wrapping_add(d))
}

/// MD5 (RFC 1321), used for offline UUIDs.
pub fn md5(msg: &[u8]) -> (r: [u8; 16])
    requires
        msg@.len() < 0x2000_0000_0000_0000,
    ensures
        r@ == md5_digest(msg@),
{
    let mut data: Vec<u8> = Vec::new();
    push_bytes(&mut data, msg);
    assert(msg.len() < 0x2000_0000_0000_0000);
    let bitlen = (msg.len() as u64) * 8;
    data.push(0x80);
    let ghost z = md5_zeros(msg@.len());
    let mut k: usize = 0;
    while data.len() % 64 != 56
        invariant
            data@ == msg@ + seq![0x80u8] + Seq::new(k as nat, |i: int| 0u8),
            k <= z,
            z == md5_zeros(msg@.len()),
            msg@.len() < 0x2000_0000_0000_0000,
        decreases z - k,
    {
        data.push(0);
        k += 1;
        proof {
            assert(data@ =~= msg@ + seq![0x80u8] + Seq::new(k as nat, |i: int| 0u8));
        }
    }
    push_le(&mut data, bitlen, 8);
    proof {
        assert(k == z);
        assert(data@ =~= md5_padded(msg@));
    }
    let nblocks = data.len() / 64;
    let mut st: (u32, u32, u32, u32) = (0x67452301, 0xEFCDAB89, 0x98BADCFE, 0x10325476);
    for n in 0usize..nblocks
        invariant
            data@ == md5_padded(msg@),
            nblocks == data@.len() / 64,
            st == md5_blocks(data@, n as nat),
    {
        assert(n * 64 + 64 <= data.len()) by (nonlinear_arith)
            requires n < nblocks, nblocks == data.len() / 64;
        st = md5_block_exec(&data, n * 64, st);
        proof {
            assert(data@.subrange((n * 64) as int, n * 64 + 64) == data@.subrange(64 * n, 64 * (n + 1)));
        }
    }
    proof {
        crate::bytes::lemma_le_roundtrip(st.0 as nat, 4);
        crate::bytes::lemma_le_roundtrip(st.1 as nat, 4);
        crate::bytes::lemma_le_roundtrip(st.2 as nat, 4);
        crate::bytes::lemma_le_roundtrip(st.3 as nat, 4);
    }
    let mut out: Vec<u8> = Vec::new();
    push_le(&mut out, st.0 as u64, 4);
    push_le(&mut out, st.1 as u64, 4);
    push_le(&mut out, st.2 as u64, 4);
    push_le(&mut out, st.3 as u64, 4);
    let mut r = [0u8; 16];
    for i in 0usize..16
        invariant
            out@.len() == 16,
            forall|j: int| 0 <= j < i ==> r@[j] == out@[j],
    {
        r[i] = out[i];
    }
    proof { assert(r@ =~= out@); }
    r
}

/// The bytes of "OfflinePlayer:".
pub const OFFLINE_PREFIX: [u8; 14] = [79, 102, 102, 108, 105, 110, 101, 80, 108, 97, 121, 101, 114, 58];

/// `u` stamped as an RFC 4122 UUID of the given version.
pub open spec fn uuid_stamp(u: Seq<u8>, version: u8) -> Seq<u8> {
    u.update(6, (u[6] & 0x0F) | version).update(8, (u[8] & 0x3F) | 0x80)
}

/// Vanilla offline UUID: version 3 over "OfflinePlayer:<name>".
pub fn offline_uuid(name: &str) -> (r: [u8; 16])
    requires
        name.spec_bytes().len() < 0x1000_0000_0000_0000,
    ensures
        r@ == uuid_stamp(md5_digest(OFFLINE_PREFIX@ + name.spec_bytes()), 0x30),
{
    let mut msg: Vec<u8> = Vec::new();
    push_bytes(&mut msg, OFFLINE_PREFIX.as_slice());
    push_bytes(&mut msg, name.as_bytes());
    let mut u = md5(msg.as_slice());
    u[6] = (u[6] & 0x0F) | 0x30;
    u[8] = (u[8] & 0x3F) | 0x80;
    proof {
        assert(u@ =~= uuid_stamp(md5_digest(OFFLINE_PREFIX@ + name.spec_bytes()), 0x30));
    }
    u
}

/// One xorshift64 step (shifts 13, 7, 17).
pub open spec fn xorshift64(s: u64) -> u64 {
    let a = s ^ (s << 13);
    let b = a ^ (a >> 7);
    b ^ (b << 17)
}

fn xorshift_next(seed: &mut u64) -> (r: u64)
    ensures
        r == xorshift64(*old(seed)),
        *final(seed) == r,
{
    *seed ^= *seed << 13;
    *seed ^= *seed >> 7;
    *seed ^= *seed << 17;
    *seed
}

/// Random (version 4) UUID from the xorshift64 generator `seed`, which
/// advances by two steps.
pub fn random_uuid(seed: &mut u64) -> (r: [u8; 16])
    ensures
        *final(seed) == xorshift64(xorshift64(*old(seed))),
        r@ == uuid_stamp(
            be_bytes(xorshift64(*old(seed)) as nat, 8) + be_bytes(xorshift64(xorshift64(*old(seed))) as nat, 8),
            0x40,
        ),
{
    let hi = xorshift_next(seed);
    let lo = xorshift_next(seed);
    let mut v: Vec<u8> = Vec::new();
    push_be(&mut v, hi, 8);
    push_be(&mut v, lo, 8);
    proof {
        crate::bytes::lemma_be_roundtrip(hi as nat, 8);
        crate::bytes::lemma_be_roundtrip(lo as nat, 8);
    }
    let mut u = [0u8; 16];
    for i in 0usize..16
        invariant
            v@.len() == 16,
            forall|j: int| 0 <= j < i ==> u@[j] == v@[j],
    {
        u[i] = v[i];
    }
    u[6] = (u[6] & 0x0F) | 0x40;
    u[8] = (u[8] & 0x3F) | 0x80;
    proof {
        assert(u@ =~= uuid_stamp(v@, 0x40));
    }
    u
}

// ---------------------------------------------------------------- frame length

/// Largest payload a frame may announce (4 MiB, as the vanilla server).
pub const MAX_PACKET: usize = 4194304;

/// What one more byte of a frame's VarInt length prefix gives.
pub enum FrameLenStep {
    /// The length is not complete: keep these and read another byte.
    More { len: u32, shift: u32 },
    /// The length, within `MAX_PACKET`.
    Done(u32),
    /// The prefix runs past five bytes.
    BadVarint,
    /// The length is over `MAX_PACKET`.
    TooBig,
}

/// Folds one byte of a frame's length prefix into `len` (bits so far) at
/// bit `shift`.
pub fn frame_len_step(len: u32, shift: u32, byte: u8) -> (r: FrameLenStep)
    requires
        shift <= 28,
    ensures
        ({
            let len2 = len | (((byte % 0x80) as u32) << shift);
            if byte < 0x80 {
                if len2 > MAX_PACKET {
                    r is TooBig
                } else {
                    r == FrameLenStep::Done(len2)
                }
            } else if shift + 7 > 28 {
                r is BadVarint
            } else {
                r == FrameLenStep::More { len: len2, shift: (shift + 7) as u32 }
            }
        }),
{
    proof { lemma_u8_group(byte); }
    let len2 = len | (((byte & 0x7F) as u32) << shift);
    if byte & 0x80 == 0 {
        if len2 as usize > MAX_PACKET {
            return FrameLenStep::TooBig;
        }
        return FrameLenStep::Done(len2);
    }
    if shift + 7 > 28 {
        return FrameLenStep::BadVarint;
    }
    FrameLenStep::More { len: len2, shift: shift + 7 }
}

} // verus!
