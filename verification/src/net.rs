//! The LAN protocol: little-endian field reader and writer, packet framing
//! ([u32 length][u8 opcode][payload]) and the run-length coding of block arrays.
use vstd::prelude::*;
use crate::bytes::{le_bytes, le_value, get_le, push_le, pow256, lemma_le_roundtrip, lemma_le_value_bound};
use crate::mcproto::{push_bytes, from_utf8_lossy, lossy_text};
use vstd::string::StringSliceAdditionalSpecFns;

verus! {

pub const PROTOCOL: u16 = 6;

/// Hard cap for one framed packet.
pub const MAX_PACKET: u32 = 4194304;

/// Little-endian field of `k` bytes at `p`: its value and the position after
/// it, or `None` and `p` unchanged when fewer than `k` bytes remain.
pub open spec fn le_field(b: Seq<u8>, p: int, k: nat) -> (Option<nat>, int) {
    if 0 <= p && p + k <= b.len() {
        (Some(le_value(b.subrange(p, p + k))), p + k)
    } else {
        (None, p)
    }
}

/// Longest string `Rdr::str` accepts, in bytes.
pub const STR_CAP: usize = 32768;

/// A LAN string at `p`: u16 byte length (at most `STR_CAP`), then the bytes
/// decoded as UTF-8 (lossily). Gives the text, or `None`, and the position
/// after what was consumed.
pub open spec fn str_field(b: Seq<u8>, p: int) -> (Option<Seq<char>>, int) {
    let (n, q) = le_field(b, p, 2);
    match n {
        None => (None, q),
        Some(len) => {
            if len > STR_CAP || q + len > b.len() {
                (None, q)
            } else {
                (Some(lossy_text(b.subrange(q, q + len))), q + len)
            }
        },
    }
}

// ------------------------------------------------------------------ reader

/// Little-endian reader over a byte slice.
pub struct Rdr<'a> {
    b: &'a [u8],
    p: usize,
}

impl<'a> View for Rdr<'a> {
    /// The bytes and the read position.
    type V = (Seq<u8>, int);

    closed spec fn view(&self) -> (Seq<u8>, int) {
        (self.b@, self.p as int)
    }
}

impl<'a> Rdr<'a> {
    pub fn new(b: &'a [u8]) -> (r: Rdr<'a>)
        ensures
            r@ == (b@, 0int),
    {
        Rdr { b, p: 0 }
    }

    /// The next `n` bytes; `None`, with the position unchanged, when fewer remain.
    fn take(&mut self, n: usize) -> (r: Option<&'a [u8]>)
        ensures
            final(self)@.0 == old(self)@.0,
            0 <= old(self)@.1 && old(self)@.1 + n <= old(self)@.0.len() ==> (r matches Some(s)
                && s@ == old(self)@.0.subrange(old(self)@.1, old(self)@.1 + n)
                && final(self)@.1 == old(self)@.1 + n),
            !(old(self)@.1 + n <= old(self)@.0.len()) ==> r is None && final(self)@.1 == old(self)@.1,
    {
        if self.p > self.b.len() || n > self.b.len() - self.p {
            return None;
        }
        let s = &self.b[self.p..self.p + n];
        self.p += n;
        Some(s)
    }

    fn le(&mut self, k: usize) -> (r: Option<u64>)
        requires
            k <= 8,
        ensures
            final(self)@.0 == old(self)@.0,
            ({
                let (v, q) = le_field(old(self)@.0, old(self)@.1, k as nat);
                &&& final(self)@.1 == q
                &&& match v {
                    Some(n) => r == Some(n as u64) && n < pow256(k as nat),
                    None => r is None,
                }
            }),
    {
        if self.p > self.b.len() || self.b.len() - self.p < k {
            return None;
        }
        let v = get_le(self.b, self.p, k);
        proof { lemma_le_value_bound(self.b@.subrange(self.p as int, self.p + k)); }
        self.p += k;
        Some(v)
    }

    pub fn u8(&mut self) -> (r: Option<u8>)
        ensures
            final(self)@.0 == old(self)@.0,
            ({
                let (v, q) = le_field(old(self)@.0, old(self)@.1, 1);
                &&& final(self)@.1 == q
                &&& match v {
                    Some(n) => r == Some(n as u8),
                    None => r is None,
                }
            }),
    {
        proof { reveal_with_fuel(pow256, 2); }
        match self.le(1) {
            Some(v) => Some(v as u8),
            None => None,
        }
    }

    pub fn u16(&mut self) -> (r: Option<u16>)
        ensures
            final(self)@.0 == old(self)@.0,
            ({
                let (v, q) = le_field(old(self)@.0, old(self)@.1, 2);
                &&& final(self)@.1 == q
                &&& match v {
                    Some(n) => r == Some(n as u16),
                    None => r is None,
                }
            }),
    {
        proof { reveal_with_fuel(pow256, 3); }
        match self.le(2) {
            Some(v) => Some(v as u16),
            None => None,
        }
    }

    pub fn u32(&mut self) -> (r: Option<u32>)
        ensures
            final(self)@.0 == old(self)@.0,
            ({
                let (v, q) = le_field(old(self)@.0, old(self)@.1, 4);
                &&& final(self)@.1 == q
                &&& match v {
                    Some(n) => r == Some(n as u32),
                    None => r is None,
                }
            }),
    {
        proof { reveal_with_fuel(pow256, 5); }
        match self.le(4) {
            Some(v) => Some(v as u32),
            None => None,
        }
    }

    pub fn u64(&mut self) -> (r: Option<u64>)
        ensures
            final(self)@.0 == old(self)@.0,
            ({
                let (v, q) = le_field(old(self)@.0, old(self)@.1, 8);
                &&& final(self)@.1 == q
                &&& match v {
                    Some(n) => r == Some(n as u64),
                    None => r is None,
                }
            }),
    {
        self.le(8)
    }

    pub fn i32(&mut self) -> (r: Option<i32>)
        ensures
            final(self)@.0 == old(self)@.0,
            ({
                let (v, q) = le_field(old(self)@.0, old(self)@.1, 4);
                &&& final(self)@.1 == q
                &&& match v {
                    Some(n) => r == Some((n as u32) as i32),
                    None => r is None,
                }
            }),
    {
        proof { reveal_with_fuel(pow256, 5); }
        match self.le(4) {
            Some(v) => Some((v as u32) as i32),
            None => None,
        }
    }

    /// Reads a string: u16 byte length, capped at 32 KiB, then the bytes.
    pub fn str(&mut self) -> (r: Option<String>)
        ensures
            final(self)@.0 == old(self)@.0,
            ({
                let (v, q) = str_field(old(self)@.0, old(self)@.1);
                &&& final(self)@.1 == q
                &&& match v {
                    Some(t) => r matches Some(rs) && rs@ == t,
                    None => r is None,
                }
            }),
    {
        let n = match self.u16() {
            Some(n) => n as usize,
            None => return None,
        };
        if n > STR_CAP {
            return None;
        }
        let ghost q = self@.1;
        proof {
            lemma_le_value_bound(old(self)@.0.subrange(old(self)@.1, old(self)@.1 + 2));
            reveal_with_fuel(pow256, 3);
        }
        let s = match self.take(n) {
            Some(s) => s,
            None => return None,
        };
        Some(from_utf8_lossy(s))
    }

    /// The next `n` bytes; `None`, with the position unchanged, when fewer remain.
    pub fn bytes(&mut self, n: usize) -> (r: Option<&'a [u8]>)
        ensures
            final(self)@.0 == old(self)@.0,
            0 <= old(self)@.1 && old(self)@.1 + n <= old(self)@.0.len() ==> (r matches Some(s)
                && s@ == old(self)@.0.subrange(old(self)@.1, old(self)@.1 + n)
                && final(self)@.1 == old(self)@.1 + n),
            !(old(self)@.1 + n <= old(self)@.0.len()) ==> r is None && final(self)@.1 == old(self)@.1,
    {
        self.take(n)
    }
}

// ------------------------------------------------------------------ writer

/// Little-endian writer.
pub struct W {
    pub v: Vec<u8>,
}

impl W {
    pub fn new() -> (r: W)
        ensures
            r.v@ == Seq::<u8>::empty(),
    {
        W { v: Vec::with_capacity(64) }
    }

    pub fn u8(&mut self, x: u8) -> (r: &mut Self)
        ensures
            r.v@ == old(self).v@.push(x),
            *final(self) == *final(r),
    {
        self.v.push(x);
        self
    }

    pub fn u16(&mut self, x: u16) -> (r: &mut Self)
        ensures
            r.v@ == old(self).v@ + le_bytes(x as nat, 2),
            *final(self) == *final(r),
    {
        push_le(&mut self.v, x as u64, 2);
        self
    }

    pub fn u32(&mut self, x: u32) -> (r: &mut Self)
        ensures
            r.v@ == old(self).v@ + le_bytes(x as nat, 4),
            *final(self) == *final(r),
    {
        push_le(&mut self.v, x as u64, 4);
        self
    }

    pub fn u64(&mut self, x: u64) -> (r: &mut Self)
        ensures
            r.v@ == old(self).v@ + le_bytes(x as nat, 8),
            *final(self) == *final(r),
    {
        push_le(&mut self.v, x, 8);
        self
    }

    pub fn i32(&mut self, x: i32) -> (r: &mut Self)
        ensures
            r.v@ == old(self).v@ + le_bytes((x as u32) as nat, 4),
            *final(self) == *final(r),
    {
        push_le(&mut self.v, (x as u32) as u64, 4);
        self
    }

    /// Writes a string: u16 byte length, then its UTF-8 bytes, both cut at 65535.
    pub fn str(&mut self, s: &str) -> (r: &mut Self)
        ensures
            ({
                let b = s.spec_bytes();
                let n = if b.len() < 65535 { b.len() } else { 65535 };
                r.v@ == old(self).v@ + le_bytes(n, 2) + b.subrange(0, n as int)
            }),
            *final(self) == *final(r),
    {
        let b = s.as_bytes();
        let n = if b.len() < 65535 { b.len() } else { 65535 };
        push_le(&mut self.v, n as u64, 2);
        push_bytes(&mut self.v, &b[0..n]);
        self
    }

    pub fn bytes(&mut self, b: &[u8]) -> (r: &mut Self)
        ensures
            r.v@ == old(self).v@ + b@,
            *final(self) == *final(r),
    {
        push_bytes(&mut self.v, b);
        self
    }

    /// A copy of the bytes written so far.
    pub fn done(&self) -> (r: Vec<u8>)
        ensures
            r@ == self.v@,
    {
        self.v.clone()
    }
}

/// A framed packet: u32 length of opcode + payload, the opcode, the payload.
pub open spec fn frame_bytes(id: u8, payload: Seq<u8>) -> Seq<u8> {
    le_bytes((payload.len() + 1) as nat, 4).push(id) + payload
}

/// Frames one packet: [u32 len][u8 id][payload].
pub fn frame(id: u8, payload: &[u8]) -> (r: Vec<u8>)
    requires
        payload@.len() < u32::MAX,
    ensures
        r@ == frame_bytes(id, payload@),
{
    let mut out: Vec<u8> = Vec::new();
    push_le(&mut out, (payload.len() + 1) as u64, 4);
    out.push(id);
    push_bytes(&mut out, payload);
    out
}

/// Checks a packet length read from the wire: it must count the opcode and
/// stay within `MAX_PACKET`.
pub fn packet_len_ok(len: u32) -> (r: bool)
    ensures
        r == (1 <= len <= MAX_PACKET),
{
    !(len < 1 || len > MAX_PACKET)
}

// --------------------------------------------------------------------- RLE

/// Length of the run of values equal to `s[i]` from `i`, counted from `r`
/// on and capped at `u32::MAX`.
pub open spec fn run_count(s: Seq<u16>, i: int, r: nat) -> nat
    decreases s.len() - (i + r),
{
    if i + r < s.len() && s[i + r] == s[i] && r < u32::MAX {
        run_count(s, i, r + 1)
    } else {
        r
    }
}

/// Length of the run of values equal to `s[i]` that starts at `i`.
pub open spec fn run_len(s: Seq<u16>, i: int) -> nat {
    run_count(s, i, 1)
}

/// Run-length code of `s[i..]`: each maximal run (of at most `u32::MAX`
/// values) as its value in 2 little-endian bytes and its length in 4.
pub open spec fn rle_bytes(s: Seq<u16>, i: int) -> Seq<u8>
    decreases s.len() - i
    via rle_bytes_decreases
{
    if i < 0 || i >= s.len() {
        Seq::empty()
    } else {
        le_bytes(s[i] as nat, 2) + le_bytes(run_len(s, i), 4) + rle_bytes(s, i + run_len(s, i))
    }
}

#[via_fn]
proof fn rle_bytes_decreases(s: Seq<u16>, i: int) {
    if 0 <= i < s.len() {
        lemma_run_count(s, i, 1);
    }
}

pub proof fn lemma_run_count_ge(s: Seq<u16>, i: int, r: nat)
    ensures
        run_count(s, i, r) >= r,
    decreases s.len() - (i + r),
{
    if i + r < s.len() && s[i + r] == s[i] && r < u32::MAX {
        lemma_run_count_ge(s, i, r + 1);
    }
}

proof fn lemma_run_count(s: Seq<u16>, i: int, r: nat)
    requires
        0 <= i,
        1 <= r,
        i + r <= s.len(),
        r <= u32::MAX,
        forall|j: int| i <= j < i + r ==> #[trigger] s[j] == s[i],
    ensures
        r <= run_count(s, i, r) <= u32::MAX,
        i + run_count(s, i, r) <= s.len(),
        forall|j: int| i <= j < i + run_count(s, i, r) ==> #[trigger] s[j] == s[i],
    decreases s.len() - (i + r),
{
    if i + r < s.len() && s[i + r] == s[i] && r < u32::MAX {
        lemma_run_count(s, i, r + 1);
    }
}

/// Run-length encodes a block array.
pub fn rle_encode(data: &[u16]) -> (r: Vec<u8>)
    ensures
        r@ == rle_bytes(data@, 0),
{
    let mut out: Vec<u8> = Vec::new();
    let mut i: usize = 0;
    while i < data.len()
        invariant
            i <= data@.len(),
            out@ + rle_bytes(data@, i as int) == rle_bytes(data@, 0),
        decreases data@.len() - i,
    {
        let v = data[i];
        let mut run: usize = 1;
        proof { lemma_run_count(data@, i as int, 1); }
        while i + run < data.len() && data[i + run] == v && run < 0xFFFF_FFFF
            invariant
                i < data@.len(),
                v == data@[i as int],
                1 <= run,
                i + run <= data.len(),
                run <= u32::MAX,
                run_count(data@, i as int, run as nat) == run_len(data@, i as int),
            decreases data@.len() - (i + run),
        {
            run += 1;
        }
        proof { lemma_run_count(data@, i as int, 1); }
        let ghost before = out@;
        push_le(&mut out, v as u64, 2);
        push_le(&mut out, run as u64, 4);
        proof {
            assert(run == run_len(data@, i as int));
            assert(before + rle_bytes(data@, i as int) =~= out@ + rle_bytes(data@, i + run));
        }
        i += run;
    }
    out
}

/// Result of decoding a run-length stream at byte `p` into `cur` (whose
/// first `filled` values are done): success, and the array afterwards. Each
/// record needs 6 bytes and a run of at least 1 that fits; decoding stops
/// once the array is full, and fails at the first bad record, leaving what
/// was written before it.
pub open spec fn rle_fill(enc: Seq<u8>, p: int, filled: nat, cur: Seq<u16>) -> (bool, Seq<u16>)
    decreases cur.len() - filled,
{
    if filled >= cur.len() {
        (true, cur)
    } else if p < 0 || p + 6 > enc.len() {
        (false, cur)
    } else {
        let v = le_value(enc.subrange(p, p + 2));
        let run = le_value(enc.subrange(p + 2, p + 6));
        if run == 0 || filled + run > cur.len() {
            (false, cur)
        } else {
            let next = Seq::new(cur.len(), |k: int| if filled <= k < filled + run { v as u16 } else { cur[k] });
            rle_fill(enc, p + 6, filled + run, next)
        }
    }
}

/// Decodes a run-length stream into `out`, which must already be sized.
/// `None` when the stream ends early or a run is empty or overflows.
pub fn rle_decode(encoded: &[u8], out: &mut [u16]) -> (r: Option<()>)
    ensures
        r is Some == rle_fill(encoded@, 0, 0, old(out)@).0,
        final(out)@ == rle_fill(encoded@, 0, 0, old(out)@).1,
{
    let mut rd = Rdr::new(encoded);
    let mut filled: usize = 0;
    while filled < out.len()
        invariant
            filled <= out@.len(),
            out@.len() == old(out)@.len(),
            rd@.0 == encoded@,
            0 <= rd@.1 <= encoded@.len(),
            rle_fill(encoded@, 0, 0, old(out)@) == rle_fill(encoded@, rd@.1, filled as nat, out@),
        decreases out@.len() - filled,
    {
        proof { reveal_with_fuel(pow256, 5); }
        let ghost p = rd@.1;
        let ghost cur = out@;
        let v = match rd.u16() {
            Some(v) => v,
            None => {
                return None;
            },
        };
        let run = match rd.u32() {
            Some(n) => n as usize,
            None => {
                return None;
            },
        };
        proof {
            lemma_le_value_bound(encoded@.subrange(p, p + 2));
            lemma_le_value_bound(encoded@.subrange(p + 2, p + 6));
        }
        if run == 0 || run > out.len() - filled {
            return None;
        }
        let mut k: usize = 0;
        while k < run
            invariant
                k <= run,
                filled + run <= out@.len(),
                out@.len() == cur.len(),
                forall|j: int| 0 <= j < out@.len() ==> out@[j] == (if filled <= j < filled + k { v } else { cur[j] }),
            decreases run - k,
        {
            out[filled + k] = v;
            k += 1;
        }
        proof {
            let next = Seq::new(cur.len(), |j: int| if filled <= j < filled + run { v } else { cur[j] });
            assert(out@ =~= next);
        }
        filled += run;
    }
    Some(())
}

proof fn lemma_rle_fill_from(data: Seq<u16>, i: int, pre: Seq<u8>, cur: Seq<u16>)
    requires
        0 <= i <= data.len(),
        cur.len() == data.len(),
        forall|j: int| 0 <= j < i ==> #[trigger] cur[j] == data[j],
    ensures
        rle_fill(pre + rle_bytes(data, i), pre.len() as int, i as nat, cur) == (true, data),
    decreases data.len() - i,
{
    let enc = pre + rle_bytes(data, i);
    let p = pre.len() as int;
    if i == data.len() {
        assert(cur =~= data);
    } else {
        lemma_run_count(data, i, 1);
        let r = run_len(data, i);
        let vb = le_bytes(data[i] as nat, 2);
        let rb = le_bytes(r, 4);
        lemma_le_roundtrip(data[i] as nat, 2);
        lemma_le_roundtrip(r, 4);
        reveal_with_fuel(pow256, 5);
        assert(pow256(2) == 0x10000);
        assert(pow256(4) == 0x100000000);
        let pre2 = pre + vb + rb;
        assert(enc =~= pre2 + rle_bytes(data, i + r));
        assert(enc.subrange(p, p + 2) =~= vb);
        assert(enc.subrange(p + 2, p + 6) =~= rb);
        let v = le_value(enc.subrange(p, p + 2));
        assert(v == data[i] as nat);
        assert(le_value(enc.subrange(p + 2, p + 6)) == r);
        let next = Seq::new(cur.len(), |k: int| if i <= k < i + r { v as u16 } else { cur[k] });
        assert forall|j: int| 0 <= j < i + r implies #[trigger] next[j] == data[j] by {
            if i <= j {
                assert(data[j] == data[i]);
            }
        }
        lemma_rle_fill_from(data, i + r, pre2, next);
        assert(pre2.len() == p + 6);
    }
}

/// Decoding the run-length code of a block array into an array of the same
/// size succeeds and restores the array, whatever the array held before.
pub proof fn rle_roundtrip(data: Seq<u16>, cur: Seq<u16>)
    requires
        cur.len() == data.len(),
    ensures
        rle_fill(rle_bytes(data, 0), 0, 0, cur) == (true, data),
{
    lemma_rle_fill_from(data, 0, Seq::empty(), cur);
    assert(Seq::<u8>::empty() + rle_bytes(data, 0) =~= rle_bytes(data, 0));
}

/// A field of `k` bytes written by `W` reads back as the value (modulo
/// `256^k`), and the reader stops right after it.
pub proof fn field_roundtrip(pre: Seq<u8>, v: nat, k: nat, rest: Seq<u8>)
    ensures
        le_field(pre + le_bytes(v, k) + rest, pre.len() as int, k)
            == (Some(v % pow256(k)), (pre.len() + k) as int),
{
    lemma_le_roundtrip(v, k);
    let all = pre + le_bytes(v, k) + rest;
    assert(all.subrange(pre.len() as int, (pre.len() + k) as int) =~= le_bytes(v, k));
}

/// A string written by `W::str` whose UTF-8 is at most `STR_CAP` bytes reads
/// back as itself, and the reader stops right after it.
pub proof fn str_roundtrip(pre: Seq<u8>, s: Seq<char>, rest: Seq<u8>)
    requires
        vstd::utf8::encode_utf8(s).len() <= STR_CAP,
    ensures
        ({
            let b = vstd::utf8::encode_utf8(s);
            str_field(pre + le_bytes(b.len(), 2) + b + rest, pre.len() as int)
                == (Some(s), (pre.len() + 2 + b.len()) as int)
        }),
{
    let b = vstd::utf8::encode_utf8(s);
    reveal_with_fuel(pow256, 3);
    field_roundtrip(pre, b.len(), 2, b + rest);
    assert(pre + le_bytes(b.len(), 2) + b + rest == pre + le_bytes(b.len(), 2) + (b + rest));
    let all = pre + le_bytes(b.len(), 2) + b + rest;
    lemma_le_roundtrip(b.len(), 2);
    let q = pre.len() + 2;
    assert(all.subrange(q as int, (q + b.len()) as int) =~= b);
    vstd::utf8::encode_utf8_valid_utf8(s);
    vstd::utf8::encode_utf8_decode_utf8(s);
    assert(pow256(2) == 0x10000);
    assert(b.len() % pow256(2) == b.len());
    assert(le_field(all, pre.len() as int, 2) == (Some(b.len()), q as int));
    assert(lossy_text(all.subrange(q as int, (q + b.len()) as int)) == s);
}

} // verus!
