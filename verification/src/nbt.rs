//! NBT (Named Binary Tag) reading: the big-endian primitives and strings
//! that tag payloads are made of.
use vstd::prelude::*;
use vstd::string::{StringExecFns, StringSliceAdditionalSpecFns};
use vstd::utf8::encode_utf8;
use crate::bytes::{be_bytes, be_value, get_be, push_be, lemma_be_value_bound, lemma_be_roundtrip, pow256};
use crate::mcproto::{be_field, from_utf8_lossy, lossy_text, push_bytes};

verus! {

/// A reader over NBT bytes.
pub struct NbtRdr<'a> {
    b: &'a [u8],
    p: usize,
}

/// An NBT string at `p`: a 2-byte big-endian length, then that many bytes
/// of modified UTF-8, read leniently; the position after it, or the position
/// after the length alone when the bytes run short.
pub open spec fn nbt_string_at(b: Seq<u8>, p: int) -> (Option<Seq<char>>, int) {
    match be_field(b, p, 2).0 {
        None => (None, p),
        Some(n) => if p + 2 + n <= b.len() {
            (Some(lossy_text(b.subrange(p + 2, p + 2 + n))), p + 2 + n)
        } else {
            (None, p + 2)
        },
    }
}

impl<'a> NbtRdr<'a> {
    /// The bytes read.
    pub closed spec fn data(&self) -> Seq<u8> {
        self.b@
    }

    /// The read position.
    pub closed spec fn at(&self) -> int {
        self.p as int
    }

    pub fn new(b: &'a [u8]) -> (r: NbtRdr<'a>)
        ensures
            r.data() == b@,
            r.at() == 0,
    {
        NbtRdr { b, p: 0 }
    }

    /// Where the next read starts.
    pub fn pos(&self) -> (r: usize)
        ensures
            r as int == self.at(),
    {
        self.p
    }

    fn be(&mut self, k: usize) -> (r: Option<u64>)
        requires
            k <= 8,
        ensures
            final(self).data() == old(self).data(),
            ({
                let (v, q) = be_field(old(self).data(), old(self).at(), k as nat);
                &&& final(self).at() == q
                &&& match v {
                    Some(n) => r == Some(n as u64) && n < pow256(k as nat),
                    None => r is None,
                }
            }),
    {
        if self.p > self.b.len() || self.b.len() - self.p < k {
            return None;
        }
        let v = get_be(self.b, self.p, k);
        proof { lemma_be_value_bound(self.b@.subrange(self.p as int, self.p + k)); }
        self.p += k;
        Some(v)
    }

    /// One byte.
    pub fn u8(&mut self) -> (r: Option<u8>)
        ensures
            final(self).data() == old(self).data(),
            0 <= old(self).at() < old(self).data().len() ==> r == Some(old(self).data()[old(self).at()])
                && final(self).at() == old(self).at() + 1,
            old(self).at() >= old(self).data().len() ==> r is None && final(self).at() == old(self).at(),
    {
        if self.p >= self.b.len() {
            return None;
        }
        let v = self.b[self.p];
        self.p += 1;
        Some(v)
    }

    /// A big-endian 16-bit word.
    pub fn u16(&mut self) -> (r: Option<u16>)
        ensures
            final(self).data() == old(self).data(),
            ({
                let (v, q) = be_field(old(self).data(), old(self).at(), 2);
                &&& final(self).at() == q
                &&& match v {
                    Some(n) => r == Some(n as u16) && n < 0x10000,
                    None => r is None,
                }
            }),
    {
        proof { reveal_with_fuel(pow256, 3); }
        match self.be(2) {
            Some(v) => Some(v as u16),
            None => None,
        }
    }

    /// A big-endian signed 32-bit word.
    pub fn i32v(&mut self) -> (r: Option<i32>)
        ensures
            final(self).data() == old(self).data(),
            ({
                let (v, q) = be_field(old(self).data(), old(self).at(), 4);
                &&& final(self).at() == q
                &&& match v {
                    Some(n) => r == Some((n as u32) as i32),
                    None => r is None,
                }
            }),
    {
        proof { reveal_with_fuel(pow256, 5); }
        match self.be(4) {
            Some(v) => Some((v as u32) as i32),
            None => None,
        }
    }

    /// A big-endian signed 64-bit word.
    pub fn i64v(&mut self) -> (r: Option<i64>)
        ensures
            final(self).data() == old(self).data(),
            ({
                let (v, q) = be_field(old(self).data(), old(self).at(), 8);
                &&& final(self).at() == q
                &&& match v {
                    Some(n) => r == Some((n as u64) as i64),
                    None => r is None,
                }
            }),
    {
        match self.be(8) {
            Some(v) => Some(v as i64),
            None => None,
        }
    }

    /// A length-prefixed string, its bytes decoded leniently.
    pub fn string(&mut self) -> (r: Option<String>)
        ensures
            final(self).data() == old(self).data(),
            ({
                let (v, q) = nbt_string_at(old(self).data(), old(self).at());
                &&& final(self).at() == q
                &&& match v {
                    Some(t) => r matches Some(s) && s@ == t,
                    None => r is None,
                }
            }),
    {
        let n = match self.u16() {
            Some(n) => n as usize,
            None => return None,
        };
        if self.p > self.b.len() || n > self.b.len() - self.p {
            return None;
        }
        let s = from_utf8_lossy(&self.b[self.p..self.p + n]);
        self.p += n;
        Some(s)
    }
}

} // verus!

verus! {

/// A tag value.
#[derive(Debug, PartialEq)]
pub enum Nbt {
    Byte(i8),
    Short(i16),
    Int(i32),
    Long(i64),
    /// A 32-bit float, held as its IEEE 754 bits.
    Float(u32),
    /// A 64-bit float, held as its IEEE 754 bits.
    Double(u64),
    ByteArray(Vec<u8>),
    Str(String),
    List(Vec<Nbt>),
    Compound(Vec<(String, Nbt)>),
    IntArray(Vec<i32>),
    LongArray(Vec<i64>),
}

/// A tag value as plain values.
pub enum NbtV {
    Byte(i8),
    Short(i16),
    Int(i32),
    Long(i64),
    Float(u32),
    Double(u64),
    ByteArray(Seq<u8>),
    Str(Seq<char>),
    List(Seq<NbtV>),
    Compound(Seq<(Seq<char>, NbtV)>),
    IntArray(Seq<i32>),
    LongArray(Seq<i64>),
}

/// A tag value as plain values.
pub open spec fn nbt_view(n: Nbt) -> NbtV
    decreases n,
{
    match n {
        Nbt::Byte(v) => NbtV::Byte(v),
        Nbt::Short(v) => NbtV::Short(v),
        Nbt::Int(v) => NbtV::Int(v),
        Nbt::Long(v) => NbtV::Long(v),
        Nbt::Float(v) => NbtV::Float(v),
        Nbt::Double(v) => NbtV::Double(v),
        Nbt::ByteArray(b) => NbtV::ByteArray(b@),
        Nbt::Str(s) => NbtV::Str(s@),
        Nbt::List(items) => NbtV::List(Seq::new(items@.len(), |i: int|
            if 0 <= i < items@.len() { nbt_view(items@[i]) } else { NbtV::Byte(0) })),
        Nbt::Compound(m) => NbtV::Compound(Seq::new(m@.len(), |i: int|
            if 0 <= i < m@.len() { (m@[i].0@, nbt_view(m@[i].1)) } else { (Seq::empty(), NbtV::Byte(0)) })),
        Nbt::IntArray(a) => NbtV::IntArray(a@),
        Nbt::LongArray(a) => NbtV::LongArray(a@),
    }
}


pub const TAG_END: u8 = 0;
pub const TAG_BYTE: u8 = 1;
pub const TAG_SHORT: u8 = 2;
pub const TAG_INT: u8 = 3;
pub const TAG_LONG: u8 = 4;
pub const TAG_FLOAT: u8 = 5;
pub const TAG_DOUBLE: u8 = 6;
pub const TAG_BYTE_ARRAY: u8 = 7;
pub const TAG_STRING: u8 = 8;
pub const TAG_LIST: u8 = 9;
pub const TAG_COMPOUND: u8 = 10;
pub const TAG_INT_ARRAY: u8 = 11;
pub const TAG_LONG_ARRAY: u8 = 12;

/// The tag id of a value.
pub open spec fn tag_of(v: NbtV) -> u8 {
    match v {
        NbtV::Byte(_) => TAG_BYTE,
        NbtV::Short(_) => TAG_SHORT,
        NbtV::Int(_) => TAG_INT,
        NbtV::Long(_) => TAG_LONG,
        NbtV::Float(_) => TAG_FLOAT,
        NbtV::Double(_) => TAG_DOUBLE,
        NbtV::ByteArray(_) => TAG_BYTE_ARRAY,
        NbtV::Str(_) => TAG_STRING,
        NbtV::List(_) => TAG_LIST,
        NbtV::Compound(_) => TAG_COMPOUND,
        NbtV::IntArray(_) => TAG_INT_ARRAY,
        NbtV::LongArray(_) => TAG_LONG_ARRAY,
    }
}

/// A string as written: its UTF-8 byte length (low 16 bits, big-endian),
/// then its UTF-8 bytes.
pub open spec fn str_bytes(s: Seq<char>) -> Seq<u8> {
    be_bytes(encode_utf8(s).len(), 2) + encode_utf8(s)
}

/// 32-bit words, big-endian.
pub open spec fn ints_bytes(a: Seq<i32>) -> Seq<u8>
    decreases a.len(),
{
    if a.len() == 0 {
        Seq::empty()
    } else {
        ints_bytes(a.drop_last()) + be_bytes((a.last() as u32) as nat, 4)
    }
}

/// 64-bit words, big-endian.
pub open spec fn longs_bytes(a: Seq<i64>) -> Seq<u8>
    decreases a.len(),
{
    if a.len() == 0 {
        Seq::empty()
    } else {
        longs_bytes(a.drop_last()) + be_bytes((a.last() as u64) as nat, 8)
    }
}

/// The payloads of list items, one after the other.
pub open spec fn list_bytes(items: Seq<NbtV>) -> Seq<u8>
    decreases items,
{
    if items.len() == 0 {
        Seq::empty()
    } else {
        list_bytes(items.subrange(0, items.len() - 1)) + payload_bytes(items[items.len() - 1])
    }
}

/// Compound entries: for each, its tag id, its name, its payload.
pub open spec fn entries_bytes(m: Seq<(Seq<char>, NbtV)>) -> Seq<u8>
    decreases m,
{
    if m.len() == 0 {
        Seq::empty()
    } else {
        let e = m[m.len() - 1];
        entries_bytes(m.subrange(0, m.len() - 1)) + seq![tag_of(e.1)] + str_bytes(e.0) + payload_bytes(e.1)
    }
}

/// The payload of a value as written: numbers big-endian, arrays and
/// strings after their length (low 32 and 16 bits), lists after the tag of
/// their first item (0 when empty) and their length, compounds as their
/// entries then a 0 byte.
pub open spec fn payload_bytes(v: NbtV) -> Seq<u8>
    decreases v,
{
    match v {
        NbtV::Byte(x) => seq![x as u8],
        NbtV::Short(x) => be_bytes((x as u16) as nat, 2),
        NbtV::Int(x) => be_bytes((x as u32) as nat, 4),
        NbtV::Long(x) => be_bytes((x as u64) as nat, 8),
        NbtV::Float(x) => be_bytes(x as nat, 4),
        NbtV::Double(x) => be_bytes(x as nat, 8),
        NbtV::ByteArray(b) => be_bytes(b.len(), 4) + b,
        NbtV::Str(s) => str_bytes(s),
        NbtV::List(items) => seq![if items.len() > 0 { tag_of(items[0]) } else { TAG_END }] + be_bytes(items.len(), 4)
            + list_bytes(items),
        NbtV::Compound(m) => entries_bytes(m) + seq![TAG_END],
        NbtV::IntArray(a) => be_bytes(a.len(), 4) + ints_bytes(a),
        NbtV::LongArray(a) => be_bytes(a.len(), 4) + longs_bytes(a),
    }
}

/// Appends a length-prefixed string.
fn write_str(out: &mut Vec<u8>, s: &str)
    ensures
        final(out)@ == old(out)@ + str_bytes(s@),
{
    let b = s.as_bytes();
    push_be(out, b.len() as u64, 2);
    push_bytes(out, b);
}

impl Nbt {
    /// An empty compound.
    pub fn compound() -> (r: Nbt)
        ensures
            nbt_view(r) == NbtV::Compound(Seq::empty()),
    {
        let r = Nbt::Compound(Vec::new());
        proof {
            if let NbtV::Compound(m) = nbt_view(r) {
                assert(m =~= Seq::empty());
            }
        }
        r
    }

    /// The tag id of the value.
    pub fn tag_id(&self) -> (r: u8)
        ensures
            r == tag_of(nbt_view(*self)),
    {
        match self {
            Nbt::Byte(_) => TAG_BYTE,
            Nbt::Short(_) => TAG_SHORT,
            Nbt::Int(_) => TAG_INT,
            Nbt::Long(_) => TAG_LONG,
            Nbt::Float(_) => TAG_FLOAT,
            Nbt::Double(_) => TAG_DOUBLE,
            Nbt::ByteArray(_) => TAG_BYTE_ARRAY,
            Nbt::Str(_) => TAG_STRING,
            Nbt::List(_) => TAG_LIST,
            Nbt::Compound(_) => TAG_COMPOUND,
            Nbt::IntArray(_) => TAG_INT_ARRAY,
            Nbt::LongArray(_) => TAG_LONG_ARRAY,
        }
    }

    /// Appends the payload of the value.
    pub fn write_payload(&self, out: &mut Vec<u8>)
        ensures
            final(out)@ == old(out)@ + payload_bytes(nbt_view(*self)),
        decreases self,
    {
        let ghost o = out@;
        match self {
            Nbt::Byte(v) => {
                out.push(*v as u8);
                assert(out@ =~= o + payload_bytes(nbt_view(*self)));
            },
            Nbt::Short(v) => push_be(out, (*v as u16) as u64, 2),
            Nbt::Int(v) => push_be(out, (*v as u32) as u64, 4),
            Nbt::Long(v) => push_be(out, *v as u64, 8),
            Nbt::Float(v) => push_be(out, *v as u64, 4),
            Nbt::Double(v) => push_be(out, *v, 8),
            Nbt::ByteArray(b) => {
                push_be(out, b.len() as u64, 4);
                push_bytes(out, b.as_slice());
                assert(out@ =~= o + payload_bytes(nbt_view(*self)));
            },
            Nbt::Str(t) => write_str(out, t.as_str()),
            Nbt::List(items) => {
                let ghost iv = Seq::new(items@.len(), |i: int| if 0 <= i < items@.len() { nbt_view(items@[i]) } else { NbtV::Byte(0) });
                proof {
                    if let NbtV::List(s2) = nbt_view(*self) {
                        assert(s2 =~= iv);
                    }
                }
                let inner = if items.len() > 0 { items[0].tag_id() } else { TAG_END };
                out.push(inner);
                push_be(out, items.len() as u64, 4);
                let ghost o2 = out@;
                assert(o2 =~= o + seq![if iv.len() > 0 { tag_of(iv[0]) } else { TAG_END }] + be_bytes(iv.len(), 4));
                for i in 0usize..items.len()
                    invariant
                        iv == Seq::new(items@.len(), |i: int| if 0 <= i < items@.len() { nbt_view(items@[i]) } else { NbtV::Byte(0) }),
                        out@ == o2 + list_bytes(iv.subrange(0, i as int)),
                        *self is List && (*self)->List_0 == *items,
                {
                    proof {
                        assert(iv.subrange(0, i + 1).subrange(0, i as int) =~= iv.subrange(0, i as int));
                        assert(iv.subrange(0, i + 1)[i as int] == nbt_view(items@[i as int]));
                    }
                    proof {
                        assert((*self)->List_0 == *items);
                        assert(decreases_to!(*self => (*self)->List_0));
                        assert(decreases_to!(*items => items@));
                        assert(decreases_to!(items@ => items@[i as int]));
                        assert(decreases_to!(*self => items@[i as int]));
                    }
                    items[i].write_payload(out);
                    proof {
                        assert(out@ =~= o2 + list_bytes(iv.subrange(0, i + 1)));
                    }
                }
                proof {
                    assert(iv.subrange(0, iv.len() as int) =~= iv);
                }
                assert(out@ =~= o + payload_bytes(nbt_view(*self)));
            },
            Nbt::Compound(m) => {
                let ghost mv = Seq::new(m@.len(), |i: int| if 0 <= i < m@.len() { (m@[i].0@, nbt_view(m@[i].1)) } else { (Seq::empty(), NbtV::Byte(0)) });
                proof {
                    if let NbtV::Compound(s2) = nbt_view(*self) {
                        assert(s2 =~= mv);
                    }
                }
                for i in 0usize..m.len()
                    invariant
                        mv == Seq::new(m@.len(), |i: int| if 0 <= i < m@.len() { (m@[i].0@, nbt_view(m@[i].1)) } else { (Seq::empty(), NbtV::Byte(0)) }),
                        out@ == o + entries_bytes(mv.subrange(0, i as int)),
                        *self is Compound && (*self)->Compound_0 == *m,
                {
                    let (k, v) = &m[i];
                    proof {
                        assert(mv.subrange(0, i + 1).subrange(0, i as int) =~= mv.subrange(0, i as int));
                        assert(mv.subrange(0, i + 1)[i as int] == (k@, nbt_view(*v)));
                    }
                    let ghost before = out@;
                    out.push(v.tag_id());
                    write_str(out, k.as_str());
                    proof {
                        assert((*self)->Compound_0 == *m);
                        assert(decreases_to!(*self => (*self)->Compound_0));
                        assert(decreases_to!(*m => m@));
                        assert(decreases_to!(m@ => m@[i as int]));
                        assert(decreases_to!(m@[i as int] => m@[i as int].1));
                        assert(decreases_to!(*self => m@[i as int].1));
                    }
                    v.write_payload(out);
                    proof {
                        assert(out@ =~= o + entries_bytes(mv.subrange(0, i + 1)));
                    }
                }
                out.push(TAG_END);
                proof {
                    assert(mv.subrange(0, mv.len() as int) =~= mv);
                }
                assert(out@ =~= o + payload_bytes(nbt_view(*self)));
            },
            Nbt::IntArray(a) => {
                push_be(out, a.len() as u64, 4);
                let ghost o2 = out@;
                for i in 0usize..a.len()
                    invariant
                        out@ == o2 + ints_bytes(a@.subrange(0, i as int)),
                {
                    push_be(out, (a[i] as u32) as u64, 4);
                    proof {
                        assert(a@.subrange(0, i + 1).drop_last() =~= a@.subrange(0, i as int));
                        assert(out@ =~= o2 + ints_bytes(a@.subrange(0, i + 1)));
                    }
                }
                proof { assert(a@.subrange(0, a@.len() as int) =~= a@); }
                assert(out@ =~= o + payload_bytes(nbt_view(*self)));
            },
            Nbt::LongArray(a) => {
                push_be(out, a.len() as u64, 4);
                let ghost o2 = out@;
                for i in 0usize..a.len()
                    invariant
                        out@ == o2 + longs_bytes(a@.subrange(0, i as int)),
                {
                    push_be(out, a[i] as u64, 8);
                    proof {
                        assert(a@.subrange(0, i + 1).drop_last() =~= a@.subrange(0, i as int));
                        assert(out@ =~= o2 + longs_bytes(a@.subrange(0, i + 1)));
                    }
                }
                proof { assert(a@.subrange(0, a@.len() as int) =~= a@); }
                assert(out@ =~= o + payload_bytes(nbt_view(*self)));
            },
        }
    }

    /// Network NBT: the root compound without a name (0x0A, then the payload).
    pub fn write_network(&self, out: &mut Vec<u8>)
        ensures
            final(out)@ == old(out)@ + seq![TAG_COMPOUND] + payload_bytes(nbt_view(*self)),
    {
        let ghost o = out@;
        out.push(TAG_COMPOUND);
        self.write_payload(out);
        assert(out@ =~= o + seq![TAG_COMPOUND] + payload_bytes(nbt_view(*self)));
    }
}


/// The signed 32-bit word at `p`.
pub open spec fn i32_at(b: Seq<u8>, p: int) -> i32 {
    (be_value(b.subrange(p, p + 4)) as u32) as i32
}

/// The signed 64-bit word at `p`.
pub open spec fn i64_at(b: Seq<u8>, p: int) -> i64 {
    (be_value(b.subrange(p, p + 8)) as u64) as i64
}

/// The payload of tag `tag` at `p`, and where it ends; `None` when the bytes
/// run short, a length is negative, or the tag is unknown.
pub open spec fn parse_payload(b: Seq<u8>, p: int, tag: u8) -> Option<(NbtV, int)>
    decreases b.len() - p, 2int,
{
    if p < 0 || p > b.len() {
        None
    } else if tag == TAG_BYTE {
        if p + 1 <= b.len() { Some((NbtV::Byte(b[p] as i8), p + 1)) } else { None }
    } else if tag == TAG_SHORT {
        if p + 2 <= b.len() { Some((NbtV::Short((be_value(b.subrange(p, p + 2)) as u16) as i16), p + 2)) } else { None }
    } else if tag == TAG_INT {
        if p + 4 <= b.len() { Some((NbtV::Int(i32_at(b, p)), p + 4)) } else { None }
    } else if tag == TAG_LONG {
        if p + 8 <= b.len() { Some((NbtV::Long(i64_at(b, p)), p + 8)) } else { None }
    } else if tag == TAG_FLOAT {
        if p + 4 <= b.len() { Some((NbtV::Float(be_value(b.subrange(p, p + 4)) as u32), p + 4)) } else { None }
    } else if tag == TAG_DOUBLE {
        if p + 8 <= b.len() { Some((NbtV::Double(be_value(b.subrange(p, p + 8)) as u64), p + 8)) } else { None }
    } else if tag == TAG_BYTE_ARRAY {
        if p + 4 > b.len() {
            None
        } else {
            let n = i32_at(b, p) as int;
            if n < 0 || p + 4 + n > b.len() { None } else { Some((NbtV::ByteArray(b.subrange(p + 4, p + 4 + n)), p + 4 + n)) }
        }
    } else if tag == TAG_STRING {
        match nbt_string_at(b, p) {
            (Some(t), q) => Some((NbtV::Str(t), q)),
            _ => None,
        }
    } else if tag == TAG_LIST {
        if p + 5 > b.len() {
            None
        } else {
            let inner = b[p];
            let n = i32_at(b, p + 1) as int;
            if n < 0 {
                None
            } else if inner == TAG_END {
                Some((NbtV::List(Seq::empty()), p + 5))
            } else {
                match parse_items(b, p + 5, inner, n, Seq::empty()) {
                    Some((items, q)) => Some((NbtV::List(items), q)),
                    None => None,
                }
            }
        }
    } else if tag == TAG_COMPOUND {
        match parse_entries(b, p, Seq::empty()) {
            Some((m, q)) => Some((NbtV::Compound(m), q)),
            None => None,
        }
    } else if tag == TAG_INT_ARRAY {
        if p + 4 > b.len() {
            None
        } else {
            let n = i32_at(b, p) as int;
            if n < 0 || p + 4 + 4 * n > b.len() {
                None
            } else {
                Some((NbtV::IntArray(Seq::new(n as nat, |i: int| i32_at(b, p + 4 + 4 * i))), p + 4 + 4 * n))
            }
        }
    } else if tag == TAG_LONG_ARRAY {
        if p + 4 > b.len() {
            None
        } else {
            let n = i32_at(b, p) as int;
            if n < 0 || p + 4 + 8 * n > b.len() {
                None
            } else {
                Some((NbtV::LongArray(Seq::new(n as nat, |i: int| i64_at(b, p + 4 + 8 * i))), p + 4 + 8 * n))
            }
        }
    } else {
        None
    }
}

/// `k` more list items of tag `inner` from `p`, after `acc`.
pub open spec fn parse_items(b: Seq<u8>, p: int, inner: u8, k: int, acc: Seq<NbtV>) -> Option<(Seq<NbtV>, int)>
    decreases b.len() - p, 3int,
{
    if k <= 0 {
        Some((acc, p))
    } else if p < 0 || p > b.len() {
        None
    } else {
        match parse_payload(b, p, inner) {
            None => None,
            Some((v, q)) => if p < q <= b.len() { parse_items(b, q, inner, k - 1, acc.push(v)) } else { None },
        }
    }
}

/// Compound entries from `p` up to and including the end tag, after `acc`.
pub open spec fn parse_entries(b: Seq<u8>, p: int, acc: Seq<(Seq<char>, NbtV)>) -> Option<(Seq<(Seq<char>, NbtV)>, int)>
    decreases b.len() - p, 1int,
{
    if p < 0 || p >= b.len() {
        None
    } else if b[p] == TAG_END {
        Some((acc, p + 1))
    } else {
        match nbt_string_at(b, p + 1) {
            (Some(name), q) => if p < q <= b.len() {
                match parse_payload(b, q, b[p]) {
                    Some((v, r)) => if q < r <= b.len() { parse_entries(b, r, acc.push((name, v))) } else { None },
                    None => None,
                }
            } else {
                None
            },
            _ => None,
        }
    }
}

/// Network NBT at `p`: the compound tag byte, then the root compound's
/// entries.
pub open spec fn parse_network(b: Seq<u8>, p: int) -> Option<(NbtV, int)> {
    if 0 <= p < b.len() && b[p] == TAG_COMPOUND {
        parse_payload(b, p + 1, TAG_COMPOUND)
    } else {
        None
    }
}

impl<'a> NbtRdr<'a> {
    /// The payload of a tag `tag`.
    pub fn payload(&mut self, tag: u8) -> (r: Option<Nbt>)
        ensures
            final(self).data() == old(self).data(),
            match parse_payload(old(self).data(), old(self).at(), tag) {
                Some((v, q)) => r matches Some(n) && nbt_view(n) == v && final(self).at() == q,
                None => r is None,
            },
            r is Some ==> old(self).at() < final(self).at() <= final(self).data().len(),
        decreases old(self).data().len() - old(self).at(), 2int,
    {
        let ghost b = self.b@;
        let ghost p0 = self.p as int;
        if self.p > self.b.len() {
            return None;
        }
        if tag == TAG_BYTE {
            match self.u8() {
                Some(v) => Some(Nbt::Byte(v as i8)),
                None => None,
            }
        } else if tag == TAG_SHORT {
            proof { reveal_with_fuel(pow256, 3); }
            match self.u16() {
                Some(v) => Some(Nbt::Short(v as i16)),
                None => None,
            }
        } else if tag == TAG_INT {
            match self.i32v() {
                Some(v) => Some(Nbt::Int(v)),
                None => None,
            }
        } else if tag == TAG_LONG {
            match self.i64v() {
                Some(v) => Some(Nbt::Long(v)),
                None => None,
            }
        } else if tag == TAG_FLOAT {
            proof { reveal_with_fuel(pow256, 5); }
            match self.be(4) {
                Some(v) => Some(Nbt::Float(v as u32)),
                None => None,
            }
        } else if tag == TAG_DOUBLE {
            match self.be(8) {
                Some(v) => Some(Nbt::Double(v)),
                None => None,
            }
        } else if tag == TAG_BYTE_ARRAY {
            let n = match self.i32v() {
                Some(n) => n,
                None => return None,
            };
            if n < 0 || n as usize > self.b.len() - self.p {
                return None;
            }
            let v = vstd::slice::slice_to_vec(&self.b[self.p..self.p + n as usize]);
            self.p += n as usize;
            Some(Nbt::ByteArray(v))
        } else if tag == TAG_STRING {
            match self.string() {
                Some(t) => Some(Nbt::Str(t)),
                None => None,
            }
        } else if tag == TAG_LIST {
            if self.b.len() - self.p < 5 {
                return None;
            }
            let inner = self.b[self.p];
            self.p += 1;
            let n = match self.i32v() {
                Some(n) => n,
                None => return None,
            };
            if n < 0 {
                return None;
            }
            let mut items: Vec<Nbt> = Vec::new();
            if inner == TAG_END {
                proof {
                    if let NbtV::List(s2) = nbt_view(Nbt::List(items)) {
                        assert(s2 =~= Seq::<NbtV>::empty());
                    }
                }
                return Some(Nbt::List(items));
            }
            let ghost total = parse_items(b, p0 + 5, inner, n as int, Seq::empty());
            let mut k: i32 = 0;
            let ghost mut acc: Seq<NbtV> = Seq::empty();
            while k < n
                invariant
                    self.b@ == b,
                    p0 + 5 <= self.p <= b.len(),
                    0 <= k <= n,
                    inner != TAG_END,
                    total == parse_items(b, p0 + 5, inner, n as int, Seq::empty()),
                    total == parse_items(b, self.p as int, inner, (n - k) as int, acc),
                    acc.len() == items@.len(),
                    forall|j: int| 0 <= j < items@.len() ==> nbt_view(#[trigger] items@[j]) == acc[j],
                    b == old(self).data(),
                    p0 == old(self).at(),
                    p0 + 5 <= b.len(),
                    inner == b[p0],
                    n as int == i32_at(b, p0 + 1) as int,
                    tag == TAG_LIST,
                decreases n - k,
            {
                let ghost pk = self.p as int;
                let v = match self.payload(inner) {
                    Some(v) => v,
                    None => {
                        proof {
                            assert(parse_payload(b, pk, inner) is None);
                            assert(parse_items(b, pk, inner, (n - k) as int, acc) is None);
                            assert(total is None);
                            assert(parse_payload(b, p0, TAG_LIST) is None);
                        }
                        return None;
                    },
                };
                proof {
                    acc = acc.push(nbt_view(v));
                }
                items.push(v);
                k += 1;
            }
            let r = Nbt::List(items);
            proof {
                if let NbtV::List(s2) = nbt_view(r) {
                    assert(s2 =~= acc);
                }
            }
            Some(r)
        } else if tag == TAG_COMPOUND {
            self.compound_body()
        } else if tag == TAG_INT_ARRAY {
            let n = match self.i32v() {
                Some(n) => n,
                None => return None,
            };
            if n < 0 || n as usize > (self.b.len() - self.p) / 4 {
                return None;
            }
            let ghost base = self.p as int;
            let blen = self.b.len();
            let mut v: Vec<i32> = Vec::new();
            let mut k: usize = 0;
            while k < n as usize
                invariant
                    blen == b.len(),
                    self.b@ == b,
                    0 <= n,
                    base + 4 * (n as int) <= b.len(),
                    k <= n as usize,
                    self.p == base + 4 * k,
                    v@.len() == k,
                    forall|j: int| 0 <= j < k ==> #[trigger] v@[j] == i32_at(b, base + 4 * j),
                decreases n as usize - k,
            {
                let w = get_be(self.b, self.p, 4);
                proof { reveal_with_fuel(pow256, 5); lemma_be_value_bound(b.subrange(self.p as int, self.p + 4)); }
                v.push((w as u32) as i32);
                self.p += 4;
                k += 1;
            }
            let r = Nbt::IntArray(v);
            proof {
                if let NbtV::IntArray(s2) = nbt_view(r) {
                    assert(s2 =~= Seq::new(n as nat, |i: int| i32_at(b, base + 4 * i)));
                }
            }
            Some(r)
        } else if tag == TAG_LONG_ARRAY {
            let n = match self.i32v() {
                Some(n) => n,
                None => return None,
            };
            if n < 0 || n as usize > (self.b.len() - self.p) / 8 {
                return None;
            }
            let ghost base = self.p as int;
            let blen = self.b.len();
            let mut v: Vec<i64> = Vec::new();
            let mut k: usize = 0;
            while k < n as usize
                invariant
                    blen == b.len(),
                    self.b@ == b,
                    0 <= n,
                    base + 8 * (n as int) <= b.len(),
                    k <= n as usize,
                    self.p == base + 8 * k,
                    v@.len() == k,
                    forall|j: int| 0 <= j < k ==> #[trigger] v@[j] == i64_at(b, base + 8 * j),
                decreases n as usize - k,
            {
                let w = get_be(self.b, self.p, 8);
                v.push(w as i64);
                self.p += 8;
                k += 1;
            }
            let r = Nbt::LongArray(v);
            proof {
                if let NbtV::LongArray(s2) = nbt_view(r) {
                    assert(s2 =~= Seq::new(n as nat, |i: int| i64_at(b, base + 8 * i)));
                }
            }
            Some(r)
        } else {
            None
        }
    }

    /// Compound entries up to the end tag.
    fn compound_body(&mut self) -> (r: Option<Nbt>)
        ensures
            final(self).data() == old(self).data(),
            match parse_entries(old(self).data(), old(self).at(), Seq::empty()) {
                Some((m, q)) => r matches Some(n) && nbt_view(n) == NbtV::Compound(m) && final(self).at() == q,
                None => r is None,
            },
            r is Some ==> old(self).at() < final(self).at() <= final(self).data().len(),
        decreases old(self).data().len() - old(self).at(), 1int,
    {
        let ghost b = self.b@;
        let ghost p0 = self.p as int;
        let ghost total = parse_entries(b, p0, Seq::empty());
        let mut m: Vec<(String, Nbt)> = Vec::new();
        let ghost mut acc: Seq<(Seq<char>, NbtV)> = Seq::empty();
        loop
            invariant
                self.b@ == b,
                p0 <= self.p,
                total == parse_entries(b, p0, Seq::empty()),
                total == parse_entries(b, self.p as int, acc),
                acc.len() == m@.len(),
                forall|j: int| 0 <= j < m@.len() ==> (#[trigger] m@[j]).0@ == acc[j].0 && nbt_view(m@[j].1) == acc[j].1,
                b == old(self).data(),
                p0 == old(self).at(),
            decreases b.len() - self.p,
        {
            let ghost pe = self.p as int;
            let tag = match self.u8() {
                Some(t) => t,
                None => return None,
            };
            if tag == TAG_END {
                let r = Nbt::Compound(m);
                proof {
                    if let NbtV::Compound(s2) = nbt_view(r) {
                        assert(s2 =~= acc);
                    }
                }
                return Some(r);
            }
            let name = match self.string() {
                Some(n) => n,
                None => return None,
            };
            let v = match self.payload(tag) {
                Some(v) => v,
                None => return None,
            };
            proof {
                acc = acc.push((name@, nbt_view(v)));
            }
            m.push((name, v));
        }
    }

    /// Network NBT: the compound tag byte, then the root compound without a
    /// name.
    pub fn read_network(&mut self) -> (r: Option<Nbt>)
        ensures
            final(self).data() == old(self).data(),
            match parse_network(old(self).data(), old(self).at()) {
                Some((v, q)) => r matches Some(n) && nbt_view(n) == v && final(self).at() == q,
                None => r is None,
            },
            r is Some ==> old(self).at() < final(self).at() <= final(self).data().len(),
    {
        let tag = match self.u8() {
            Some(t) => t,
            None => return None,
        };
        if tag != TAG_COMPOUND {
            return None;
        }
        self.compound_body()
    }
}

// ---------------------------------------------------------------- round trip

/// A value that reads back as written: strings and names of at most 65535
/// UTF-8 bytes, arrays and lists shorter than 2^31, list items all of the
/// first item's tag.
pub open spec fn nbt_wf(v: NbtV) -> bool
    decreases v,
{
    match v {
        NbtV::ByteArray(b) => b.len() < 0x8000_0000,
        NbtV::Str(t) => encode_utf8(t).len() < 0x10000,
        NbtV::List(items) => items.len() < 0x8000_0000 && forall|i: int| 0 <= i < items.len() ==>
            tag_of(#[trigger] items[i]) == tag_of(items[0]) && nbt_wf(items[i]),
        NbtV::Compound(m) => forall|i: int| 0 <= i < m.len() ==>
            encode_utf8((#[trigger] m[i]).0).len() < 0x10000 && nbt_wf(m[i].1),
        NbtV::IntArray(a) => a.len() < 0x8000_0000,
        NbtV::LongArray(a) => a.len() < 0x8000_0000,
        _ => true,
    }
}

proof fn lemma_pow256_vals()
    ensures
        pow256(2) == 0x1_0000,
        pow256(4) == 0x1_0000_0000,
        pow256(8) == 0x1_0000_0000_0000_0000,
{
    reveal_with_fuel(pow256, 9);
}

/// A number below `256^k` reads back from its `k` bytes.
proof fn lemma_be_exact(x: nat, k: nat)
    requires
        x < pow256(k),
    ensures
        be_bytes(x, k).len() == k,
        be_value(be_bytes(x, k)) == x,
{
    lemma_be_roundtrip(x, k);
    vstd::arithmetic::div_mod::lemma_small_mod(x, pow256(k));
}

proof fn lemma_bytes_at(b: Seq<u8>, p: int, w: Seq<u8>, i: int, j: int)
    requires
        0 <= p,
        p + w.len() <= b.len(),
        b.subrange(p, p + w.len()) == w,
        0 <= i <= j <= w.len(),
    ensures
        b.subrange(p + i, p + j) == w.subrange(i, j),
{
    assert(b.subrange(p + i, p + j) =~= w.subrange(i, j)) by {
        assert forall|k: int| 0 <= k < j - i implies b.subrange(p + i, p + j)[k] == w.subrange(i, j)[k] by {
            assert(b.subrange(p, p + w.len())[i + k] == w[i + k]);
        }
    }
}

proof fn lemma_casts(x8: i8, x16: i16, x32: i32, x64: i64)
    by (bit_vector)
    ensures
        ((x8 as u8) as i8) == x8,
        ((x16 as u16) as i16) == x16,
        ((x32 as u32) as i32) == x32,
        ((x64 as u64) as i64) == x64,
{
}

proof fn lemma_len_word(n: nat)
    requires
        n < 0x8000_0000,
    ensures
        be_bytes(n, 4).len() == 4,
        ((be_value(be_bytes(n, 4)) as u32) as i32) as int == n,
{
    lemma_be_roundtrip(n, 4);
    reveal_with_fuel(pow256, 5);
    assert(pow256(4) == 0x1_0000_0000);
    assert(be_value(be_bytes(n, 4)) == n);
    let u = n as u32;
    assert(u == n);
    assert((u as i32) >= 0i32 && ((u as i32) as u32) == u) by (bit_vector)
        requires u < 0x8000_0000u32;
    let w = u as i32;
    assert(w as int == u as int);
}

/// Payloads are never empty.
proof fn lemma_payload_len(v: NbtV)
    ensures
        payload_bytes(v).len() >= 1,
{
    match v {
        NbtV::Short(x) => { lemma_be_roundtrip((x as u16) as nat, 2); },
        NbtV::Int(x) => { lemma_be_roundtrip((x as u32) as nat, 4); },
        NbtV::Long(x) => { lemma_be_roundtrip((x as u64) as nat, 8); },
        NbtV::Float(x) => { lemma_be_roundtrip(x as nat, 4); },
        NbtV::Double(x) => { lemma_be_roundtrip(x as nat, 8); },
        NbtV::ByteArray(d) => { lemma_be_roundtrip(d.len(), 4); },
        NbtV::Str(t) => { lemma_be_roundtrip(encode_utf8(t).len(), 2); },
        NbtV::IntArray(a) => { lemma_be_roundtrip(a.len(), 4); },
        NbtV::LongArray(a) => { lemma_be_roundtrip(a.len(), 4); },
        _ => {},
    }
}

proof fn lemma_list_front(items: Seq<NbtV>)
    requires
        items.len() > 0,
    ensures
        list_bytes(items) == payload_bytes(items[0]) + list_bytes(items.subrange(1, items.len() as int)),
    decreases items.len(),
{
    if items.len() > 1 {
        let init = items.subrange(0, items.len() - 1);
        lemma_list_front(init);
        assert(init[0] == items[0]);
        assert(init.subrange(1, init.len() as int) =~= items.subrange(1, items.len() as int).subrange(0, items.len() - 2));
        assert(items.subrange(1, items.len() as int)[items.len() - 2] == items[items.len() - 1]);
        assert(list_bytes(items.subrange(1, items.len() as int)) == list_bytes(items.subrange(1, items.len() as int).subrange(0, items.len() - 2))
            + payload_bytes(items[items.len() - 1]));
        assert(list_bytes(items) =~= payload_bytes(items[0]) + list_bytes(items.subrange(1, items.len() as int)));
    } else {
        assert(items.subrange(0, 0) =~= Seq::<NbtV>::empty());
        assert(items.subrange(1, 1) =~= Seq::<NbtV>::empty());
        assert(list_bytes(items) =~= payload_bytes(items[0]) + list_bytes(items.subrange(1, items.len() as int)));
    }
}

proof fn lemma_entries_front(m: Seq<(Seq<char>, NbtV)>)
    requires
        m.len() > 0,
    ensures
        entries_bytes(m) == seq![tag_of(m[0].1)] + str_bytes(m[0].0) + payload_bytes(m[0].1)
            + entries_bytes(m.subrange(1, m.len() as int)),
    decreases m.len(),
{
    if m.len() > 1 {
        let init = m.subrange(0, m.len() - 1);
        lemma_entries_front(init);
        assert(init[0] == m[0]);
        assert(init.subrange(1, init.len() as int) =~= m.subrange(1, m.len() as int).subrange(0, m.len() - 2));
        assert(m.subrange(1, m.len() as int)[m.len() - 2] == m[m.len() - 1]);
        let e = m[m.len() - 1];
        assert(entries_bytes(m.subrange(1, m.len() as int)) == entries_bytes(m.subrange(1, m.len() as int).subrange(0, m.len() - 2))
            + seq![tag_of(e.1)] + str_bytes(e.0) + payload_bytes(e.1));
        assert(entries_bytes(m) =~= seq![tag_of(m[0].1)] + str_bytes(m[0].0) + payload_bytes(m[0].1)
            + entries_bytes(m.subrange(1, m.len() as int)));
    } else {
        assert(m.subrange(0, 0) =~= Seq::<(Seq<char>, NbtV)>::empty());
        assert(m.subrange(1, 1) =~= Seq::<(Seq<char>, NbtV)>::empty());
        assert(entries_bytes(m) =~= seq![tag_of(m[0].1)] + str_bytes(m[0].0) + payload_bytes(m[0].1)
            + entries_bytes(m.subrange(1, m.len() as int)));
    }
}

proof fn lemma_ints_bytes(a: Seq<i32>)
    ensures
        ints_bytes(a).len() == 4 * a.len(),
        forall|i: int| 0 <= i < a.len() ==> #[trigger] ints_bytes(a).subrange(4 * i, 4 * i + 4) == be_bytes((a[i] as u32) as nat, 4),
    decreases a.len(),
{
    if a.len() > 0 {
        let d = a.drop_last();
        lemma_ints_bytes(d);
        lemma_be_roundtrip((a.last() as u32) as nat, 4);
        let w = ints_bytes(a);
        assert forall|i: int| 0 <= i < a.len() implies #[trigger] ints_bytes(a).subrange(4 * i, 4 * i + 4) == be_bytes((a[i] as u32) as nat, 4) by {
            if i < d.len() {
                assert(w.subrange(4 * i, 4 * i + 4) =~= ints_bytes(d).subrange(4 * i, 4 * i + 4));
                assert(d[i] == a[i]);
            } else {
                assert(w.subrange(4 * i, 4 * i + 4) =~= be_bytes((a.last() as u32) as nat, 4));
            }
        }
    }
}

proof fn lemma_longs_bytes(a: Seq<i64>)
    ensures
        longs_bytes(a).len() == 8 * a.len(),
        forall|i: int| 0 <= i < a.len() ==> #[trigger] longs_bytes(a).subrange(8 * i, 8 * i + 8) == be_bytes((a[i] as u64) as nat, 8),
    decreases a.len(),
{
    if a.len() > 0 {
        let d = a.drop_last();
        lemma_longs_bytes(d);
        lemma_be_roundtrip((a.last() as u64) as nat, 8);
        let w = longs_bytes(a);
        assert forall|i: int| 0 <= i < a.len() implies #[trigger] longs_bytes(a).subrange(8 * i, 8 * i + 8) == be_bytes((a[i] as u64) as nat, 8) by {
            if i < d.len() {
                assert(w.subrange(8 * i, 8 * i + 8) =~= longs_bytes(d).subrange(8 * i, 8 * i + 8));
                assert(d[i] == a[i]);
            } else {
                assert(w.subrange(8 * i, 8 * i + 8) =~= be_bytes((a.last() as u64) as nat, 8));
            }
        }
    }
}

/// The bytes of a string read back as the string.
proof fn lemma_str_read(b: Seq<u8>, p: int, t: Seq<char>)
    requires
        0 <= p,
        encode_utf8(t).len() < 0x10000,
        p + str_bytes(t).len() <= b.len(),
        b.subrange(p, p + str_bytes(t).len()) == str_bytes(t),
    ensures
        str_bytes(t).len() == 2 + encode_utf8(t).len(),
        nbt_string_at(b, p) == (Some(t), p + str_bytes(t).len()),
{
    let e = encode_utf8(t);
    lemma_be_roundtrip(e.len(), 2);
    reveal_with_fuel(pow256, 3);
    let w = str_bytes(t);
    lemma_bytes_at(b, p, w, 0, 2);
    assert(w.subrange(0, 2) =~= be_bytes(e.len(), 2));
    lemma_bytes_at(b, p, w, 2, w.len() as int);
    assert(w.subrange(2, w.len() as int) =~= e);
    vstd::utf8::encode_utf8_valid_utf8(t);
    vstd::utf8::encode_utf8_decode_utf8(t);
    assert(pow256(2) == 0x10000);
    assert(b.subrange(p, p + 2) == be_bytes(e.len(), 2));
    assert(be_value(b.subrange(p, p + 2)) == e.len());
    assert(be_field(b, p, 2).0 == Some(e.len()));
    assert(b.subrange(p + 2, p + 2 + e.len()) == e);
    assert(lossy_text(e) == t);
}

#[verifier::rlimit(50)]
proof fn lemma_payload_read(b: Seq<u8>, p: int, v: NbtV)
    requires
        nbt_wf(v),
        0 <= p,
        p + payload_bytes(v).len() <= b.len(),
        b.subrange(p, p + payload_bytes(v).len()) == payload_bytes(v),
    ensures
        parse_payload(b, p, tag_of(v)) == Some((v, p + payload_bytes(v).len())),
    decreases v,
{
    let w = payload_bytes(v);
    lemma_casts(0, 0, 0, 0);
    match v {
        NbtV::Byte(x) => {
            assert(w.len() == 1);
            assert(b.subrange(p, p + w.len())[0] == w[0]);
            assert(b[p] == x as u8);
            lemma_casts(x, 0, 0, 0);
            assert((b[p] as i8) == x);
        },
        NbtV::Short(x) => {
            lemma_pow256_vals();
            lemma_be_exact((x as u16) as nat, 2);
            lemma_casts(0, x, 0, 0);
            assert(b.subrange(p, p + 2) == w);
        },
        NbtV::Int(x) => {
            lemma_pow256_vals();
            lemma_be_exact((x as u32) as nat, 4);
            lemma_casts(0, 0, x, 0);
            assert(b.subrange(p, p + 4) == w);
            assert(i32_at(b, p) == x);
        },
        NbtV::Long(x) => {
            lemma_pow256_vals();
            lemma_be_exact((x as u64) as nat, 8);
            lemma_casts(0, 0, 0, x);
            assert(b.subrange(p, p + 8) == w);
            assert(i64_at(b, p) == x);
        },
        NbtV::Float(x) => {
            lemma_pow256_vals();
            lemma_be_exact(x as nat, 4);
            assert(b.subrange(p, p + 4) == w);
        },
        NbtV::Double(x) => {
            lemma_pow256_vals();
            lemma_be_exact(x as nat, 8);
            assert(b.subrange(p, p + 8) == w);
        },
        NbtV::ByteArray(d) => {
            lemma_len_word(d.len());
            lemma_bytes_at(b, p, w, 0, 4);
            assert(w.subrange(0, 4) =~= be_bytes(d.len(), 4));
            lemma_bytes_at(b, p, w, 4, w.len() as int);
            assert(w.subrange(4, w.len() as int) =~= d);
        },
        NbtV::Str(t) => {
            lemma_str_read(b, p, t);
        },
        NbtV::List(items) => {
            let n = items.len();
            lemma_len_word(n);
            let lb = list_bytes(items);
            assert(w == seq![if n > 0 { tag_of(items[0]) } else { TAG_END }] + be_bytes(n, 4) + lb);
            lemma_bytes_at(b, p, w, 1, 5);
            assert(w.subrange(1, 5) =~= be_bytes(n, 4));
            assert(b[p] == w[0]);
            if n == 0 {
                assert(items =~= Seq::<NbtV>::empty());
                assert(lb == Seq::<u8>::empty());
            } else {
                lemma_bytes_at(b, p, w, 5, w.len() as int);
                assert(w.subrange(5, w.len() as int) =~= lb);
                assert(tag_of(items[0]) != TAG_END);
                lemma_items_read(b, p + 5, tag_of(items[0]), items, Seq::empty());
                assert(Seq::<NbtV>::empty() + items =~= items);
            }
        },
        NbtV::Compound(m) => {
            let eb = entries_bytes(m);
            assert(w == eb + seq![TAG_END]);
            lemma_bytes_at(b, p, w, 0, eb.len() as int);
            assert(w.subrange(0, eb.len() as int) =~= eb);
            assert(b.subrange(p, p + w.len())[eb.len() as int] == w[eb.len() as int]);
            lemma_entries_read(b, p, m, Seq::empty());
            assert(Seq::<(Seq<char>, NbtV)>::empty() + m =~= m);
        },
        NbtV::IntArray(a) => {
            let n = a.len();
            lemma_len_word(n);
            lemma_ints_bytes(a);
            lemma_bytes_at(b, p, w, 0, 4);
            assert(w.subrange(0, 4) =~= be_bytes(n, 4));
            reveal_with_fuel(pow256, 5);
            assert(pow256(4) == 0x1_0000_0000);
            let got = Seq::new(n as nat, |i: int| i32_at(b, p + 4 + 4 * i));
            assert forall|i: int| 0 <= i < n implies #[trigger] got[i] == a[i] by {
                lemma_bytes_at(b, p, w, 4 + 4 * i, 4 + 4 * i + 4);
                assert(w.subrange(4 + 4 * i, 4 + 4 * i + 4) =~= ints_bytes(a).subrange(4 * i, 4 * i + 4));
                assert(ints_bytes(a).subrange(4 * i, 4 * i + 4) == be_bytes((a[i] as u32) as nat, 4));
                assert(b.subrange(p + 4 + 4 * i, p + 4 + 4 * i + 4) == be_bytes((a[i] as u32) as nat, 4));
                lemma_be_roundtrip((a[i] as u32) as nat, 4);
                assert(be_value(be_bytes((a[i] as u32) as nat, 4)) == (a[i] as u32) as nat);
                lemma_casts(0, 0, a[i], 0);
                assert(got[i] == i32_at(b, p + 4 + 4 * i));
            }
            assert(got =~= a);
        },
        NbtV::LongArray(a) => {
            let n = a.len();
            lemma_len_word(n);
            lemma_longs_bytes(a);
            lemma_bytes_at(b, p, w, 0, 4);
            assert(w.subrange(0, 4) =~= be_bytes(n, 4));
            reveal_with_fuel(pow256, 9);
            assert(pow256(8) == 0x1_0000_0000_0000_0000);
            let got = Seq::new(n as nat, |i: int| i64_at(b, p + 4 + 8 * i));
            assert forall|i: int| 0 <= i < n implies #[trigger] got[i] == a[i] by {
                lemma_bytes_at(b, p, w, 4 + 8 * i, 4 + 8 * i + 8);
                assert(w.subrange(4 + 8 * i, 4 + 8 * i + 8) =~= longs_bytes(a).subrange(8 * i, 8 * i + 8));
                assert(longs_bytes(a).subrange(8 * i, 8 * i + 8) == be_bytes((a[i] as u64) as nat, 8));
                assert(b.subrange(p + 4 + 8 * i, p + 4 + 8 * i + 8) == be_bytes((a[i] as u64) as nat, 8));
                lemma_be_roundtrip((a[i] as u64) as nat, 8);
                assert(be_value(be_bytes((a[i] as u64) as nat, 8)) == (a[i] as u64) as nat);
                lemma_casts(0, 0, 0, a[i]);
                assert(got[i] == i64_at(b, p + 4 + 8 * i));
            }
            assert(got =~= a);
        },
    }
}

proof fn lemma_items_read(b: Seq<u8>, q: int, t: u8, items: Seq<NbtV>, acc: Seq<NbtV>)
    requires
        forall|i: int| 0 <= i < items.len() ==> tag_of(#[trigger] items[i]) == t && nbt_wf(items[i]),
        0 <= q,
        q + list_bytes(items).len() <= b.len(),
        b.subrange(q, q + list_bytes(items).len()) == list_bytes(items),
    ensures
        parse_items(b, q, t, items.len() as int, acc) == Some((acc + items, q + list_bytes(items).len())),
    decreases items,
{
    if items.len() == 0 {
        assert(acc + items =~= acc);
    } else {
        let lb = list_bytes(items);
        lemma_list_front(items);
        let rest = items.subrange(1, items.len() as int);
        let p0 = payload_bytes(items[0]);
        lemma_bytes_at(b, q, lb, 0, p0.len() as int);
        assert(lb.subrange(0, p0.len() as int) =~= p0);
        lemma_payload_read(b, q, items[0]);
        lemma_payload_len(items[0]);
        let q2 = q + p0.len();
        lemma_bytes_at(b, q, lb, p0.len() as int, lb.len() as int);
        assert(lb.subrange(p0.len() as int, lb.len() as int) =~= list_bytes(rest));
        assert forall|i: int| 0 <= i < rest.len() implies tag_of(#[trigger] rest[i]) == t && nbt_wf(rest[i]) by {
            assert(rest[i] == items[i + 1]);
        }
        lemma_items_read(b, q2, t, rest, acc.push(items[0]));
        assert(acc.push(items[0]) + rest =~= acc + items);
    }
}

proof fn lemma_entries_read(b: Seq<u8>, q: int, m: Seq<(Seq<char>, NbtV)>, acc: Seq<(Seq<char>, NbtV)>)
    requires
        forall|i: int| 0 <= i < m.len() ==> encode_utf8((#[trigger] m[i]).0).len() < 0x10000 && nbt_wf(m[i].1),
        0 <= q,
        q + entries_bytes(m).len() + 1 <= b.len(),
        b.subrange(q, q + entries_bytes(m).len()) == entries_bytes(m),
        b[q + entries_bytes(m).len()] == TAG_END,
    ensures
        parse_entries(b, q, acc) == Some((acc + m, q + entries_bytes(m).len() + 1)),
    decreases m,
{
    if m.len() == 0 {
        assert(acc + m =~= acc);
    } else {
        let eb = entries_bytes(m);
        lemma_entries_front(m);
        let rest = m.subrange(1, m.len() as int);
        let (name, v) = m[0];
        let sb = str_bytes(name);
        let pb = payload_bytes(v);
        let ls = sb.len() as int;
        let lp = pb.len() as int;
        assert(b[q] == eb[0]);
        assert(tag_of(v) != TAG_END);
        lemma_bytes_at(b, q, eb, 1, 1 + ls);
        assert(eb.subrange(1, 1 + ls) =~= sb);
        lemma_str_read(b, q + 1, name);
        let q2 = q + 1 + ls;
        lemma_bytes_at(b, q, eb, 1 + ls, 1 + ls + lp);
        assert(eb.subrange(1 + ls, 1 + ls + lp) =~= pb);
        lemma_payload_read(b, q2, v);
        lemma_payload_len(v);
        let q3 = q2 + lp;
        lemma_bytes_at(b, q, eb, 1 + ls + lp, eb.len() as int);
        assert(eb.subrange(1 + ls + lp, eb.len() as int) =~= entries_bytes(rest));
        assert forall|i: int| 0 <= i < rest.len() implies encode_utf8((#[trigger] rest[i]).0).len() < 0x10000 && nbt_wf(rest[i].1) by {
            assert(rest[i] == m[i + 1]);
        }
        lemma_entries_read(b, q3, rest, acc.push((name, v)));
        assert(acc.push((name, v)) + rest =~= acc + m);
    }
}

/// A compound written as network NBT, and whatever follows it, reads back
/// as the same value, reading stopping right after it: strings and names of
/// at most 65535 UTF-8 bytes, arrays and lists shorter than 2^31, and list
/// items all of one tag.
pub proof fn nbt_network_roundtrip(v: NbtV, rest: Seq<u8>)
    requires
        v is Compound,
        nbt_wf(v),
    ensures
        ({
            let w = seq![TAG_COMPOUND] + payload_bytes(v);
            parse_network(w + rest, 0) == Some((v, w.len() as int))
        }),
{
    let w = seq![TAG_COMPOUND] + payload_bytes(v);
    let b = w + rest;
    assert(b.subrange(1, 1 + payload_bytes(v).len() as int) =~= payload_bytes(v));
    lemma_payload_read(b, 1, v);
}


/// Where the first entry named `k` is in `m`, from `i` on; -1 when none is.
pub open spec fn key_pos(m: Seq<(Seq<char>, NbtV)>, k: Seq<char>, i: int) -> int
    decreases m.len() - i,
{
    if i < 0 || i >= m.len() {
        -1
    } else if m[i].0 == k {
        i
    } else {
        key_pos(m, k, i + 1)
    }
}

/// `m` with the first entry named `k` given the value `v`, or with a new
/// entry at the end.
pub open spec fn compound_set(m: Seq<(Seq<char>, NbtV)>, k: Seq<char>, v: NbtV) -> Seq<(Seq<char>, NbtV)> {
    let i = key_pos(m, k, 0);
    if i < 0 { m.push((k, v)) } else { m.update(i, (k, v)) }
}

proof fn lemma_key_pos(m: Seq<(Seq<char>, NbtV)>, k: Seq<char>, i: int)
    requires
        0 <= i,
    ensures
        -1 <= key_pos(m, k, i) < m.len(),
        key_pos(m, k, i) >= 0 ==> key_pos(m, k, i) >= i && m[key_pos(m, k, i)].0 == k,
    decreases m.len() - i,
{
    if i < m.len() && m[i].0 != k {
        lemma_key_pos(m, k, i + 1);
    }
}

impl Nbt {
    /// Where the entry named `key` is in the compound entries `m`.
    fn find_key(m: &Vec<(String, Nbt)>, key: &String) -> (r: Option<usize>)
        ensures
            ({
                let mv = Seq::new(m@.len(), |i: int| if 0 <= i < m@.len() { (m@[i].0@, nbt_view(m@[i].1)) } else { (Seq::empty(), NbtV::Byte(0)) });
                let pos = key_pos(mv, key@, 0);
                match r {
                    Some(i) => pos == i as int && i < m@.len(),
                    None => pos == -1,
                }
            }),
    {
        let ghost mv = Seq::new(m@.len(), |i: int| if 0 <= i < m@.len() { (m@[i].0@, nbt_view(m@[i].1)) } else { (Seq::empty(), NbtV::Byte(0)) });
        for i in 0usize..m.len()
            invariant
                mv == Seq::new(m@.len(), |i: int| if 0 <= i < m@.len() { (m@[i].0@, nbt_view(m@[i].1)) } else { (Seq::empty(), NbtV::Byte(0)) }),
                key_pos(mv, key@, 0) == key_pos(mv, key@, i as int),
        {
            if m[i].0 == *key {
                return Some(i);
            }
        }
        None
    }

    /// In a compound, gives `key` the value `v`: the first entry with that
    /// name is replaced, else a new entry is added at the end. Other values
    /// are left as they are.
    pub fn set(&mut self, key: &str, v: Nbt)
        ensures
            match nbt_view(*old(self)) {
                NbtV::Compound(m) => nbt_view(*final(self)) == NbtV::Compound(compound_set(m, key@, nbt_view(v))),
                _ => *final(self) == *old(self),
            },
    {
        let mut cur = Nbt::Byte(0);
        std::mem::swap(&mut cur, self);
        match cur {
            Nbt::Compound(m) => {
                let mut m = m;
                let ghost mv = Seq::new(m@.len(), |i: int| if 0 <= i < m@.len() { (m@[i].0@, nbt_view(m@[i].1)) } else { (Seq::empty(), NbtV::Byte(0)) });
                proof {
                    if let NbtV::Compound(s2) = nbt_view(Nbt::Compound(m)) {
                        assert(s2 =~= mv);
                    }
                }
                let ks = String::from_str(key);
                let ghost vv = nbt_view(v);
                match Nbt::find_key(&m, &ks) {
                    Some(i) => {
                        m.set(i, (ks, v));
                    },
                    None => {
                        m.push((ks, v));
                    },
                }
                let r = Nbt::Compound(m);
                proof {
                    if let NbtV::Compound(s2) = nbt_view(r) {
                        assert(s2 =~= compound_set(mv, key@, vv));
                    }
                }
                *self = r;
            },
            other => {
                *self = other;
            },
        }
    }

    /// In a compound, the value of the first entry named `key`.
    pub fn get(&self, key: &str) -> (r: Option<&Nbt>)
        ensures
            match nbt_view(*self) {
                NbtV::Compound(m) => if key_pos(m, key@, 0) < 0 { r is None } else {
                    r matches Some(x) && nbt_view(*x) == m[key_pos(m, key@, 0)].1
                },
                _ => r is None,
            },
    {
        match self {
            Nbt::Compound(m) => {
                let ghost mv = Seq::new(m@.len(), |i: int| if 0 <= i < m@.len() { (m@[i].0@, nbt_view(m@[i].1)) } else { (Seq::empty(), NbtV::Byte(0)) });
                proof {
                    if let NbtV::Compound(s2) = nbt_view(*self) {
                        assert(s2 =~= mv);
                    }
                }
                let ks = String::from_str(key);
                match Nbt::find_key(m, &ks) {
                    Some(i) => Some(&m[i].1),
                    None => None,
                }
            },
            _ => None,
        }
    }

    /// The value of an integer tag (byte, short, int or long).
    pub fn as_i64(&self) -> (r: Option<i64>)
        ensures
            r == match nbt_view(*self) {
                NbtV::Byte(x) => Some(x as i64),
                NbtV::Short(x) => Some(x as i64),
                NbtV::Int(x) => Some(x as i64),
                NbtV::Long(x) => Some(x),
                _ => None::<i64>,
            },
    {
        match self {
            Nbt::Byte(v) => Some(*v as i64),
            Nbt::Short(v) => Some(*v as i64),
            Nbt::Int(v) => Some(*v as i64),
            Nbt::Long(v) => Some(*v),
            _ => None,
        }
    }

    /// The text of a string tag.
    pub fn as_str(&self) -> (r: Option<&str>)
        ensures
            match nbt_view(*self) {
                NbtV::Str(t) => r matches Some(x) && x@ == t,
                _ => r is None,
            },
    {
        match self {
            Nbt::Str(s) => Some(s.as_str()),
            _ => None,
        }
    }
}
} // verus!
