//! JSON text: quoting and escaping strings on output, and the lexical
//! reader of JSON documents (white space, literals, escaped strings).
use vstd::prelude::*;
use vstd::string::{StringExecFns, StringSliceAdditionalSpecFns};
use vstd::utf8::{valid_utf8, decode_utf8, encode_utf8, encode_scalar, has_width_1_encoding,
    has_width_2_encoding, has_width_3_encoding, has_width_4_encoding};
use crate::text::{chars_of, push_char};

verus! {

/// The lowercase hexadecimal digit of `v` (below 16).
pub open spec fn hex_digit(v: int) -> char {
    seq!['0', '1', '2', '3', '4', '5', '6', '7', '8', '9', 'a', 'b', 'c', 'd', 'e', 'f'][v]
}

/// How one character is written inside a JSON string: quote, backslash,
/// newline, carriage return and tab by their short escapes, the other
/// control characters as `\u00XX` (lowercase hex), the rest as they are.
pub open spec fn json_escape(c: char) -> Seq<char> {
    if c == '"' {
        seq!['\\', '"']
    } else if c == '\\' {
        seq!['\\', '\\']
    } else if c == '\n' {
        seq!['\\', 'n']
    } else if c == '\r' {
        seq!['\\', 'r']
    } else if c == '\t' {
        seq!['\\', 't']
    } else if (c as u32) < 0x20 {
        seq!['\\', 'u', '0', '0', hex_digit(((c as u32) / 16) as int), hex_digit(((c as u32) % 16) as int)]
    } else {
        seq![c]
    }
}

/// The characters of `s`, each escaped.
pub open spec fn json_escaped(s: Seq<char>) -> Seq<char>
    decreases s.len(),
{
    if s.len() == 0 {
        Seq::empty()
    } else {
        json_escaped(s.drop_last()) + json_escape(s.last())
    }
}

/// `s` as a JSON string literal.
pub open spec fn json_quoted(s: Seq<char>) -> Seq<char> {
    seq!['"'] + json_escaped(s) + seq!['"']
}

/// Appends the hexadecimal digit of `v`.
fn push_hex(out: &mut String, v: u32)
    requires
        v < 16,
    ensures
        final(out)@ == old(out)@.push(hex_digit(v as int)),
{
    let digits: [char; 16] = ['0', '1', '2', '3', '4', '5', '6', '7', '8', '9', 'a', 'b', 'c', 'd', 'e', 'f'];
    assert(digits@ =~= seq!['0', '1', '2', '3', '4', '5', '6', '7', '8', '9', 'a', 'b', 'c', 'd', 'e', 'f']);
    push_char(out, digits[v as usize]);
}

/// Appends one escaped character.
fn push_escaped(out: &mut String, c: char)
    ensures
        final(out)@ == old(out)@ + json_escape(c),
{
    let ghost o = out@;
    if c == '"' {
        push_char(out, '\\');
        push_char(out, '"');
    } else if c == '\\' {
        push_char(out, '\\');
        push_char(out, '\\');
    } else if c == '\n' {
        push_char(out, '\\');
        push_char(out, 'n');
    } else if c == '\r' {
        push_char(out, '\\');
        push_char(out, 'r');
    } else if c == '\t' {
        push_char(out, '\\');
        push_char(out, 't');
    } else if (c as u32) < 0x20 {
        push_char(out, '\\');
        push_char(out, 'u');
        push_char(out, '0');
        push_char(out, '0');
        push_hex(out, (c as u32) / 16);
        push_hex(out, (c as u32) % 16);
    } else {
        push_char(out, c);
    }
    assert(out@ =~= o + json_escape(c));
}

/// Appends `s` as a JSON string literal, quoted and escaped.
pub fn write_json_string(s: &str, out: &mut String)
    ensures
        final(out)@ == old(out)@ + json_quoted(s@),
{
    let cs = chars_of(s);
    let ghost o = out@;
    push_char(out, '"');
    for i in 0usize..cs.len()
        invariant
            cs@ == s@,
            out@ == o + seq!['"'] + json_escaped(cs@.subrange(0, i as int)),
    {
        push_escaped(out, cs[i]);
        proof {
            let t = cs@.subrange(0, i + 1);
            assert(t.drop_last() =~= cs@.subrange(0, i as int));
            assert(t.last() == cs@[i as int]);
        }
    }
    push_char(out, '"');
    proof {
        assert(cs@.subrange(0, cs@.len() as int) =~= cs@);
        assert(out@ =~= o + json_quoted(s@));
    }
}

// ---------------------------------------------------------------- reading

/// JSON white space: space, tab, newline, carriage return.
pub open spec fn is_ws(c: u8) -> bool {
    c == 0x20 || c == 0x09 || c == 0x0A || c == 0x0D
}

/// The first position from `p` on that is not white space.
pub open spec fn ws_end(b: Seq<u8>, p: int) -> int
    decreases b.len() - p,
{
    if 0 <= p < b.len() && is_ws(b[p]) {
        ws_end(b, p + 1)
    } else {
        p
    }
}

/// The value of a hexadecimal digit (either case).
pub open spec fn hex_val(c: u8) -> Option<u32> {
    if 0x30 <= c <= 0x39 {
        Some((c - 0x30) as u32)
    } else if 0x61 <= c <= 0x66 {
        Some((c - 0x61 + 10) as u32)
    } else if 0x41 <= c <= 0x46 {
        Some((c - 0x41 + 10) as u32)
    } else {
        None
    }
}

/// Four bytes at `p` read as a hexadecimal number the way
/// `u32::from_str_radix` reads them: four digits, or a `+` and three.
pub open spec fn hex4_at(b: Seq<u8>, p: int) -> Option<u32> {
    if p < 0 || p + 4 > b.len() {
        None
    } else if b[p] == 0x2B {
        match (hex_val(b[p + 1]), hex_val(b[p + 2]), hex_val(b[p + 3])) {
            (Some(x), Some(y), Some(z)) => Some((x * 256 + y * 16 + z) as u32),
            _ => None,
        }
    } else {
        match (hex_val(b[p]), hex_val(b[p + 1]), hex_val(b[p + 2]), hex_val(b[p + 3])) {
            (Some(w), Some(x), Some(y), Some(z)) => Some((w * 4096 + x * 256 + y * 16 + z) as u32),
            _ => None,
        }
    }
}

/// The character with code point `cp`, or U+FFFD when `cp` is a surrogate
/// or beyond U+10FFFF.
pub open spec fn char_or_replacement(cp: int) -> char {
    if (0 <= cp < 0xD800) || (0xE000 <= cp <= 0x10FFFF) {
        cp as char
    } else {
        '\u{FFFD}'
    }
}

/// The character a one-letter escape stands for: `\"`, `\\`, `\/`, `\n`,
/// `\r`, `\t`, `\b`, `\f`.
pub open spec fn short_escape(e: u8) -> Option<char> {
    if e == 0x22 { Some('"') }
    else if e == 0x5C { Some('\\') }
    else if e == 0x2F { Some('/') }
    else if e == 0x6E { Some('\n') }
    else if e == 0x72 { Some('\r') }
    else if e == 0x74 { Some('\t') }
    else if e == 0x62 { Some('\u{8}') }
    else if e == 0x66 { Some('\u{c}') }
    else { None }
}

/// Bytes taken by a UTF-8 sequence with lead byte `c` (0x80 and over).
pub open spec fn lead_len(c: u8) -> int {
    if c >= 0xF0 { 4 } else if c >= 0xE0 { 3 } else { 2 }
}

/// One escape of a JSON string, its backslash just read and `q1` the byte
/// after it: what is read and where reading goes on. The kind is 0 to go
/// on, 2 for a malformed escape, 3 for a high surrogate followed by an
/// escape below U+DC00, where the surrogate arithmetic underflows.
pub open spec fn esc_step(b: Seq<u8>, q1: int, acc: Seq<char>) -> (int, int, Seq<char>) {
    if q1 < 0 || q1 >= b.len() {
        (2, q1, acc)
    } else {
        let e = b[q1];
        let q2 = q1 + 1;
        if e == 0x75 {
            match hex4_at(b, q2) {
                None => (2, q2, acc),
                Some(h) => {
                    let q3 = q2 + 4;
                    if 0xD800 <= h < 0xDC00 {
                        if !(q3 + 2 <= b.len() && b[q3] == 0x5C && b[q3 + 1] == 0x75) {
                            (2, q3, acc)
                        } else {
                            let q4 = q3 + 2;
                            match hex4_at(b, q4) {
                                None => (2, q4, acc),
                                Some(h2) => if h2 < 0xDC00 {
                                    (3, q4 + 4, acc)
                                } else {
                                    (0, q4 + 4, acc.push(char_or_replacement(0x10000 + (h - 0xD800) * 1024 + (h2 - 0xDC00))))
                                },
                            }
                        }
                    } else {
                        (0, q3, acc.push(char_or_replacement(h as int)))
                    }
                },
            }
        } else {
            match short_escape(e) {
                Some(ch) => (0, q2, acc.push(ch)),
                None => (2, q2, acc),
            }
        }
    }
}

/// One step through a JSON string at byte `q`, `acc` read so far: kind 0 to
/// go on (with where and what has been read), 1 at the closing quote, 2 at
/// a malformed spot, 3 as in `esc_step`.
pub open spec fn str_step(b: Seq<u8>, q: int, acc: Seq<char>) -> (int, int, Seq<char>) {
    if q < 0 || q >= b.len() {
        (2, q, acc)
    } else {
        let c = b[q];
        let q1 = q + 1;
        if c == 0x22 {
            (1, q1, acc)
        } else if c == 0x5C {
            esc_step(b, q1, acc)
        } else if c < 0x80 {
            (0, q1, acc.push(c as char))
        } else {
            let n = lead_len(c);
            if q + n > b.len() {
                (2, q1, acc)
            } else if valid_utf8(b.subrange(q, q + n)) {
                (0, q + n, acc + decode_utf8(b.subrange(q, q + n)))
            } else {
                (2, q1, acc)
            }
        }
    }
}

/// The rest of a JSON string from byte `q` (after its opening quote), `acc`
/// read so far: the characters read when the closing quote comes, or
/// `None` at a malformed spot; where reading stops; and whether it meets a
/// high surrogate escape followed by an escape below U+DC00.
pub open spec fn str_scan(b: Seq<u8>, q: int, acc: Seq<char>) -> (Option<Seq<char>>, int, bool)
    decreases b.len() - q,
{
    let (k, p, a) = str_step(b, q, acc);
    if k == 0 {
        if q < p <= b.len() { str_scan(b, p, a) } else { (None, p, false) }
    } else if k == 1 {
        (Some(a), p, false)
    } else if k == 2 {
        (None, p, false)
    } else {
        (None, p, true)
    }
}

/// `char::from_u32`: the character with scalar value `v`, if there is one
/// (not a surrogate, at most U+10FFFF).
#[verifier::external_body]
fn char_from_u32(v: u32) -> (r: Option<char>)
    ensures
        r == if v < 0xD800 || (0xE000 <= v <= 0x10FFFF) { Some(v as char) } else { None::<char> },
{
    char::from_u32(v)
}

/// `std::str::from_utf8`: the text of `b` when it is valid UTF-8.
#[verifier::external_body]
fn utf8_text(b: &[u8]) -> (r: Option<&str>)
    ensures
        r is Some <==> valid_utf8(b@),
        r matches Some(t) ==> t@ == decode_utf8(b@),
{
    std::str::from_utf8(b).ok()
}

/// A reader over the UTF-8 bytes of a JSON document.
pub struct P<'a> {
    b: &'a [u8],
    p: usize,
}

impl<'a> P<'a> {
    #[verifier::type_invariant]
    spec fn inside(&self) -> bool {
        self.p <= self.b@.len()
    }

    /// The bytes read.
    pub closed spec fn bytes(&self) -> Seq<u8> {
        self.b@
    }

    /// The read position.
    pub closed spec fn at(&self) -> int {
        self.p as int
    }

    pub fn new(b: &'a [u8]) -> (r: P<'a>)
        ensures
            r.bytes() == b@,
            r.at() == 0,
    {
        P { b, p: 0 }
    }

    /// Where the next read starts.
    pub fn pos(&self) -> (r: usize)
        ensures
            r as int == self.at(),
            r <= self.bytes().len(),
    {
        proof { use_type_invariant(self); }
        self.p
    }

    /// Skips white space.
    pub fn ws(&mut self)
        ensures
            final(self).bytes() == old(self).bytes(),
            final(self).at() == ws_end(old(self).bytes(), old(self).at()),
    {
        proof { use_type_invariant(&*self); }
        while self.p < self.b.len() && (self.b[self.p] == 0x20 || self.b[self.p] == 0x09 || self.b[self.p] == 0x0A || self.b[self.p] == 0x0D)
            invariant
                self.b@ == old(self).b@,
                self.p <= self.b@.len(),
                ws_end(self.b@, old(self).p as int) == ws_end(self.b@, self.p as int),
            decreases self.b@.len() - self.p,
        {
            self.p += 1;
        }
    }

    /// The next byte, if any.
    pub fn peek(&self) -> (r: Option<u8>)
        ensures
            r == if self.at() < self.bytes().len() { Some(self.bytes()[self.at()]) } else { None::<u8> },
    {
        proof { use_type_invariant(self); }
        if self.p < self.b.len() { Some(self.b[self.p]) } else { None }
    }

    /// Takes the byte `c` if it comes next.
    pub fn eat(&mut self, c: u8) -> (r: Option<()>)
        ensures
            final(self).bytes() == old(self).bytes(),
            ({
                let hit = old(self).at() < old(self).bytes().len() && old(self).bytes()[old(self).at()] == c;
                &&& (r is Some) == hit
                &&& final(self).at() == if hit { old(self).at() + 1 } else { old(self).at() }
            }),
    {
        proof { use_type_invariant(&*self); }
        if self.p < self.b.len() && self.b[self.p] == c {
            self.p += 1;
            Some(())
        } else {
            None
        }
    }

    /// Takes the bytes `s` if they come next.
    fn lit_bytes(&mut self, s: &[u8]) -> (r: Option<()>)
        ensures
            final(self).bytes() == old(self).bytes(),
            ({
                let hit = old(self).at() + s@.len() <= old(self).bytes().len()
                    && old(self).bytes().subrange(old(self).at(), old(self).at() + s@.len()) == s@;
                &&& (r is Some) == hit
                &&& final(self).at() == if hit { old(self).at() + s@.len() } else { old(self).at() }
            }),
    {
        proof { use_type_invariant(&*self); }
        if s.len() > self.b.len() - self.p {
            return None;
        }
        let n = self.b.len();
        let mut k: usize = 0;
        while k < s.len()
            invariant
                n == self.b@.len(),
                self.b@ == old(self).b@,
                self.p == old(self).p,
                self.p + s@.len() <= self.b@.len(),
                k <= s@.len(),
                forall|j: int| 0 <= j < k ==> self.b@[self.p + j] == s@[j],
            decreases s.len() - k,
        {
            if self.b[self.p + k] != s[k] {
                proof {
                    assert(self.b@.subrange(self.p as int, self.p + s@.len())[k as int] != s@[k as int]);
                }
                return None;
            }
            k += 1;
        }
        assert(self.b@.subrange(self.p as int, self.p + s@.len()) =~= s@);
        self.p += s.len();
        Some(())
    }

    /// Takes the text `s` if its bytes come next.
    pub fn lit(&mut self, s: &str) -> (r: Option<()>)
        ensures
            final(self).bytes() == old(self).bytes(),
            ({
                let t = s.spec_bytes();
                let hit = old(self).at() + t.len() <= old(self).bytes().len()
                    && old(self).bytes().subrange(old(self).at(), old(self).at() + t.len()) == t;
                &&& (r is Some) == hit
                &&& final(self).at() == if hit { old(self).at() + t.len() } else { old(self).at() }
            }),
    {
        self.lit_bytes(s.as_bytes())
    }

    /// Four hexadecimal digits (a `\u` escape).
    pub fn hex4(&mut self) -> (r: Option<u32>)
        ensures
            final(self).bytes() == old(self).bytes(),
            r == hex4_at(old(self).bytes(), old(self).at()),
            final(self).at() == if r is Some { old(self).at() + 4 } else { old(self).at() },
    {
        proof { use_type_invariant(&*self); }
        if self.b.len() - self.p < 4 {
            return None;
        }
        let p = self.p;
        let v = if self.b[p] == 0x2B {
            match (hex_digit_val(self.b[p + 1]), hex_digit_val(self.b[p + 2]), hex_digit_val(self.b[p + 3])) {
                (Some(x), Some(y), Some(z)) => x * 256 + y * 16 + z,
                _ => return None,
            }
        } else {
            match (hex_digit_val(self.b[p]), hex_digit_val(self.b[p + 1]), hex_digit_val(self.b[p + 2]), hex_digit_val(self.b[p + 3])) {
                (Some(w), Some(x), Some(y), Some(z)) => w * 4096 + x * 256 + y * 16 + z,
                _ => return None,
            }
        };
        self.p += 4;
        Some(v)
    }

    /// One escape, its backslash just read.
    #[verifier::rlimit(40)]
    fn escape(&mut self, s: &mut String) -> (k: u8)
        ensures
            final(self).bytes() == old(self).bytes(),
            (k as int, final(self).at(), final(s)@) == esc_step(old(self).bytes(), old(self).at(), old(s)@),
            k == 0 ==> old(self).at() < final(self).at() <= final(self).bytes().len(),
    {
        proof { use_type_invariant(&*self); }
        let ghost b = self.b@;
        if self.p >= self.b.len() {
            return 2;
        }
        let e = self.b[self.p];
        self.p += 1;
        if e == 0x75 {
            let h = match self.hex4() {
                Some(h) => h,
                None => return 2,
            };
            if 0xD800 <= h && h < 0xDC00 {
                let bs: [u8; 2] = [0x5C, 0x75];
                assert(bs@ =~= seq![0x5Cu8, 0x75u8]);
                let q3 = self.p;
                if self.lit_bytes(bs.as_slice()).is_none() {
                    proof {
                        if q3 + 2 <= b.len() && b[q3 as int] == 0x5C && b[q3 + 1] == 0x75 {
                            assert(b.subrange(q3 as int, q3 + 2) =~= bs@);
                        }
                    }
                    return 2;
                }
                proof {
                    assert(b.subrange(q3 as int, q3 + 2)[0] == 0x5C && b.subrange(q3 as int, q3 + 2)[1] == 0x75);
                }
                let h2 = match self.hex4() {
                    Some(h2) => h2,
                    None => return 2,
                };
                if h2 < 0xDC00 {
                    return 3;
                }
                let hd: u32 = h - 0xD800;
                proof {
                    assert(hd << 10u32 == hd * 1024) by (bit_vector)
                        requires hd < 0x400u32;
                }
                let cp = 0x10000 + (hd << 10) + (h2 - 0xDC00);
                match char_from_u32(cp) {
                    Some(ch) => push_char(s, ch),
                    None => push_char(s, '\u{FFFD}'),
                }
            } else {
                match char_from_u32(h) {
                    Some(ch) => push_char(s, ch),
                    None => push_char(s, '\u{FFFD}'),
                }
            }
            0
        } else if e == 0x22 {
            push_char(s, '"');
            0
        } else if e == 0x5C {
            push_char(s, '\\');
            0
        } else if e == 0x2F {
            push_char(s, '/');
            0
        } else if e == 0x6E {
            push_char(s, '\n');
            0
        } else if e == 0x72 {
            push_char(s, '\r');
            0
        } else if e == 0x74 {
            push_char(s, '\t');
            0
        } else if e == 0x62 {
            push_char(s, '\u{8}');
            0
        } else if e == 0x66 {
            push_char(s, '\u{c}');
            0
        } else {
            2
        }
    }

    /// One step through a string.
    fn str_step(&mut self, s: &mut String) -> (k: u8)
        ensures
            final(self).bytes() == old(self).bytes(),
            (k as int, final(self).at(), final(s)@) == str_step(old(self).bytes(), old(self).at(), old(s)@),
            k == 0 ==> old(self).at() < final(self).at() <= final(self).bytes().len(),
    {
        proof { use_type_invariant(&*self); }
        if self.p >= self.b.len() {
            return 2;
        }
        let c = self.b[self.p];
        self.p += 1;
        if c == 0x22 {
            1
        } else if c == 0x5C {
            self.escape(s)
        } else if c < 0x80 {
            push_char(s, c as char);
            0
        } else {
            let start = self.p - 1;
            let len: usize = if c >= 0xF0 { 4 } else if c >= 0xE0 { 3 } else { 2 };
            if len > self.b.len() - start {
                return 2;
            }
            let sub = match utf8_text(&self.b[start..start + len]) {
                Some(t) => t,
                None => return 2,
            };
            s.append(sub);
            self.p = start + len;
            0
        }
    }

    /// Whether `string` can read here: false exactly where a high surrogate
    /// escape is followed by an escape below U+DC00, whose pairing
    /// arithmetic would underflow.
    pub fn string_fits(&self) -> (r: bool)
        ensures
            r == !(self.at() < self.bytes().len() && self.bytes()[self.at()] == 0x22
                && str_scan(self.bytes(), self.at() + 1, Seq::empty()).2),
    {
        proof { use_type_invariant(self); }
        let mut q = P { b: self.b, p: self.p };
        if q.eat(0x22).is_none() {
            return true;
        }
        let ghost b = self.b@;
        let ghost total = str_scan(b, q.at(), Seq::empty());
        let mut s = String::new();
        loop
            invariant
                q.bytes() == b,
                b == self.bytes(),
                str_scan(b, q.at(), s@) == total,
                self.at() < b.len() && b[self.at()] == 0x22,
                total == str_scan(self.bytes(), self.at() + 1, Seq::empty()),
            decreases b.len() - q.at(),
        {
            proof { use_type_invariant(&q); }
            let k = q.str_step(&mut s);
            if k == 3 {
                return false;
            }
            if k != 0 {
                return true;
            }
        }
    }

    /// A JSON string (the reader on its opening quote): escapes decoded,
    /// surrogate pairs joined, invalid code points read as U+FFFD.
    pub fn string(&mut self) -> (r: Option<String>)
        requires
            !(old(self).at() < old(self).bytes().len() && old(self).bytes()[old(self).at()] == 0x22
                && str_scan(old(self).bytes(), old(self).at() + 1, Seq::empty()).2),
        ensures
            final(self).bytes() == old(self).bytes(),
            if old(self).at() < old(self).bytes().len() && old(self).bytes()[old(self).at()] == 0x22 {
                let (v, q, _) = str_scan(old(self).bytes(), old(self).at() + 1, Seq::empty());
                &&& final(self).at() == q
                &&& match v {
                    Some(t) => r matches Some(s) && s@ == t,
                    None => r is None,
                }
            } else {
                r is None && final(self).at() == old(self).at()
            },
    {
        if self.eat(0x22).is_none() {
            return None;
        }
        let ghost b = self.b@;
        let ghost total = str_scan(b, self.at(), Seq::empty());
        let mut s = String::new();
        loop
            invariant
                self.bytes() == b,
                str_scan(b, self.at(), s@) == total,
                !total.2,
                b == old(self).bytes(),
                old(self).at() < b.len() && b[old(self).at()] == 0x22,
                total == str_scan(old(self).bytes(), old(self).at() + 1, Seq::empty()),
            decreases b.len() - self.at(),
        {
            proof { use_type_invariant(&*self); }
            let k = self.str_step(&mut s);
            if k == 1 {
                return Some(s);
            }
            if k != 0 {
                return None;
            }
        }
    }
}

/// The value of a hexadecimal digit.
fn hex_digit_val(c: u8) -> (r: Option<u32>)
    ensures
        r == hex_val(c),
        r matches Some(v) ==> v < 16,
{
    if 0x30 <= c && c <= 0x39 {
        Some((c - 0x30) as u32)
    } else if 0x61 <= c && c <= 0x66 {
        Some((c - 0x61 + 10) as u32)
    } else if 0x41 <= c && c <= 0x46 {
        Some((c - 0x41 + 10) as u32)
    } else {
        None
    }
}

// ---------------------------------------------------------------- round trip

proof fn lemma_encode_concat(a: Seq<char>, b: Seq<char>)
    ensures
        encode_utf8(a + b) == encode_utf8(a) + encode_utf8(b),
    decreases a.len(),
{
    if a.len() > 0 {
        assert((a + b).drop_first() =~= a.drop_first() + b);
        lemma_encode_concat(a.drop_first(), b);
        assert(encode_utf8(a + b) =~= encode_utf8(a) + encode_utf8(b));
    } else {
        assert(a + b =~= b);
    }
}

proof fn lemma_escaped_concat(a: Seq<char>, b: Seq<char>)
    ensures
        json_escaped(a + b) == json_escaped(a) + json_escaped(b),
    decreases b.len(),
{
    if b.len() > 0 {
        assert((a + b).drop_last() =~= a + b.drop_last());
        assert((a + b).last() == b.last());
        lemma_escaped_concat(a, b.drop_last());
        assert(json_escaped(a + b) =~= json_escaped(a) + json_escaped(b));
    } else {
        assert(a + b =~= a);
        assert(json_escaped(a) + json_escaped(b) =~= json_escaped(a));
    }
}

proof fn lemma_ascii_byte(v: u32)
    by (bit_vector)
    requires
        v < 0x80,
    ensures
        (v & 0x7F) as u8 == v as u8,
{
}

/// The UTF-8 bytes of characters below U+0080 are their code points.
proof fn lemma_encode_ascii(cs: Seq<char>)
    requires
        forall|i: int| 0 <= i < cs.len() ==> (#[trigger] cs[i] as u32) < 0x80,
    ensures
        encode_utf8(cs) == Seq::new(cs.len(), |i: int| (cs[i] as u32) as u8),
    decreases cs.len(),
{
    if cs.len() > 0 {
        let c = cs[0] as u32;
        lemma_ascii_byte(c);
        assert(has_width_1_encoding(c));
        assert(encode_scalar(c) == seq![(c as u32) as u8]);
        assert forall|i: int| 0 <= i < cs.drop_first().len() implies (#[trigger] cs.drop_first()[i] as u32) < 0x80 by {
            assert(cs.drop_first()[i] == cs[i + 1]);
        }
        lemma_encode_ascii(cs.drop_first());
        assert(encode_utf8(cs) =~= Seq::new(cs.len(), |i: int| (cs[i] as u32) as u8));
    } else {
        assert(encode_utf8(cs) =~= Seq::new(cs.len(), |i: int| (cs[i] as u32) as u8));
    }
}

proof fn lemma_hex_digit(v: int)
    requires
        0 <= v < 16,
    ensures
        (hex_digit(v) as u32) < 0x80,
        hex_val((hex_digit(v) as u32) as u8) == Some(v as u32),
        (hex_digit(v) as u32) as u8 != 0x2B,
{
    let t = seq!['0', '1', '2', '3', '4', '5', '6', '7', '8', '9', 'a', 'b', 'c', 'd', 'e', 'f'];
    assert(hex_digit(v) == t[v]);
}

proof fn lemma_lead_len(c: u32)
    by (bit_vector)
    requires
        0x80 <= c <= 0x10FFFF,
    ensures
        c <= 0x7FF ==> (0xC0u8 | ((c >> 6u32) & 0x1F) as u8) >= 0x80 && (0xC0u8 | ((c >> 6u32) & 0x1F) as u8) < 0xE0,
        0x800 <= c <= 0xFFFF ==> (0xE0u8 | ((c >> 12u32) & 0x0F) as u8) >= 0xE0 && (0xE0u8 | ((c >> 12u32) & 0x0F) as u8) < 0xF0,
        0x10000 <= c ==> (0xF0u8 | ((c >> 18u32) & 0x7) as u8) >= 0xF0,
{
}

/// The bytes written for one character read back, in one step, as that
/// character.
proof fn lemma_step_char(b: Seq<u8>, q: int, acc: Seq<char>, c: char)
    requires
        0 <= q,
        q + encode_utf8(json_escape(c)).len() <= b.len(),
        b.subrange(q, q + encode_utf8(json_escape(c)).len()) == encode_utf8(json_escape(c)),
    ensures
        encode_utf8(json_escape(c)).len() >= 1,
        str_step(b, q, acc) == (0int, q + encode_utf8(json_escape(c)).len(), acc.push(c)),
{
    let e = json_escape(c);
    let eb = encode_utf8(e);
    let cu = c as u32;
    vstd::utf8::char_u32_cast(c, cu);
    if cu < 0x80 {
        assert forall|i: int| 0 <= i < e.len() implies (#[trigger] e[i] as u32) < 0x80 by {
            if cu < 0x20 && c != '\n' && c != '\r' && c != '\t' && c != '"' && c != '\\' {
                lemma_hex_digit((cu / 16) as int);
                lemma_hex_digit((cu % 16) as int);
            }
        }
        lemma_encode_ascii(e);
        assert(b[q] == eb[0]);
        if c == '"' || c == '\\' || c == '\n' || c == '\r' || c == '\t' {
            assert(b[q + 1] == eb[1]);
        } else if cu < 0x20 {
            lemma_hex_digit((cu / 16) as int);
            lemma_hex_digit((cu % 16) as int);
            assert(b[q + 1] == eb[1]);
            assert(b[q + 2] == eb[2]);
            assert(b[q + 3] == eb[3]);
            assert(b[q + 4] == eb[4]);
            assert(b[q + 5] == eb[5]);
            assert(hex4_at(b, q + 2) == Some(cu));
            assert(char_or_replacement(cu as int) == c);
        } else {
            assert(eb[0] == cu as u8);
            assert((cu as u8) as char == c);
        }
    } else {
        assert(e == seq![c]);
        vstd::utf8::char_is_scalar(c);
        assert(encode_utf8(e) =~= encode_scalar(cu)) by {
            assert(e.drop_first() =~= Seq::<char>::empty());
            assert(e[0] == c);
            assert(encode_utf8(e.drop_first()) == Seq::<u8>::empty());
            assert(encode_utf8(e) == encode_scalar(e[0] as u32) + encode_utf8(e.drop_first()));
        }
        lemma_lead_len(cu);
        vstd::utf8::encode_utf8_valid_utf8(e);
        vstd::utf8::encode_utf8_decode_utf8(e);
        let n = eb.len() as int;
        assert(b[q] == eb[0]);
        assert(b.subrange(q, q + n) == eb);
        assert(acc + seq![c] =~= acc.push(c));
    }
}

proof fn lemma_scan_escaped(b: Seq<u8>, q: int, acc: Seq<char>, s: Seq<char>)
    requires
        0 <= q,
        q + encode_utf8(json_escaped(s)).len() + 1 <= b.len(),
        b.subrange(q, q + encode_utf8(json_escaped(s)).len()) == encode_utf8(json_escaped(s)),
        b[q + encode_utf8(json_escaped(s)).len()] == 0x22,
    ensures
        str_scan(b, q, acc) == (Some(acc + s), q + encode_utf8(json_escaped(s)).len() + 1, false),
    decreases s.len(),
{
    if s.len() == 0 {
        assert(json_escaped(s) == Seq::<char>::empty());
        assert(acc + s =~= acc);
    } else {
        let c = s[0];
        let rest = s.drop_first();
        assert(s =~= seq![c] + rest);
        lemma_escaped_concat(seq![c], rest);
        assert(json_escaped(seq![c]) == json_escape(c)) by {
            let one = seq![c];
            assert(one.drop_last() =~= Seq::<char>::empty());
            assert(one.last() == c);
            assert(json_escaped(one.drop_last()) == Seq::<char>::empty());
            assert(json_escaped(one) == json_escaped(one.drop_last()) + json_escape(one.last()));
            assert(Seq::<char>::empty() + json_escape(c) =~= json_escape(c));
        }
        lemma_encode_concat(json_escape(c), json_escaped(rest));
        let ec = encode_utf8(json_escape(c));
        let er = encode_utf8(json_escaped(rest));
        assert(encode_utf8(json_escaped(s)) == ec + er);
        assert(b.subrange(q, q + ec.len()) =~= ec) by {
            assert forall|i: int| 0 <= i < ec.len() implies b.subrange(q, q + ec.len())[i] == ec[i] by {
                assert(b.subrange(q, q + (ec + er).len())[i] == (ec + er)[i]);
            }
        }
        lemma_step_char(b, q, acc, c);
        let q2 = q + ec.len();
        assert(b.subrange(q2, q2 + er.len()) =~= er) by {
            assert forall|i: int| 0 <= i < er.len() implies b.subrange(q2, q2 + er.len())[i] == er[i] by {
                assert(b.subrange(q, q + (ec + er).len())[ec.len() + i] == (ec + er)[ec.len() + i]);
            }
        }
        lemma_scan_escaped(b, q2, acc.push(c), rest);
        assert(acc.push(c) + rest =~= acc + s);
    }
}

/// A string written by `write_json_string`, as UTF-8 bytes and whatever
/// follows it, reads back with `P::string` as the same string, reading
/// stopping right after the closing quote.
pub proof fn json_string_roundtrip(s: Seq<char>, rest: Seq<u8>)
    ensures
        ({
            let w = encode_utf8(json_quoted(s));
            let t = w + rest;
            &&& t[0] == 0x22
            &&& str_scan(t, 1, Seq::empty()) == (Some(s), w.len() as int, false)
        }),
{
    let q: Seq<char> = seq!['"'];
    let es = json_escaped(s);
    lemma_encode_concat(q + es, q);
    lemma_encode_concat(q, es);
    lemma_encode_ascii(q);
    let eq = encode_utf8(q);
    assert(eq =~= seq![0x22u8]);
    let ee = encode_utf8(es);
    let w = encode_utf8(json_quoted(s));
    assert(w == eq + ee + eq);
    let t = w + rest;
    assert(t.subrange(1, 1 + ee.len() as int) =~= ee);
    assert(t[1 + ee.len() as int] == 0x22);
    lemma_scan_escaped(t, 1, Seq::empty(), s);
    assert(Seq::<char>::empty() + s =~= s);
}

} // verus!
