//! PNG images: RGBA pixel buffers, the PNG decoder (bit depths 1 to 8,
//! colour types 0, 2, 3, 4 and 6, no interlacing) and a small encoder.
use vstd::prelude::*;
use vstd::arithmetic::div_mod::{lemma_fundamental_div_mod_converse_div, lemma_fundamental_div_mod_converse_mod};
use crate::bytes::{be_value, be_bytes, le_bytes, le_value, get_be, push_be, push_le, lemma_be_value_bound, lemma_be_roundtrip, lemma_le_roundtrip, pow256};
use crate::anvil::{adler32, adler32_spec, crc32, crc32_spec};
use crate::mcproto::push_bytes;

verus! {

/// `(y * n + x) / n == y` and `(y * n + x) % n == x` for `x < n`.
proof fn lemma_idx(y: int, x: int, n: int)
    requires
        0 <= x < n,
    ensures
        (y * n + x) / n == y,
        (y * n + x) % n == x,
{
    lemma_fundamental_div_mod_converse_div(y * n + x, n, y, x);
    lemma_fundamental_div_mod_converse_mod(y * n + x, n, y, x);
}

/// An image of `w` by `h` pixels, four bytes each (red, green, blue, alpha),
/// row by row.
pub struct Rgba {
    pub w: u32,
    pub h: u32,
    pub px: Vec<u8>,
}

/// Distance between two bytes.
pub open spec fn byte_diff(a: u8, b: u8) -> int {
    if a >= b { a - b } else { b - a }
}

/// Every pixel with some alpha has red, green and blue within `tol` of
/// each other (a trailing partial pixel is ignored).
pub open spec fn gray_within(px: Seq<u8>, tol: u8) -> bool {
    forall|i: int| 0 <= i < px.len() / 4 && px[4 * i + 3] > 0 ==>
        byte_diff(#[trigger] px[4 * i], px[4 * i + 1]) <= tol && byte_diff(px[4 * i + 1], px[4 * i + 2]) <= tol
}

/// The pixels, width and height an image is resampled from: the first frame
/// of a vertical animation strip (height a multiple of the width), else the
/// whole image.
pub open spec fn tile_source(px: Seq<u8>, w: int, h: int) -> (Seq<u8>, int, int) {
    if h > w && h % w == 0 {
        (px.subrange(0, w * w * 4), w, w)
    } else {
        (px, w, h)
    }
}

/// Byte `k` of the nearest-neighbour resample to `size` by `size` of the
/// `w` by `h` image `px`: zero where the source pixel is missing.
pub open spec fn tile_byte(px: Seq<u8>, w: int, h: int, size: int, k: int) -> u8 {
    let p = k / 4;
    let y = p / size;
    let x = p % size;
    let s = (((y * h) / (size as int)) * w + (x * w) / (size as int)) * 4;
    if s + 3 < px.len() {
        px[s + k % 4]
    } else {
        0
    }
}

impl Rgba {
    /// All pixels with alpha > 0 have r == g == b (within `tol`).
    pub fn is_grayscale(&self, tol: u8) -> (r: bool)
        ensures
            r == gray_within(self.px@, tol),
    {
        let len = self.px.len();
        let n = len / 4;
        for i in 0usize..n
            invariant
                len == self.px@.len(),
                n == self.px@.len() / 4,
                forall|j: int| 0 <= j < i && self.px@[4 * j + 3] > 0 ==>
                    byte_diff(#[trigger] self.px@[4 * j], self.px@[4 * j + 1]) <= tol
                    && byte_diff(self.px@[4 * j + 1], self.px@[4 * j + 2]) <= tol,
            ensures
                gray_within(self.px@, tol),
        {
            proof {
                assert(4 * (i as int) + 3 < len) by (nonlinear_arith)
                    requires i < n, n == len / 4;
            }
            let o = 4 * i;
            if self.px[o + 3] > 0 {
                let d1 = if self.px[o] >= self.px[o + 1] { self.px[o] - self.px[o + 1] } else { self.px[o + 1] - self.px[o] };
                let d2 = if self.px[o + 1] >= self.px[o + 2] { self.px[o + 1] - self.px[o + 2] } else { self.px[o + 2] - self.px[o + 1] };
                if d1 > tol || d2 > tol {
                    assert(self.px@[4 * (i as int) + 3] > 0);
                    return false;
                }
            }
            assert(self.px@[4 * (i as int) + 3] > 0 ==> byte_diff(self.px@[4 * (i as int)], self.px@[4 * (i as int) + 1]) <= tol
                && byte_diff(self.px@[4 * (i as int) + 1], self.px@[4 * (i as int) + 2]) <= tol);
            assert forall|j: int| 0 <= j < i + 1 && self.px@[4 * j + 3] > 0 implies
                byte_diff(#[trigger] self.px@[4 * j], self.px@[4 * j + 1]) <= tol
                    && byte_diff(self.px@[4 * j + 1], self.px@[4 * j + 2]) <= tol by {
                if j == i {
                } else {
                    assert(j < i);
                }
            }
        }
        true
    }

    /// Nearest-neighbour resample to `size` by `size`. Animation strips
    /// (height = n * width) are cropped to their first frame first.
    pub fn to_tile(&self, size: u32) -> (r: Rgba)
        requires
            self.w > 0 || self.h == 0,
            self.w * self.h * 4 <= u32::MAX,
            size * size * 4 <= u32::MAX,
            self.h > self.w && self.h % self.w == 0 ==> self.px@.len() >= self.w * self.w * 4,
        ensures
            r.w == size,
            r.h == size,
            r.px@.len() == size * size * 4,
            forall|k: int| 0 <= k < size * size * 4 ==> #[trigger] r.px@[k] == tile_byte(
                tile_source(self.px@, self.w as int, self.h as int).0,
                tile_source(self.px@, self.w as int, self.h as int).1,
                tile_source(self.px@, self.w as int, self.h as int).2,
                size as int, k),
    {
        let ghost src = tile_source(self.px@, self.w as int, self.h as int);
        let crop = self.h > self.w && self.h % self.w == 0;
        let w = self.w;
        let h = if crop { self.w } else { self.h };
        proof {
            if crop {
                assert(self.w * self.w * 4 <= self.w * self.h * 4) by (nonlinear_arith)
                    requires self.w <= self.h;
            }
        }
        let px: &[u8] = if crop {
            &self.px.as_slice()[0..(self.w * self.w * 4) as usize]
        } else {
            self.px.as_slice()
        };
        assert(px@ == src.0 && w == src.1 && h == src.2);
        assert(w * h * 4 <= u32::MAX) by (nonlinear_arith)
            requires w * self.h * 4 <= u32::MAX, h <= self.h;
        let total = (size * size * 4) as usize;
        let mut out = vec![0u8; total];
        assert forall|k: int| 0 <= k < total implies #[trigger] out@[k] == if k / 4 < 0 * size { tile_byte(src.0, w as int, h as int, size as int, k) } else { 0 } by {
            assert(k / 4 >= 0);
        }
        for y in 0..size
            invariant
                out@.len() == total,
                total == size * size * 4,
                size * size * 4 <= u32::MAX,
                w * h * 4 <= u32::MAX,
                w > 0 || h == 0,
                px@ == src.0,
                w == src.1,
                h == src.2,
                forall|k: int| 0 <= k < total ==> #[trigger] out@[k] == if k / 4 < y * size { tile_byte(src.0, w as int, h as int, size as int, k) } else { 0 },
        {
            proof {
                assert((y as u64) * (h as u64) <= 0xFFFF_FFFF_FFFF_FFFFu64) by (nonlinear_arith)
                    requires y <= 0xFFFF_FFFFu64, h <= 0xFFFF_FFFFu64;
                assert((y * h) / (size as int) <= h) by (nonlinear_arith) requires y < size, size > 0;
                if h > 0 {
                    assert((y * h) / (size as int) < h) by (nonlinear_arith) requires y < size, size > 0, h > 0;
                }
            }
            let sy = (y as u64 * h as u64 / size as u64) as u32;
            for x in 0..size
                invariant
                    out@.len() == total,
                    total == size * size * 4,
                    size * size * 4 <= u32::MAX,
                    w * h * 4 <= u32::MAX,
                    w > 0 || h == 0,
                    y < size,
                    sy == (y * h) / (size as int),
                    sy <= h,
                    px@ == src.0,
                    w == src.1,
                    h == src.2,
                    forall|k: int| 0 <= k < total ==> #[trigger] out@[k] == if k / 4 < y * size + x { tile_byte(src.0, w as int, h as int, size as int, k) } else { 0 },
            {
                proof {
                    assert((x as u64) * (w as u64) <= 0xFFFF_FFFF_FFFF_FFFFu64) by (nonlinear_arith)
                        requires x <= 0xFFFF_FFFFu64, w <= 0xFFFF_FFFFu64;
                    assert((x * w) / (size as int) <= w) by (nonlinear_arith) requires x < size, size > 0;
                    assert(y * size + x < size * size) by (nonlinear_arith) requires y < size, x < size;
                }
                let sx = (x as u64 * w as u64 / size as u64) as u32;
                proof {
                    if w > 0 {
                        assert((x * w) / (size as int) < w) by (nonlinear_arith) requires x < size, size > 0, w > 0;
                    }
                    assert(sy * w + sx <= w * (h + 1)) by (nonlinear_arith)
                        requires sy <= h, w > 0 ==> sx < w, w == 0 ==> sx == 0;
                }
                let p = y * size + x;
                let d = (p * 4) as usize;
                proof {
                    assert(w * (h + 1) <= 0x1_0000_0000 + 0x1_0000_0000) by (nonlinear_arith)
                        requires w * h * 4 <= u32::MAX, w <= u32::MAX;
                }
                let s64: u64 = (sy as u64 * w as u64 + sx as u64) * 4;
                let ghost before = out@;
                if px.len() > 3 && s64 < (px.len() - 3) as u64 {
                    let s = s64 as usize;
                    out.set(d, px[s]);
                    out.set(d + 1, px[s + 1]);
                    out.set(d + 2, px[s + 2]);
                    out.set(d + 3, px[s + 3]);
                }
                proof {
                    assert forall|k: int| 0 <= k < total implies #[trigger] out@[k] == if k / 4 < y * size + x + 1 { tile_byte(src.0, w as int, h as int, size as int, k) } else { 0 } by {
                        if d <= k < d + 4 {
                            assert(k / 4 == p && k % 4 == k - d);
                            lemma_idx(y as int, x as int, size as int);
                        } else {
                            assert(out@[k] == before[k]);
                        }
                    }
                }
            }
            proof {
                assert(y * size + size == (y + 1) * size) by (nonlinear_arith);
            }
        }
        Rgba { w: size, h: size, px: out }
    }
}

// ------------------------------------------------------------------ decoder

/// What the chunks of a PNG set: width, height, bit depth, colour type,
/// interlace method, palette (three bytes per entry), transparency and the
/// concatenated image data.
pub type PngState = (u32, u32, u8, u8, u8, Seq<u8>, Seq<u8>, Seq<u8>);

pub open spec fn tag_ihdr() -> Seq<u8> { seq![73u8, 72, 68, 82] }
pub open spec fn tag_plte() -> Seq<u8> { seq![80u8, 76, 84, 69] }
pub open spec fn tag_trns() -> Seq<u8> { seq![116u8, 82, 78, 83] }
pub open spec fn tag_idat() -> Seq<u8> { seq![73u8, 68, 65, 84] }
pub open spec fn tag_iend() -> Seq<u8> { seq![73u8, 69, 78, 68] }

/// The chunks from byte `pos` on, read into `st`: `None` when a chunk runs
/// past the end or a header is short; stops at IEND or when fewer than eight
/// bytes are left.
pub open spec fn png_scan(d: Seq<u8>, pos: int, st: PngState) -> Option<PngState>
    decreases d.len() - pos,
{
    if pos < 0 || pos + 8 > d.len() {
        Some(st)
    } else {
        let len = be_value(d.subrange(pos, pos + 4)) as int;
        let tag = d.subrange(pos + 4, pos + 8);
        let bs = pos + 8;
        if bs + len + 4 > d.len() {
            None
        } else {
            let body = d.subrange(bs, bs + len);
            let next = bs + len + 4;
            if tag == tag_ihdr() {
                if len < 13 {
                    None
                } else {
                    png_scan(d, next, (be_value(body.subrange(0, 4)) as u32, be_value(body.subrange(4, 8)) as u32,
                        body[8], body[9], body[12], st.5, st.6, st.7))
                }
            } else if tag == tag_plte() {
                png_scan(d, next, (st.0, st.1, st.2, st.3, st.4, body.subrange(0, 3 * (len / 3)), st.6, st.7))
            } else if tag == tag_trns() {
                png_scan(d, next, (st.0, st.1, st.2, st.3, st.4, st.5, body, st.7))
            } else if tag == tag_idat() {
                png_scan(d, next, (st.0, st.1, st.2, st.3, st.4, st.5, st.6, st.7 + body))
            } else if tag == tag_iend() {
                Some(st)
            } else {
                png_scan(d, next, st)
            }
        }
    }
}

proof fn lemma_tag4(s: Seq<u8>, t: Seq<u8>)
    requires
        s.len() == 4,
        t.len() == 4,
    ensures
        (s == t) == (s[0] == t[0] && s[1] == t[1] && s[2] == t[2] && s[3] == t[3]),
{
    if s[0] == t[0] && s[1] == t[1] && s[2] == t[2] && s[3] == t[3] {
        assert(s =~= t);
    }
}

/// Reads the chunks of a PNG after its signature.
fn scan_chunks(data: &[u8]) -> (r: Option<(u32, u32, u8, u8, u8, Vec<u8>, Vec<u8>, Vec<u8>)>)
    ensures
        match r {
            Some(t) => png_scan(data@, 8, (0, 0, 0, 0, 0, Seq::empty(), Seq::empty(), Seq::empty()))
                == Some((t.0, t.1, t.2, t.3, t.4, t.5@, t.6@, t.7@)),
            None => png_scan(data@, 8, (0, 0, 0, 0, 0, Seq::empty(), Seq::empty(), Seq::empty())) is None,
        },
{
    let ghost d = data@;
    let ghost init: PngState = (0, 0, 0, 0, 0, Seq::empty(), Seq::empty(), Seq::empty());
    let mut pos: usize = 8;
    let mut w: u32 = 0;
    let mut h: u32 = 0;
    let mut depth: u8 = 0;
    let mut ctype: u8 = 0;
    let mut interlace: u8 = 0;
    let mut palette: Vec<u8> = Vec::new();
    let mut trns: Vec<u8> = Vec::new();
    let mut idat: Vec<u8> = Vec::new();
    proof {
        assert(palette@ =~= Seq::<u8>::empty());
        assert(trns@ =~= Seq::<u8>::empty());
        assert(idat@ =~= Seq::<u8>::empty());
    }
    while pos <= data.len() && data.len() - pos >= 8
        invariant
            d == data@,
            init == (0u32, 0u32, 0u8, 0u8, 0u8, Seq::<u8>::empty(), Seq::<u8>::empty(), Seq::<u8>::empty()),
            png_scan(d, 8, init) == png_scan(d, pos as int, (w, h, depth, ctype, interlace, palette@, trns@, idat@)),
        ensures
            png_scan(d, 8, init) == Some((w, h, depth, ctype, interlace, palette@, trns@, idat@)),
        decreases data.len() - pos,
    {
        let ghost st: PngState = (w, h, depth, ctype, interlace, palette@, trns@, idat@);
        let len64 = get_be(data, pos, 4);
        proof {
            lemma_be_value_bound(d.subrange(pos as int, pos + 4));
            assert(pow256(4) == 0x1_0000_0000) by {
                assert(pow256(0) == 1);
                assert(pow256(1) == 256);
                assert(pow256(2) == 65536);
                assert(pow256(3) == 16777216);
            }
        }
        let bs = pos + 8;
        if data.len() - bs < 4 || ((data.len() - bs - 4) as u64) < len64 {
            assert(png_scan(d, pos as int, st) is None);
            return None;
        }
        let len = len64 as usize;
        let next = bs + len + 4;
        let ghost tag = d.subrange(pos + 4, pos + 8);
        let ghost body = d.subrange(bs as int, bs + len);
        let t0 = data[pos + 4];
        let t1 = data[pos + 5];
        let t2 = data[pos + 6];
        let t3 = data[pos + 7];
        proof {
            lemma_tag4(tag, tag_ihdr());
            lemma_tag4(tag, tag_plte());
            lemma_tag4(tag, tag_trns());
            lemma_tag4(tag, tag_idat());
            lemma_tag4(tag, tag_iend());
        }
        let body_slice = &data[bs..bs + len];
        if t0 == 73 && t1 == 72 && t2 == 68 && t3 == 82 {
            if len < 13 {
                assert(png_scan(d, pos as int, st) is None);
                return None;
            }
            w = get_be(body_slice, 0, 4) as u32;
            h = get_be(body_slice, 4, 4) as u32;
            proof {
                lemma_be_value_bound(body.subrange(0, 4));
                lemma_be_value_bound(body.subrange(4, 8));
            }
            depth = body_slice[8];
            ctype = body_slice[9];
            interlace = body_slice[12];
        } else if t0 == 80 && t1 == 76 && t2 == 84 && t3 == 69 {
            let n3 = 3 * (len / 3);
            palette = vstd::slice::slice_to_vec(&body_slice[0..n3]);
        } else if t0 == 116 && t1 == 82 && t2 == 78 && t3 == 83 {
            trns = vstd::slice::slice_to_vec(body_slice);
        } else if t0 == 73 && t1 == 68 && t2 == 65 && t3 == 84 {
            push_bytes(&mut idat, body_slice);
        } else if t0 == 73 && t1 == 69 && t2 == 78 && t3 == 68 {
            assert(png_scan(d, pos as int, st) == Some(st));
            break;
        }
        proof {
            assert(png_scan(d, pos as int, st) == png_scan(d, next as int, (w, h, depth, ctype, interlace, palette@, trns@, idat@)));
        }
        pos = next;
    }
    Some((w, h, depth, ctype, interlace, palette, trns, idat))
}

/// The Paeth predictor of PNG filter 4.
pub open spec fn paeth(a: int, b: int, c: int) -> int {
    let p = a + b - c;
    let pa = if p >= a { p - a } else { a - p };
    let pb = if p >= b { p - b } else { b - p };
    let pc = if p >= c { p - c } else { c - p };
    if pa <= pb && pa <= pc { a } else if pb <= pc { b } else { c }
}

/// A byte unfiltered with filter `f` from its filtered value `v`, the byte
/// to its left `a`, the one above `b` and the one above-left `c`.
pub open spec fn unfilter_byte(f: u8, v: u8, a: u8, b: u8, c: u8) -> u8 {
    let s = v as int;
    let r = if f == 0 {
        s
    } else if f == 1 {
        s + a
    } else if f == 2 {
        s + b
    } else if f == 3 {
        s + (a as int + b as int) / 2
    } else {
        s + paeth(a as int, b as int, c as int)
    };
    (r % 256) as u8
}

/// The first `x` bytes of a row unfiltered with filter `f` from `src`, `prev`
/// being the row above (when `has_prev`) and `bpp` the bytes per pixel.
pub open spec fn unfilter_row(prev: Seq<u8>, has_prev: bool, f: u8, src: Seq<u8>, bpp: int, x: int) -> Seq<u8>
    decreases x,
{
    if x <= 0 {
        Seq::empty()
    } else {
        let cur = unfilter_row(prev, has_prev, f, src, bpp, x - 1);
        let i = x - 1;
        let a = if i >= bpp { cur[i - bpp] } else { 0u8 };
        let b = if has_prev { prev[i] } else { 0u8 };
        let c = if i >= bpp && has_prev { prev[i - bpp] } else { 0u8 };
        cur.push(unfilter_byte(f, src[i], a, b, c))
    }
}

/// The first `y` rows of the image unfiltered from `raw`, each row being a
/// filter byte then `stride` bytes; `None` on a filter above 4.
pub open spec fn unfilter_rows(raw: Seq<u8>, stride: int, bpp: int, y: int) -> Option<Seq<u8>>
    decreases y,
{
    if y <= 0 {
        Some(Seq::empty())
    } else {
        match unfilter_rows(raw, stride, bpp, y - 1) {
            None => None,
            Some(img) => {
                let ro = (y - 1) * (stride + 1);
                let f = raw[ro];
                if f > 4 {
                    None
                } else {
                    let prev = if y > 1 { img.subrange(img.len() - stride, img.len() as int) } else { Seq::empty() };
                    Some(img + unfilter_row(prev, y > 1, f, raw.subrange(ro + 1, ro + 1 + stride), bpp, stride))
                }
            },
        }
    }
}

proof fn lemma_row_len(prev: Seq<u8>, has_prev: bool, f: u8, src: Seq<u8>, bpp: int, x: int)
    requires
        0 <= x,
    ensures
        unfilter_row(prev, has_prev, f, src, bpp, x).len() == x,
    decreases x,
{
    if x > 0 {
        lemma_row_len(prev, has_prev, f, src, bpp, x - 1);
    }
}

proof fn lemma_rows_len(raw: Seq<u8>, stride: int, bpp: int, y: int)
    requires
        0 <= y,
        0 <= stride,
    ensures
        unfilter_rows(raw, stride, bpp, y) matches Some(img) ==> img.len() == y * stride,
    decreases y,
{
    if y > 0 {
        lemma_rows_len(raw, stride, bpp, y - 1);
        if let Some(img) = unfilter_rows(raw, stride, bpp, y - 1) {
            let ro = (y - 1) * (stride + 1);
            let f = raw[ro];
            let prev = if y > 1 { img.subrange(img.len() - stride, img.len() as int) } else { Seq::empty() };
            let row = unfilter_row(prev, y > 1, f, raw.subrange(ro + 1, ro + 1 + stride), bpp, stride);
            lemma_row_len(prev, y > 1, f, raw.subrange(ro + 1, ro + 1 + stride), bpp, stride);
            assert((y - 1) * stride + stride == y * stride) by (nonlinear_arith);
            if f <= 4 {
                assert(unfilter_rows(raw, stride, bpp, y) == Some(img + row));
                assert((img + row).len() == y * stride);
            } else {
                assert(unfilter_rows(raw, stride, bpp, y) is None);
            }
        } else {
            assert(unfilter_rows(raw, stride, bpp, y) is None);
        }
    } else {
        assert(y * stride == 0) by (nonlinear_arith) requires y == 0;
    }
}

proof fn lemma_row_bounds(y: int, h: int, stride: int)
    requires
        0 <= y < h,
        0 <= stride,
    ensures
        (y + 1) * (stride + 1) == y * (stride + 1) + stride + 1,
        (y + 1) * (stride + 1) <= h * (stride + 1),
        (y + 1) * stride == y * stride + stride,
        (y + 1) * stride <= h * stride,
        0 <= y * stride,
        0 <= y * (stride + 1),
        stride + 1 <= h * (stride + 1),
{
    assert(stride + 1 <= h * (stride + 1)) by (nonlinear_arith) requires h >= 1, stride >= 0;
    assert((y + 1) * (stride + 1) == y * (stride + 1) + stride + 1) by (nonlinear_arith);
    assert((y + 1) * (stride + 1) <= h * (stride + 1)) by (nonlinear_arith) requires y + 1 <= h, stride >= 0;
    assert((y + 1) * stride == y * stride + stride) by (nonlinear_arith);
    assert((y + 1) * stride <= h * stride) by (nonlinear_arith) requires y + 1 <= h, stride >= 0;
    assert(0 <= y * stride) by (nonlinear_arith) requires y >= 0, stride >= 0;
    assert(0 <= y * (stride + 1)) by (nonlinear_arith) requires y >= 0, stride >= 0;
}

proof fn lemma_low_byte(v: i32)
    by (bit_vector)
    requires
        0 <= v,
    ensures
        (v & 0xFF) == v % 256,
{
}

/// One byte unfiltered with filter `filter` (0 to 4); `None` for another
/// filter.
fn filter_byte(filter: u8, srcv: u8, a: u8, b: u8, c: u8) -> (r: Option<u8>)
    ensures
        filter <= 4 ==> r == Some(unfilter_byte(filter, srcv, a, b, c)),
        filter > 4 ==> r is None,
{
    let s = srcv as i32;
    let a = a as i32;
    let b = b as i32;
    let c = c as i32;
    let v = match filter {
        0 => s,
        1 => s + a,
        2 => s + b,
        3 => s + (a + b) / 2,
        4 => {
            let p = a + b - c;
            let pa = if p >= a { p - a } else { a - p };
            let pb = if p >= b { p - b } else { b - p };
            let pc = if p >= c { p - c } else { c - p };
            s + if pa <= pb && pa <= pc { a } else if pb <= pc { b } else { c }
        },
        _ => return None,
    };
    proof { lemma_low_byte(v); }
    Some((v & 0xFF) as u8)
}

/// Undoes the PNG row filters of `h` rows of `stride` bytes, `bpp` bytes per
/// pixel; `None` on an unknown filter.
fn unfilter(raw: &[u8], stride: usize, h: usize, bpp: usize) -> (r: Option<Vec<u8>>)
    requires
        1 <= stride,
        1 <= bpp,
        (stride + 1) * h <= raw@.len(),
    ensures
        match r {
            Some(img) => unfilter_rows(raw@, stride as int, bpp as int, h as int) == Some(img@),
            None => unfilter_rows(raw@, stride as int, bpp as int, h as int) is None,
        },
{
    let rlen = raw.len();
    proof {
        assert(stride * h <= (stride + 1) * h) by (nonlinear_arith) requires h >= 0;
    }
    let mut img = vec![0u8; stride * h];
    let ghost rw = raw@;
    proof {
        assert(img@.subrange(0, 0) =~= Seq::<u8>::empty());
    }
    let mut y: usize = 0;
    while y < h
        invariant
            y <= h,
            rw == raw@,
            rlen == rw.len(),
            1 <= stride,
            1 <= bpp,
            (stride + 1) * h <= rw.len(),
            stride * h <= (stride + 1) * h,
            img@.len() == stride * h,
            unfilter_rows(rw, stride as int, bpp as int, y as int) == Some(img@.subrange(0, y * stride)),
        decreases h - y,
    {
        proof {
            lemma_row_bounds(y as int, h as int, stride as int);
            assert(h * stride == stride * h) by (nonlinear_arith);
            assert(h * (stride + 1) == (stride + 1) * h) by (nonlinear_arith);
        }
        let ro = y * (stride + 1);
        let filter = raw[ro];
        let row_off = y * stride;
        let has_prev = y > 0;
        proof {
            if has_prev {
                lemma_row_bounds((y - 1) as int, h as int, stride as int);
            }
        }
        let prev_off = if has_prev { (y - 1) * stride } else { 0 };
        let ghost before = img@.subrange(0, y * stride);
        let ghost prev = if y > 0 { before.subrange(before.len() - stride, before.len() as int) } else { Seq::<u8>::empty() };
        let ghost src = rw.subrange(ro + 1, ro + 1 + stride);
        let mut x: usize = 0;
        while x < stride
            invariant
                x <= stride,
                rw == raw@,
                rlen == rw.len(),
                1 <= stride,
                1 <= bpp,
                y < h,
                ro == y * (stride + 1),
                ro + 1 + stride <= rw.len(),
                row_off == y * stride,
                row_off + stride <= img@.len(),
                img@.len() <= rlen,
                has_prev == (y > 0),
                has_prev ==> prev_off + stride == row_off,
                img@.len() == stride * h,
                filter == rw[ro as int],
                filter <= 4 || x == 0,
                before == img@.subrange(0, row_off as int),
                prev == (if y > 0 { before.subrange(before.len() - stride, before.len() as int) } else { Seq::<u8>::empty() }),
                src == rw.subrange(ro + 1, ro + 1 + stride),
                img@.subrange(row_off as int, row_off + x) == unfilter_row(prev, has_prev, filter, src, bpp as int, x as int),
            decreases stride - x,
        {
            let srcv = raw[ro + 1 + x];
            let a = if x >= bpp { img[row_off + x - bpp] } else { 0 };
            let b = if has_prev { img[prev_off + x] } else { 0 };
            let c = if x >= bpp && has_prev { img[prev_off + x - bpp] } else { 0 };
            let v = match filter_byte(filter, srcv, a, b, c) {
                Some(v) => v,
                None => {
                    proof {
                        lemma_rows_len(rw, stride as int, bpp as int, y as int);
                        assert(unfilter_rows(rw, stride as int, bpp as int, (y + 1) as int) is None);
                        lemma_rows_none(rw, stride as int, bpp as int, (y + 1) as int, h as int);
                    }
                    return None;
                },
            };
            proof {
                let cur = img@.subrange(row_off as int, row_off + x);
                assert(x >= bpp ==> a == cur[x - bpp]);
                assert(has_prev ==> b == prev[x as int]);
                assert(x >= bpp && has_prev ==> c == prev[x - bpp]);
                assert(srcv == src[x as int]);
            }
            let ghost old_img = img@;
            img.set(row_off + x, v);
            proof {
                assert(img@.subrange(0, row_off as int) =~= old_img.subrange(0, row_off as int));
                assert(img@.subrange(row_off as int, row_off + x + 1)
                    =~= old_img.subrange(row_off as int, row_off + x).push(v));
            }
            x += 1;
        }
        proof {
            lemma_rows_len(rw, stride as int, bpp as int, y as int);
            assert(img@.subrange(0, (y + 1) * stride) =~= before + img@.subrange(row_off as int, row_off + stride));
        }
        y += 1;
    }
    proof {
        assert(h * stride == stride * h) by (nonlinear_arith);
        assert(img@.subrange(0, h * stride) =~= img@);
    }
    Some(img)
}

proof fn lemma_rows_none(raw: Seq<u8>, stride: int, bpp: int, y: int, k: int)
    requires
        0 <= y <= k,
        unfilter_rows(raw, stride, bpp, y) is None,
    ensures
        unfilter_rows(raw, stride, bpp, k) is None,
    decreases k - y,
{
    if y < k {
        lemma_rows_none(raw, stride, bpp, y, k - 1);
    }
}

/// Sample `x` of row `y` of an image of `depth`-bit samples packed most
/// significant first, `stride` bytes a row; grey levels (colour type 0) are
/// scaled up to 0..255, palette indices kept.
pub open spec fn sample_at(img: Seq<u8>, stride: int, depth: u8, ctype: u8, y: int, x: int) -> u8 {
    let bit = x * depth;
    let byte = img[y * stride + bit / 8];
    let sh = (8 - depth - bit % 8) as u8;
    let maxv = (((1u16 << depth) - 1) as u16) as u8;
    let v = (byte >> sh) & maxv;
    if ctype == 0 {
        ((v as int) * 255 / (maxv as int)) as u8
    } else {
        v
    }
}

/// The samples of an image of sub-byte depth, one byte each, row by row.
pub open spec fn expand_samples(img: Seq<u8>, stride: int, ns: int, h: int, depth: u8, ctype: u8) -> Seq<u8> {
    Seq::new((ns * h) as nat, |k: int| sample_at(img, stride, depth, ctype, k / ns, k % ns))
}

proof fn lemma_sub_byte(x: int, depth: int)
    requires
        depth == 1 || depth == 2 || depth == 4,
        0 <= x,
    ensures
        (x * depth) % 8 + depth <= 8,
{
    if depth == 2 {
        assert((x * 2) % 8 <= 6) by (nonlinear_arith) requires x >= 0;
    } else if depth == 4 {
        assert((x * 4) % 8 <= 4) by (nonlinear_arith) requires x >= 0;
    } else {
        assert((x * 1) % 8 <= 7) by (nonlinear_arith) requires x >= 0;
    }
}

/// Unpacks samples of 1, 2 or 4 bits to one byte each.
fn expand(img: &Vec<u8>, stride: usize, ns: usize, h: usize, depth: u8, ctype: u8) -> (up: Vec<u8>)
    requires
        depth == 1 || depth == 2 || depth == 4,
        1 <= ns,
        ns * depth <= 8 * stride,
        img@.len() == stride * h,
        ns * h <= 0x1000_0000,
        stride <= 0x1000_0000,
    ensures
        up@ == expand_samples(img@, stride as int, ns as int, h as int, depth, ctype),
{
    let total = ns * h;
    let ilen = img.len();
    let mut up = vec![0u8; total];
    proof {
        assert((1u16 << 1u8) == 2 && (1u16 << 2u8) == 4 && (1u16 << 4u8) == 16) by (bit_vector);
    }
    let maxv = ((1u16 << depth) - 1) as u8;
    let ghost e = expand_samples(img@, stride as int, ns as int, h as int, depth, ctype);
    let mut y: usize = 0;
    while y < h
        invariant
            y <= h,
            total == ns * h,
            up@.len() == total,
            1 <= ns,
            ns * depth <= 8 * stride,
            img@.len() == stride * h,
            ilen == img@.len(),
            stride <= 0x1000_0000,
            depth == 1 || depth == 2 || depth == 4,
            maxv == (((1u16 << depth) - 1) as u16) as u8,
            maxv >= 1,
            e == expand_samples(img@, stride as int, ns as int, h as int, depth, ctype),
            forall|k: int| 0 <= k < y * ns ==> #[trigger] up@[k] == e[k],
        decreases h - y,
    {
        proof {
            assert((y + 1) * ns <= h * ns && (y + 1) * stride <= h * stride && y * ns + ns == (y + 1) * ns
                && y * stride + stride == (y + 1) * stride && 0 <= y * stride) by (nonlinear_arith)
                requires y < h, ns >= 1;
            assert(h * ns == ns * h && h * stride == stride * h) by (nonlinear_arith);
        }
        let row = y * stride;
        let orow = y * ns;
        let mut x: usize = 0;
        while x < ns
            invariant
                y < h,
                x <= ns,
                total == ns * h,
                up@.len() == total,
                1 <= ns,
                ns * depth <= 8 * stride,
                img@.len() == stride * h,
                row == y * stride,
                orow == y * ns,
                orow + ns <= total,
                row + stride <= img@.len(),
                ilen == img@.len(),
                stride <= 0x1000_0000,
                depth == 1 || depth == 2 || depth == 4,
                maxv == (((1u16 << depth) - 1) as u16) as u8,
                maxv >= 1,
                e == expand_samples(img@, stride as int, ns as int, h as int, depth, ctype),
                forall|k: int| 0 <= k < orow + x ==> #[trigger] up@[k] == e[k],
            decreases ns - x,
        {
            proof {
                assert(x * depth < ns * depth) by (nonlinear_arith) requires x < ns, depth >= 1;
                lemma_sub_byte(x as int, depth as int);
            }
            let bit = x * depth as usize;
            let byte = img[row + bit / 8];
            let sh = 8 - depth as usize - (bit % 8);
            let v = (byte >> sh) & maxv;
            let val = if ctype == 0 {
                (v as u32 * 255 / maxv as u32) as u8
            } else {
                v
            };
            up.set(orow + x, val);
            proof {
                lemma_idx(y as int, x as int, ns as int);
                assert(orow + x == y * ns + x);
                assert(e[orow + x] == sample_at(img@, stride as int, depth, ctype, y as int, x as int));
            }
            x += 1;
        }
        y += 1;
    }
    proof {
        assert(up@ =~= e);
    }
    up
}

/// Samples per pixel of a colour type (0 for an unknown type).
pub open spec fn png_channels(ctype: u8) -> int {
    if ctype == 0 { 1 } else if ctype == 2 { 3 } else if ctype == 3 { 1 } else if ctype == 4 { 2 } else if ctype == 6 { 4 } else { 0 }
}

/// Byte `k` of the RGBA image made from the samples `sm` (`channels` per
/// pixel) of colour type `ctype`.
pub open spec fn rgba_byte(sm: Seq<u8>, ctype: u8, channels: int, palette: Seq<u8>, trns: Seq<u8>, k: int) -> u8 {
    let i = (k / 4) * channels;
    let c = k % 4;
    if ctype == 0 {
        let g = sm[i];
        if c < 3 { g } else if trns.len() > 0 && g == trns[0] { 0 } else { 255 }
    } else if ctype == 2 {
        if c < 3 { sm[i + c] } else { 255 }
    } else if ctype == 3 {
        let pi = sm[i] as int;
        if c < 3 { palette[3 * pi + c] } else if pi < trns.len() { trns[pi] } else { 255 }
    } else if ctype == 4 {
        if c < 3 { sm[i] } else { sm[i + 1] }
    } else {
        sm[i + c]
    }
}

/// Every palette index among the first `npix` samples has an entry.
pub open spec fn palette_ok(sm: Seq<u8>, npix: int, palette: Seq<u8>) -> bool {
    forall|p: int| 0 <= p < npix ==> (#[trigger] sm[p] as int) < palette.len() / 3
}

/// Converts samples to RGBA; `None` on a palette index without an entry.
fn to_rgba(sm: &Vec<u8>, npix: usize, ctype: u8, palette: &Vec<u8>, trns: &Vec<u8>) -> (r: Option<Vec<u8>>)
    requires
        png_channels(ctype) > 0,
        sm@.len() == npix * png_channels(ctype),
        npix * 4 <= 0x1000_0000,
    ensures
        match r {
            Some(out) => (ctype != 3 || palette_ok(sm@, npix as int, palette@))
                && out@ == Seq::new((npix * 4) as nat, |k: int| rgba_byte(sm@, ctype, png_channels(ctype), palette@, trns@, k)),
            None => ctype == 3 && !palette_ok(sm@, npix as int, palette@),
        },
{
    let channels: usize = if ctype == 0 { 1 } else if ctype == 2 { 3 } else if ctype == 3 { 1 } else if ctype == 4 { 2 } else { 4 };
    let total = npix * 4;
    let mut out = vec![255u8; total];
    let ghost f = Seq::new((npix * 4) as nat, |k: int| rgba_byte(sm@, ctype, png_channels(ctype), palette@, trns@, k));
    let npal = palette.len() / 3;
    let mut p: usize = 0;
    while p < npix
        invariant
            p <= npix,
            png_channels(ctype) > 0,
            channels == png_channels(ctype),
            sm@.len() == npix * channels,
            total == npix * 4,
            out@.len() == total,
            npal == palette@.len() / 3,
            f == Seq::new((npix * 4) as nat, |k: int| rgba_byte(sm@, ctype, png_channels(ctype), palette@, trns@, k)),
            forall|k: int| 0 <= k < 4 * p ==> #[trigger] out@[k] == f[k],
            forall|k: int| 4 * p <= k < total ==> #[trigger] out@[k] == 255u8,
            ctype == 3 ==> forall|q: int| 0 <= q < p ==> (#[trigger] sm@[q] as int) < npal,
        decreases npix - p,
    {
        proof {
            assert(p * channels + channels <= npix * channels) by (nonlinear_arith) requires p < npix, channels >= 1;
        }
        let i = p * channels;
        let d = p * 4;
        let ghost before = out@;
        if ctype == 0 {
            let g = sm[i];
            out.set(d, g);
            out.set(d + 1, g);
            out.set(d + 2, g);
            if trns.len() > 0 && g == trns[0] {
                out.set(d + 3, 0);
            }
        } else if ctype == 2 {
            out.set(d, sm[i]);
            out.set(d + 1, sm[i + 1]);
            out.set(d + 2, sm[i + 2]);
        } else if ctype == 3 {
            let pi = sm[i] as usize;
            if pi >= npal {
                proof {
                    assert(i == p);
                    assert(!palette_ok(sm@, npix as int, palette@));
                }
                return None;
            }
            proof {
                assert(3 * pi + 2 < palette@.len()) by (nonlinear_arith) requires pi < npal, npal == palette@.len() / 3;
            }
            out.set(d, palette[3 * pi]);
            out.set(d + 1, palette[3 * pi + 1]);
            out.set(d + 2, palette[3 * pi + 2]);
            let a = if pi < trns.len() { trns[pi] } else { 255 };
            out.set(d + 3, a);
        } else if ctype == 4 {
            let g = sm[i];
            out.set(d, g);
            out.set(d + 1, g);
            out.set(d + 2, g);
            out.set(d + 3, sm[i + 1]);
        } else {
            out.set(d, sm[i]);
            out.set(d + 1, sm[i + 1]);
            out.set(d + 2, sm[i + 2]);
            out.set(d + 3, sm[i + 3]);
        }
        proof {
            assert forall|c: int| 0 <= c < 4 implies #[trigger] out@[d + c] == f[d + c] by {
                lemma_idx(p as int, c, 4);
                assert((d + c) / 4 == p && (d + c) % 4 == c);
                assert(((d + c) / 4) * channels == i);
            }
            assert forall|k: int| 0 <= k < 4 * (p + 1) implies #[trigger] out@[k] == f[k] by {
                if k >= 4 * p {
                    assert(out@[d + (k - d)] == f[d + (k - d)]);
                } else {
                    assert(out@[k] == before[k]);
                }
            }
            assert forall|k: int| 4 * (p + 1) <= k < total implies #[trigger] out@[k] == 255u8 by {
                assert(out@[k] == before[k]);
            }
        }
        p += 1;
    }
    proof {
        assert(out@ =~= f);
        if ctype == 3 {
            assert forall|q: int| 0 <= q < npix implies (#[trigger] sm@[q] as int) < palette@.len() / 3 by {}
        }
    }
    Some(out)
}

/// The PNG signature.
pub open spec fn png_sig() -> Seq<u8> {
    seq![137u8, 80, 78, 71, 13, 10, 26, 10]
}

/// The image that the chunk state `st` describes, as width, height and
/// RGBA bytes, or `None` when it is malformed or uses what this decoder does
/// not read (interlace, 16-bit samples, images over 1024 by 8192).
#[verifier::opaque]
pub open spec fn png_image(st: PngState) -> Option<(u32, u32, Seq<u8>)> {
    let w = st.0;
    let h = st.1;
    let depth = st.2;
    let ctype = st.3;
    let ch = png_channels(ctype);
    let idat = st.7;
    if w == 0 || h == 0 || w > 1024 || h > 8192 || st.4 != 0 {
        None
    } else if !(depth == 1 || depth == 2 || depth == 4 || depth == 8) {
        None
    } else if ch == 0 {
        None
    } else if idat.len() < 6 {
        None
    } else {
        match crate::pack::inflate_spec(idat.subrange(2, idat.len() - 4)) {
            None => None,
            Some(raw) => {
                let stride = (w * ch * depth + 7) / 8;
                if raw.len() < (stride + 1) * h {
                    None
                } else {
                    match unfilter_rows(raw, stride, if depth == 8 { ch } else { 1 }, h as int) {
                        None => None,
                        Some(img) => {
                            let sm = if depth == 8 { img } else { expand_samples(img, stride, w * ch, h as int, depth, ctype) };
                            if ctype == 3 && !palette_ok(sm, w * h, st.5) {
                                None
                            } else {
                                Some((w, h, Seq::new((w * h * 4) as nat, |k: int| rgba_byte(sm, ctype, ch, st.5, st.6, k))))
                            }
                        },
                    }
                }
            },
        }
    }
}

/// The image a PNG file holds, or `None` (see `png_image`).
pub open spec fn png_spec(d: Seq<u8>) -> Option<(u32, u32, Seq<u8>)> {
    if d.len() < 8 || d.subrange(0, 8) != png_sig() {
        None
    } else {
        match png_scan(d, 8, (0, 0, 0, 0, 0, Seq::empty(), Seq::empty(), Seq::empty())) {
            None => None,
            Some(st) => png_image(st),
        }
    }
}

/// A decoded image is 1 to 1024 pixels wide, 1 to 8192 high, four bytes a
/// pixel.
pub proof fn lemma_png_dims(d: Seq<u8>)
    ensures
        png_spec(d) matches Some(img) ==> 1 <= img.0 <= 1024 && 1 <= img.1 <= 8192 && img.2.len() == img.0 * img.1 * 4,
{
    reveal(png_image);
}

/// Decodes a PNG (bit depths 1/2/4/8, colour types 0/2/3/4/6,
/// non-interlaced).
pub fn png_decode(data: &[u8]) -> (r: Option<Rgba>)
    ensures
        match r {
            Some(img) => png_spec(data@) == Some((img.w, img.h, img.px@)),
            None => png_spec(data@) is None,
        },
{
    proof { reveal(png_image); }
    if data.len() < 8 || data[0] != 137 || data[1] != 80 || data[2] != 78 || data[3] != 71 || data[4] != 13
        || data[5] != 10 || data[6] != 26 || data[7] != 10 {
        proof {
            if data@.len() >= 8 && data@.subrange(0, 8) == png_sig() {
                assert(data@.subrange(0, 8)[0] == 137);
                assert(data@.subrange(0, 8)[7] == 10);
            }
        }
        return None;
    }
    proof {
        assert(data@.subrange(0, 8) =~= png_sig());
    }
    let (w, h, depth, ctype, interlace, palette, trns, idat) = match scan_chunks(data) {
        Some(t) => t,
        None => return None,
    };
    if w == 0 || h == 0 || w > 1024 || h > 8192 || interlace != 0 {
        return None;
    }
    if !(depth == 1 || depth == 2 || depth == 4 || depth == 8) {
        return None;
    }
    let channels: u32 = if ctype == 0 {
        1
    } else if ctype == 2 {
        3
    } else if ctype == 3 {
        1
    } else if ctype == 4 {
        2
    } else if ctype == 6 {
        4
    } else {
        return None;
    };
    if idat.len() < 6 {
        return None;
    }
    let raw = match crate::pack::inflate(&idat.as_slice()[2..idat.len() - 4]) {
        Some(v) => v,
        None => return None,
    };
    proof {
        assert(w * channels * depth <= 1024 * 4 * 8) by (nonlinear_arith)
            requires w <= 1024, channels <= 4, depth <= 8;
    }
    let stride = ((w * channels * depth as u32 + 7) / 8) as usize;
    proof {
        assert((stride + 1) * h <= 4097 * 8192) by (nonlinear_arith) requires stride <= 4096, h <= 8192;
    }
    let expected = (stride + 1) * h as usize;
    if raw.len() < expected {
        return None;
    }
    let bpp: usize = if depth == 8 { channels as usize } else { 1 };
    let img = match unfilter(raw.as_slice(), stride, h as usize, bpp) {
        Some(img) => img,
        None => return None,
    };
    proof {
        lemma_rows_len(raw@, stride as int, bpp as int, h as int);
        assert(w * channels <= 4096 && (w * channels) * h <= 4096 * 8192) by (nonlinear_arith)
            requires w <= 1024, channels <= 4, h <= 8192;
        assert(w * h * 4 <= 1024 * 8192 * 4) by (nonlinear_arith) requires w <= 1024, h <= 8192;
    }
    let ns = (w * channels) as usize;
    let sm = if depth == 8 {
        img
    } else {
        proof {
            assert(ns * depth <= 8 * stride) by (nonlinear_arith)
                requires ns == w * channels, stride == (w * channels * depth + 7) / 8;
        }
        expand(&img, stride, ns, h as usize, depth, ctype)
    };
    let npix = (w * h) as usize;
    proof {
        if depth == 8 {
            assert(stride == w * channels);
            assert(sm@.len() == h * stride);
            assert(h * stride == ns * h) by (nonlinear_arith) requires stride == ns;
        }
        assert(sm@.len() == ns * h);
        assert(sm@.len() == npix * channels) by (nonlinear_arith)
            requires sm@.len() == ns * h, ns == w * channels, npix == w * h;
    }
    let px = match to_rgba(&sm, npix, ctype, &palette, &trns) {
        Some(px) => px,
        None => return None,
    };
    Some(Rgba { w, h, px })
}

// ------------------------------------------------------------------ encoder

/// The first `y` rows of `px` (`stride` bytes each), each after a filter
/// byte 0.
pub open spec fn png_raw(px: Seq<u8>, stride: int, y: int) -> Seq<u8>
    decreases y,
{
    if y <= 0 {
        Seq::empty()
    } else {
        png_raw(px, stride, y - 1) + seq![0u8] + px.subrange((y - 1) * stride, y * stride)
    }
}

/// `raw` from byte `off` on as DEFLATE stored blocks of at most 65535 bytes,
/// the last one final.
pub open spec fn stored_blocks(raw: Seq<u8>, off: int) -> Seq<u8>
    decreases raw.len() - off,
{
    if off < 0 || off >= raw.len() {
        Seq::empty()
    } else {
        let n = if raw.len() - off < 65535 { raw.len() - off } else { 65535 };
        let last: u8 = if off + n >= raw.len() { 1 } else { 0 };
        seq![last] + le_bytes(n as nat, 2) + le_bytes((65535 - n) as nat, 2) + raw.subrange(off, off + n)
            + stored_blocks(raw, off + n)
    }
}

/// A PNG chunk: length, tag, body, CRC-32 of tag and body.
pub open spec fn png_chunk(tag: Seq<u8>, body: Seq<u8>) -> Seq<u8> {
    be_bytes(body.len(), 4) + tag + body + be_bytes(crc32_spec(tag + body) as nat, 4)
}

/// The zlib stream of the PNG encoder: header `78 01`, stored blocks,
/// Adler-32.
pub open spec fn png_zlib(raw: Seq<u8>) -> Seq<u8> {
    seq![0x78u8, 0x01] + stored_blocks(raw, 0) + be_bytes(adler32_spec(raw) as nat, 4)
}

/// The PNG written for a `w` by `h` RGBA image: 8-bit RGBA, rows unfiltered,
/// one IDAT chunk.
#[verifier::opaque]
pub open spec fn png_encoded(w: u32, h: u32, px: Seq<u8>) -> Seq<u8> {
    let raw = png_raw(px, w * 4, h as int);
    let ihdr = be_bytes(w as nat, 4) + be_bytes(h as nat, 4) + seq![8u8, 6, 0, 0, 0];
    png_sig() + png_chunk(tag_ihdr(), ihdr) + png_chunk(tag_idat(), png_zlib(raw)) + png_chunk(tag_iend(), Seq::empty())
}

/// CRC-32 of a chunk's tag and body.
fn crc_data(tag: &[u8; 4], body: &[u8]) -> (r: u32)
    ensures
        r == crc32_spec(tag@ + body@),
{
    let mut v: Vec<u8> = Vec::new();
    push_bytes(&mut v, tag.as_slice());
    push_bytes(&mut v, body);
    crc32(v.as_slice())
}

/// Appends a chunk.
fn chunk(out: &mut Vec<u8>, tag: &[u8; 4], body: &[u8])
    ensures
        final(out)@ == old(out)@ + png_chunk(tag@, body@),
{
    push_be(out, body.len() as u64, 4);
    proof {
        assert(be_bytes(body.len() as u64 as nat, 4) == be_bytes(body@.len(), 4));
    }
    push_bytes(out, tag.as_slice());
    push_bytes(out, body);
    let crc = crc_data(tag, body);
    push_be(out, crc as u64, 4);
    proof {
        assert(final(out)@ =~= old(out)@ + png_chunk(tag@, body@));
    }
}

proof fn lemma_raw_len(px: Seq<u8>, stride: int, y: int)
    requires
        0 <= y,
        0 <= stride,
        y * stride <= px.len(),
    ensures
        png_raw(px, stride, y).len() == y * (stride + 1),
    decreases y,
{
    if y > 0 {
        assert((y - 1) * stride <= y * stride && y * stride - (y - 1) * stride == stride
            && (y - 1) * (stride + 1) + stride + 1 == y * (stride + 1)) by (nonlinear_arith)
            requires y >= 1, stride >= 0;
        lemma_raw_len(px, stride, y - 1);
    } else {
        assert(y * (stride + 1) == 0) by (nonlinear_arith) requires y == 0;
    }
}

/// Encodes RGBA pixels as a PNG (filter 0 rows, zlib stored blocks).
pub fn png_encode(w: u32, h: u32, rgba: &[u8]) -> (r: Vec<u8>)
    requires
        w * h * 4 + h <= u32::MAX,
        rgba@.len() >= w * h * 4,
    ensures
        r@ == png_encoded(w, h, rgba@),
{
    let mut raw: Vec<u8> = Vec::new();
    let ghost stride = w * 4;
    let mut y: u32 = 0;
    while y < h
        invariant
            y <= h,
            stride == w * 4,
            w * h * 4 + h <= u32::MAX,
            rgba@.len() >= w * h * 4,
            raw@ == png_raw(rgba@, stride, y as int),
        decreases h - y,
    {
        proof {
            assert((y + 1) * w * 4 <= w * h * 4 && y * w * 4 <= (y + 1) * w * 4
                && y * stride == y * w * 4 && (y + 1) * stride == (y + 1) * w * 4) by (nonlinear_arith)
                requires y < h, stride == w * 4;
        }
        raw.push(0u8);
        let a = (y * w * 4) as usize;
        let b = ((y + 1) * w * 4) as usize;
        push_bytes(&mut raw, &rgba[a..b]);
        y += 1;
    }
    let mut z: Vec<u8> = Vec::new();
    z.push(0x78);
    z.push(0x01);
    let mut off: usize = 0;
    let rlen = raw.len();
    proof {
        assert(z@ =~= seq![0x78u8, 0x01]);
        assert(seq![0x78u8, 0x01] + stored_blocks(raw@, 0) =~= z@ + stored_blocks(raw@, 0));
    }
    while off < rlen
        invariant
            off <= rlen,
            rlen == raw@.len(),
            seq![0x78u8, 0x01] + stored_blocks(raw@, 0) == z@ + stored_blocks(raw@, off as int),
        decreases rlen - off,
    {
        let n = if rlen - off < 65535 { rlen - off } else { 65535 };
        let last: u8 = if off + n >= rlen { 1 } else { 0 };
        let ghost z0 = z@;
        z.push(last);
        push_le(&mut z, n as u64, 2);
        let nn = !(n as u16);
        proof {
            let x = n as u16;
            assert(!x == 65535 - x) by (bit_vector);
        }
        push_le(&mut z, nn as u64, 2);
        push_bytes(&mut z, &raw.as_slice()[off..off + n]);
        proof {
            assert(z@ =~= z0 + (seq![last] + le_bytes(n as nat, 2) + le_bytes((65535 - n) as nat, 2)
                + raw@.subrange(off as int, off + n)));
        }
        off += n;
    }
    let ad = adler32(raw.as_slice());
    push_be(&mut z, ad as u64, 4);
    proof {
        assert(stored_blocks(raw@, rlen as int) == Seq::<u8>::empty());
        assert(z@ =~= png_zlib(raw@));
    }
    let mut out: Vec<u8> = Vec::new();
    out.push(137);
    out.push(80);
    out.push(78);
    out.push(71);
    out.push(13);
    out.push(10);
    out.push(26);
    out.push(10);
    let mut ihdr: Vec<u8> = Vec::new();
    push_be(&mut ihdr, w as u64, 4);
    push_be(&mut ihdr, h as u64, 4);
    ihdr.push(8);
    ihdr.push(6);
    ihdr.push(0);
    ihdr.push(0);
    ihdr.push(0);
    let t_ihdr: [u8; 4] = [73, 72, 68, 82];
    let t_idat: [u8; 4] = [73, 68, 65, 84];
    let t_iend: [u8; 4] = [73, 69, 78, 68];
    let empty: [u8; 0] = [];
    proof {
        assert(out@ =~= png_sig());
        assert(t_ihdr@ =~= tag_ihdr());
        assert(t_idat@ =~= tag_idat());
        assert(t_iend@ =~= tag_iend());
        assert(empty@ =~= Seq::<u8>::empty());
        assert(ihdr@ =~= be_bytes(w as nat, 4) + be_bytes(h as nat, 4) + seq![8u8, 6, 0, 0, 0]);
    }
    chunk(&mut out, &t_ihdr, ihdr.as_slice());
    chunk(&mut out, &t_idat, z.as_slice());
    chunk(&mut out, &t_iend, empty.as_slice());
    proof { reveal(png_encoded); }
    out
}

// ------------------------------------------------------------ round trip

proof fn lemma_raw_prefix(px: Seq<u8>, s: int, y: int, k: int)
    requires
        0 <= k < y,
        0 <= s,
        y * s <= px.len(),
    ensures
        png_raw(px, s, y)[k * (s + 1)] == 0,
        png_raw(px, s, y).subrange(k * (s + 1) + 1, k * (s + 1) + 1 + s) == px.subrange(k * s, k * s + s),
    decreases y,
{
    assert((y - 1) * s <= y * s && y * s == (y - 1) * s + s) by (nonlinear_arith) requires y >= 1, s >= 0;
    lemma_raw_len(px, s, y - 1);
    let prev = png_raw(px, s, y - 1);
    let cur = png_raw(px, s, y);
    if k < y - 1 {
        lemma_raw_prefix(px, s, y - 1, k);
        assert(k * (s + 1) + 1 + s <= (y - 1) * (s + 1)) by (nonlinear_arith) requires k < y - 1, s >= 0;
        assert(cur[k * (s + 1)] == prev[k * (s + 1)]);
        assert(cur.subrange(k * (s + 1) + 1, k * (s + 1) + 1 + s) =~= prev.subrange(k * (s + 1) + 1, k * (s + 1) + 1 + s));
    } else {
        assert(k * (s + 1) == (y - 1) * (s + 1) && k * s == (y - 1) * s);
        assert(cur.subrange(k * (s + 1) + 1, k * (s + 1) + 1 + s) =~= px.subrange(k * s, k * s + s));
    }
}

proof fn lemma_filter0_row(prev: Seq<u8>, has_prev: bool, src: Seq<u8>, bpp: int, x: int)
    requires
        0 <= x <= src.len(),
    ensures
        unfilter_row(prev, has_prev, 0, src, bpp, x) == src.subrange(0, x),
    decreases x,
{
    if x > 0 {
        lemma_filter0_row(prev, has_prev, src, bpp, x - 1);
        assert(src.subrange(0, x) =~= src.subrange(0, x - 1).push(src[x - 1]));
    } else {
        assert(src.subrange(0, 0) =~= Seq::<u8>::empty());
    }
}

/// Rows written with filter 0 unfilter to the pixels.
proof fn lemma_unfilter_raw(px: Seq<u8>, s: int, h: int, y: int)
    requires
        0 <= y <= h,
        1 <= s,
        h * s <= px.len(),
    ensures
        unfilter_rows(png_raw(px, s, h), s, 4, y) == Some(px.subrange(0, y * s)),
    decreases y,
{
    let raw = png_raw(px, s, h);
    if y > 0 {
        lemma_unfilter_raw(px, s, h, y - 1);
        lemma_raw_prefix(px, s, h, y - 1);
        assert((y - 1) * s + s == y * s && y * s <= h * s) by (nonlinear_arith) requires y <= h, s >= 1;
        let ro = (y - 1) * (s + 1);
        let img = px.subrange(0, (y - 1) * s);
        let prev = if y > 1 { img.subrange(img.len() - s, img.len() as int) } else { Seq::empty() };
        lemma_filter0_row(prev, y > 1, raw.subrange(ro + 1, ro + 1 + s), 4, s);
        assert(raw.subrange(ro + 1, ro + 1 + s).subrange(0, s) =~= raw.subrange(ro + 1, ro + 1 + s));
        assert(img + px.subrange((y - 1) * s, (y - 1) * s + s) =~= px.subrange(0, y * s));
    } else {
        assert(px.subrange(0, 0 * s) =~= Seq::<u8>::empty()) by {
            assert(0 * s == 0);
        }
    }
}

proof fn lemma_rgba_identity(px: Seq<u8>, n: int, palette: Seq<u8>, trns: Seq<u8>)
    requires
        n == px.len(),
        n % 4 == 0,
    ensures
        Seq::new(n as nat, |k: int| rgba_byte(px, 6, 4, palette, trns, k)) == px,
{
    assert forall|k: int| 0 <= k < n implies #[trigger] rgba_byte(px, 6, 4, palette, trns, k) == px[k] by {
        assert((k / 4) * 4 + k % 4 == k);
    }
    assert(Seq::new(n as nat, |k: int| rgba_byte(px, 6, 4, palette, trns, k)) =~= px);
}

proof fn lemma_header_byte(b: u8)
    by (bit_vector)
    requires
        b <= 1,
    ensures
        ((b >> 0u8) & 1) as u32 == b as u32,
        ((b >> 1u8) & 1) as u32 == 0,
        ((b >> 2u8) & 1) as u32 == 0,
        (0u32 | (0u32 << 0u32)) | (0u32 << 1u32) == 0,
{
}

/// The first stored block from byte `p` of `d`, taken apart.
proof fn lemma_stored_layout(d: Seq<u8>, p: int, raw: Seq<u8>, off: int)
    requires
        0 <= off < raw.len(),
        0 <= p <= d.len(),
        d.subrange(p, d.len() as int) == stored_blocks(raw, off),
    ensures
        ({
            let n = if raw.len() - off < 65535 { raw.len() - off } else { 65535 };
            let last: u8 = if off + n >= raw.len() { 1 } else { 0 };
            &&& p + 5 + n <= d.len()
            &&& d[p] == last
            &&& le_value(d.subrange(p + 1, p + 3)) == n
            &&& d.subrange(p + 5, p + 5 + n) == raw.subrange(off, off + n)
            &&& d.subrange(p + 5 + n, d.len() as int) == stored_blocks(raw, off + n)
        }),
{
    let n = if raw.len() - off < 65535 { raw.len() - off } else { 65535 };
    let last: u8 = if off + n >= raw.len() { 1 } else { 0 };
    let rest = stored_blocks(raw, off + n);
    let blk = seq![last] + le_bytes(n as nat, 2) + le_bytes((65535 - n) as nat, 2) + raw.subrange(off, off + n);
    lemma_le_roundtrip(n as nat, 2);
    lemma_le_roundtrip((65535 - n) as nat, 2);
    assert(pow256(2) == 65536) by {
        assert(pow256(0) == 1);
        assert(pow256(1) == 256);
    }
    assert(stored_blocks(raw, off) == blk + rest);
    let tail = d.subrange(p, d.len() as int);
    assert(blk.len() == 5 + n);
    assert(tail.len() == blk.len() + rest.len());
    assert(p + 5 + n <= d.len());
    assert(d[p] == tail[0]);
    assert(d.subrange(p + 1, p + 3) =~= le_bytes(n as nat, 2)) by {
        assert forall|i: int| 0 <= i < 2 implies #[trigger] d.subrange(p + 1, p + 3)[i] == le_bytes(n as nat, 2)[i] by {
            assert(d[p + 1 + i] == tail[1 + i]);
            assert(tail[1 + i] == blk[1 + i]);
        }
    }
    assert(d.subrange(p + 5, p + 5 + n) =~= raw.subrange(off, off + n)) by {
        assert forall|i: int| 0 <= i < n implies #[trigger] d.subrange(p + 5, p + 5 + n)[i] == raw.subrange(off, off + n)[i] by {
            assert(d[p + 5 + i] == tail[5 + i]);
            assert(tail[5 + i] == blk[5 + i]);
        }
    }
    assert(d.subrange(p + 5 + n, d.len() as int) =~= rest) by {
        assert forall|i: int| 0 <= i < rest.len() implies #[trigger] d.subrange(p + 5 + n, d.len() as int)[i] == rest[i] by {
            assert(d[p + 5 + n + i] == tail[5 + n + i]);
        }
    }
}

/// The header bits of a block whose first byte is 0 or 1: final flag, type 0.
proof fn lemma_stored_header(d: Seq<u8>, p: int)
    requires
        0 <= p < d.len(),
        d[p] <= 1,
    ensures
        crate::pack::bit_at(d, 8 * p) == d[p] as u32,
        crate::pack::bits_at(d, 8 * p + 1, 2) == 0,
{
    let q = 8 * p;
    lemma_header_byte(d[p]);
    assert(q / 8 == p && q % 8 == 0 && (q + 1) / 8 == p && (q + 1) % 8 == 1 && (q + 2) / 8 == p && (q + 2) % 8 == 2);
    assert(crate::pack::bit_at(d, q + 1) == 0);
    assert(crate::pack::bit_at(d, q + 1 + 1) == 0);
    assert(crate::pack::bits_at(d, q + 1, 0) == 0);
    assert(crate::pack::bits_at(d, q + 1, 1) == (0u32 | (0u32 << 0u32)));
}

/// Stored blocks inflate back to the bytes they hold.
proof fn lemma_stored_inflate(d: Seq<u8>, p: int, raw: Seq<u8>, off: int)
    requires
        0 <= off < raw.len(),
        0 <= p <= d.len(),
        d.subrange(p, d.len() as int) == stored_blocks(raw, off),
    ensures
        crate::pack::inflate_from(d, 8 * p, raw.subrange(0, off)) == Some(raw),
    decreases raw.len() - off,
{
    let n = if raw.len() - off < 65535 { raw.len() - off } else { 65535 };
    let last: u8 = if off + n >= raw.len() { 1 } else { 0 };
    lemma_stored_layout(d, p, raw, off);
    lemma_stored_header(d, p);
    let q = 8 * p;
    reveal(crate::pack::inflate_block);
    assert((q + 3 + 7) / 8 == p + 1);
    assert(crate::pack::stored_block(d, q + 3, raw.subrange(0, off))
        == Some((raw.subrange(0, off) + raw.subrange(off, off + n), (p + 5 + n) * 8)));
    assert(raw.subrange(0, off) + raw.subrange(off, off + n) =~= raw.subrange(0, off + n));
    if last == 1 {
        assert(raw.subrange(0, off + n) =~= raw);
    } else {
        lemma_stored_inflate(d, p + 5 + n, raw, off + n);
        assert((p + 5 + n) * 8 == 8 * (p + 5 + n));
    }
}

proof fn lemma_pow256_4()
    ensures
        pow256(4) == 0x1_0000_0000,
{
    assert(pow256(0) == 1);
    assert(pow256(1) == 256);
    assert(pow256(2) == 65536);
    assert(pow256(3) == 16777216);
}

proof fn lemma_chunk_len(tag: Seq<u8>, body: Seq<u8>)
    requires
        tag.len() == 4,
    ensures
        png_chunk(tag, body).len() == 12 + body.len(),
{
    lemma_be_roundtrip(body.len(), 4);
    lemma_be_roundtrip(crc32_spec(tag + body) as nat, 4);
}

/// The length, tag and body of a chunk read back.
proof fn lemma_chunk_at(d: Seq<u8>, pos: int, tag: Seq<u8>, body: Seq<u8>)
    requires
        0 <= pos,
        tag.len() == 4,
        body.len() < 0x1_0000_0000,
        pos + 12 + body.len() <= d.len(),
        d.subrange(pos, pos + 12 + body.len()) == png_chunk(tag, body),
    ensures
        be_value(d.subrange(pos, pos + 4)) == body.len(),
        d.subrange(pos + 4, pos + 8) == tag,
        d.subrange(pos + 8, pos + 8 + body.len()) == body,
{
    let c = png_chunk(tag, body);
    lemma_be_roundtrip(body.len(), 4);
    lemma_pow256_4();
    assert(d.subrange(pos, pos + 4) =~= c.subrange(0, 4));
    assert(c.subrange(0, 4) =~= be_bytes(body.len(), 4));
    assert(d.subrange(pos + 4, pos + 8) =~= c.subrange(4, 8));
    assert(c.subrange(4, 8) =~= tag);
    assert(d.subrange(pos + 8, pos + 8 + body.len()) =~= c.subrange(8, 8 + body.len() as int));
    assert(c.subrange(8, 8 + body.len() as int) =~= body);
}

proof fn lemma_tags_differ()
    ensures
        tag_idat() != tag_ihdr(),
        tag_idat() != tag_plte(),
        tag_idat() != tag_trns(),
        tag_iend() != tag_ihdr(),
        tag_iend() != tag_plte(),
        tag_iend() != tag_trns(),
        tag_iend() != tag_idat(),
{
    assert(tag_idat()[1] != tag_ihdr()[1]);
    assert(tag_idat()[0] != tag_plte()[0]);
    assert(tag_idat()[0] != tag_trns()[0]);
    assert(tag_iend()[1] != tag_ihdr()[1]);
    assert(tag_iend()[0] != tag_plte()[0]);
    assert(tag_iend()[0] != tag_trns()[0]);
    assert(tag_iend()[1] != tag_idat()[1]);
}

/// Where the chunks of an encoded PNG stand.
#[verifier::rlimit(100)]
proof fn lemma_encoded_layout(w: u32, h: u32, px: Seq<u8>)
    requires
        1 <= w <= 1024,
        1 <= h <= 8192,
        px.len() == w * h * 4,
    ensures
        ({
            let e = png_encoded(w, h, px);
            let z = png_zlib(png_raw(px, w * 4, h as int));
            &&& z.len() < 0x1_0000_0000
            &&& e.len() == 57 + z.len()
            &&& e.subrange(0, 8) == png_sig()
            &&& be_value(e.subrange(8, 12)) == 13
            &&& e.subrange(12, 16) == tag_ihdr()
            &&& e.subrange(16, 29) == be_bytes(w as nat, 4) + be_bytes(h as nat, 4) + seq![8u8, 6, 0, 0, 0]
            &&& be_value(e.subrange(33, 37)) == z.len()
            &&& e.subrange(37, 41) == tag_idat()
            &&& e.subrange(41, 41 + z.len() as int) == z
            &&& be_value(e.subrange(45 + z.len() as int, 49 + z.len() as int)) == 0
            &&& e.subrange(49 + z.len() as int, 53 + z.len() as int) == tag_iend()
        }),
{
    reveal(png_encoded);
    let e = png_encoded(w, h, px);
    let raw = png_raw(px, w * 4, h as int);
    let z = png_zlib(raw);
    let ihdr = be_bytes(w as nat, 4) + be_bytes(h as nat, 4) + seq![8u8, 6, 0, 0, 0];
    let c1 = png_chunk(tag_ihdr(), ihdr);
    let c2 = png_chunk(tag_idat(), z);
    let c3 = png_chunk(tag_iend(), Seq::empty());
    assert(w * h * 4 <= 1024 * 8192 * 4) by (nonlinear_arith) requires w <= 1024, h <= 8192;
    assert(h * (w * 4) <= px.len()) by (nonlinear_arith) requires px.len() == w * h * 4;
    lemma_raw_len(px, w * 4, h as int);
    assert(raw.len() <= 8192 * 4097) by (nonlinear_arith) requires raw.len() == h * (w * 4 + 1), w <= 1024, h <= 8192;
    lemma_stored_len(raw, 0);
    lemma_be_roundtrip(adler32_spec(raw) as nat, 4);
    lemma_be_roundtrip(w as nat, 4);
    lemma_be_roundtrip(h as nat, 4);
    assert(ihdr.len() == 13);
    lemma_chunk_len(tag_ihdr(), ihdr);
    lemma_chunk_len(tag_idat(), z);
    lemma_chunk_len(tag_iend(), Seq::empty());
    assert(e == png_sig() + c1 + c2 + c3);
    let p2: int = 33;
    let p3: int = p2 + c2.len() as int;
    assert(e.subrange(0, 8) =~= png_sig());
    assert(e.subrange(8, 33) =~= c1);
    assert(e.subrange(p2, p2 + 12 + z.len() as int) =~= c2);
    assert(e.subrange(p3, p3 + 12) =~= c3);
    lemma_chunk_at(e, 8, tag_ihdr(), ihdr);
    lemma_chunk_at(e, p2, tag_idat(), z);
    lemma_chunk_at(e, p3, tag_iend(), Seq::empty());
}

/// The chunks of a file laid out as the encoder writes them read back.
proof fn lemma_scan_layout(e: Seq<u8>, w: u32, h: u32, z: Seq<u8>)
    requires
        z.len() < 0x1_0000_0000,
        e.len() == 57 + z.len(),
        be_value(e.subrange(8, 12)) == 13,
        e.subrange(12, 16) == tag_ihdr(),
        e.subrange(16, 29) == be_bytes(w as nat, 4) + be_bytes(h as nat, 4) + seq![8u8, 6, 0, 0, 0],
        be_value(e.subrange(33, 37)) == z.len(),
        e.subrange(37, 41) == tag_idat(),
        e.subrange(41, 41 + z.len() as int) == z,
        be_value(e.subrange(45 + z.len() as int, 49 + z.len() as int)) == 0,
        e.subrange(49 + z.len() as int, 53 + z.len() as int) == tag_iend(),
    ensures
        png_scan(e, 8, (0, 0, 0, 0, 0, Seq::empty(), Seq::empty(), Seq::empty()))
            == Some((w, h, 8u8, 6u8, 0u8, Seq::<u8>::empty(), Seq::<u8>::empty(), z)),
{
    lemma_be_roundtrip(w as nat, 4);
    lemma_be_roundtrip(h as nat, 4);
    lemma_pow256_4();
    lemma_tags_differ();
    let body = e.subrange(16, 29);
    assert(body.subrange(0, 4) =~= be_bytes(w as nat, 4));
    assert(body.subrange(4, 8) =~= be_bytes(h as nat, 4));
    assert(body[8] == 8 && body[9] == 6 && body[12] == 0);
    let p3: int = 45 + z.len() as int;
    let init: PngState = (0, 0, 0, 0, 0, Seq::empty(), Seq::empty(), Seq::empty());
    let st1: PngState = (w, h, 8, 6, 0, Seq::empty(), Seq::empty(), Seq::empty());
    let st2: PngState = (w, h, 8, 6, 0, Seq::empty(), Seq::empty(), Seq::<u8>::empty() + z);
    assert(png_scan(e, 8, init) == png_scan(e, 33, st1));
    assert(png_scan(e, 33, st1) == png_scan(e, p3, st2));
    assert(png_scan(e, p3, st2) == Some(st2));
    assert(Seq::<u8>::empty() + z =~= z);
}

proof fn lemma_stored_len(raw: Seq<u8>, off: int)
    requires
        0 <= off <= raw.len(),
    ensures
        stored_blocks(raw, off).len() <= 5 * (raw.len() - off) + 5,
    decreases raw.len() - off,
{
    if off < raw.len() {
        let n = if raw.len() - off < 65535 { raw.len() - off } else { 65535 };
        lemma_stored_len(raw, off + n);
        lemma_le_roundtrip(n as nat, 2);
        lemma_le_roundtrip((65535 - n) as nat, 2);
    }
}

/// The image data of an encoded PNG inflates and unfilters to the pixels.
proof fn lemma_encoded_body(w: u32, h: u32, px: Seq<u8>)
    requires
        1 <= w <= 1024,
        1 <= h <= 8192,
        px.len() == w * h * 4,
    ensures
        ({
            let raw = png_raw(px, w * 4, h as int);
            let z = png_zlib(raw);
            &&& z.len() >= 6
            &&& crate::pack::inflate_spec(z.subrange(2, z.len() - 4)) == Some(raw)
            &&& raw.len() >= (w * 4 + 1) * h
            &&& unfilter_rows(raw, w * 4, 4, h as int) == Some(px)
        }),
{
    let s = w * 4;
    let raw = png_raw(px, s, h as int);
    let z = png_zlib(raw);
    assert(h * s <= px.len() && h * s == px.len()) by (nonlinear_arith) requires px.len() == w * h * 4, s == w * 4;
    lemma_raw_len(px, s as int, h as int);
    assert(raw.len() >= 5) by (nonlinear_arith) requires raw.len() == h * (s + 1), h >= 1, s >= 4;
    let sb = stored_blocks(raw, 0);
    lemma_be_roundtrip(adler32_spec(raw) as nat, 4);
    assert(z.subrange(2, z.len() - 4) =~= sb);
    assert(sb.subrange(0, sb.len() as int) =~= sb);
    lemma_stored_inflate(sb, 0, raw, 0);
    assert(raw.subrange(0, 0) =~= Seq::<u8>::empty());
    assert(raw.len() >= (s + 1) * h) by (nonlinear_arith) requires raw.len() == h * (s + 1);
    lemma_unfilter_raw(px, s as int, h as int, h as int);
    assert(px.subrange(0, h * s) =~= px);
}

proof fn lemma_encoded_image(w: u32, h: u32, px: Seq<u8>)
    requires
        1 <= w <= 1024,
        1 <= h <= 8192,
        px.len() == w * h * 4,
    ensures
        png_image((w, h, 8u8, 6u8, 0u8, Seq::<u8>::empty(), Seq::<u8>::empty(), png_zlib(png_raw(px, w * 4, h as int))))
            == Some((w, h, px)),
{
    reveal(png_image);
    lemma_encoded_body(w, h, px);
    assert((w * 4 * 8 + 7) / 8 == w * 4);
    lemma_rgba_identity(px, px.len() as int, Seq::empty(), Seq::empty());
}

/// Encoding an RGBA image as PNG and decoding the file gives the image back.
pub proof fn png_roundtrip(w: u32, h: u32, px: Seq<u8>)
    requires
        1 <= w <= 1024,
        1 <= h <= 8192,
        px.len() == w * h * 4,
    ensures
        png_spec(png_encoded(w, h, px)) == Some((w, h, px)),
{
    let e = png_encoded(w, h, px);
    let z = png_zlib(png_raw(px, w * 4, h as int));
    lemma_encoded_layout(w, h, px);
    lemma_scan_layout(e, w, h, z);
    lemma_encoded_image(w, h, px);
    let st: PngState = (w, h, 8u8, 6u8, 0u8, Seq::<u8>::empty(), Seq::<u8>::empty(), z);
    assert(png_scan(e, 8, (0, 0, 0, 0, 0, Seq::empty(), Seq::empty(), Seq::empty())) == Some(st));
    assert(png_image(st) == Some((w, h, px)));
}

/// What an encoder predicts a byte from under PNG filter type `f`, from the
/// reconstructed byte `a` one pixel to the left, `b` above and `c` above
/// left: none (0), left (1), up (2), their floored mean (3), or whichever of
/// the three is nearest to `a + b - c`, ties to `a` then `b` (4).
pub open spec fn png_prediction(f: u8, a: int, b: int, c: int) -> int {
    if f == 1 {
        a
    } else if f == 2 {
        b
    } else if f == 3 {
        (a + b) / 2
    } else if f == 4 {
        let p = a + b - c;
        let da = if p >= a { p - a } else { a - p };
        let db = if p >= b { p - b } else { b - p };
        let dc = if p >= c { p - c } else { c - p };
        if da <= db && da <= dc { a } else if db <= dc { b } else { c }
    } else {
        0
    }
}

/// The row `row` as an encoder filters it with type `f`, `prev` being the
/// row above when `has_prev` and `bpp` the bytes per pixel: each byte minus
/// its prediction, modulo 256.
pub open spec fn png_filter_row(f: u8, row: Seq<u8>, prev: Seq<u8>, has_prev: bool, bpp: int) -> Seq<u8> {
    Seq::new(row.len(), |i: int| {
        let a = if i >= bpp { row[i - bpp] as int } else { 0 };
        let b = if has_prev { prev[i] as int } else { 0 };
        let c = if i >= bpp && has_prev { prev[i - bpp] as int } else { 0 };
        ((row[i] as int - png_prediction(f, a, b, c)) % 256) as u8
    })
}

proof fn lemma_mod_undo(r: int, p: int)
    requires
        0 <= r < 256,
    ensures
        (((r - p) % 256) + p) % 256 == r,
{
    let k = (r - p) % 256;
    let q = (r - p) / 256;
    vstd::arithmetic::div_mod::lemma_fundamental_div_mod(r - p, 256);
    assert(r - p == 256 * q + k);
    assert(k + p == r - 256 * q);
    vstd::arithmetic::div_mod::lemma_mod_multiples_vanish(-q, r, 256);
    vstd::arithmetic::div_mod::lemma_small_mod(r as nat, 256);
    assert(256 * (-q) + r == r - 256 * q) by (nonlinear_arith);
}

/// Unfiltering undoes filtering: a row filtered with any of the five PNG
/// filter types, against any row above, unfilters to itself.
pub proof fn unfilter_undoes_filter(f: u8, row: Seq<u8>, prev: Seq<u8>, has_prev: bool, bpp: int, x: int)
    requires
        f <= 4,
        bpp >= 1,
        0 <= x <= row.len(),
        has_prev ==> prev.len() >= row.len(),
    ensures
        unfilter_row(prev, has_prev, f, png_filter_row(f, row, prev, has_prev, bpp), bpp, x) == row.subrange(0, x),
    decreases x,
{
    let src = png_filter_row(f, row, prev, has_prev, bpp);
    if x <= 0 {
        assert(row.subrange(0, x) =~= Seq::<u8>::empty());
    } else {
        unfilter_undoes_filter(f, row, prev, has_prev, bpp, x - 1);
        let cur = unfilter_row(prev, has_prev, f, src, bpp, x - 1);
        let i = x - 1;
        let a = if i >= bpp { cur[i - bpp] } else { 0u8 };
        let b = if has_prev { prev[i] } else { 0u8 };
        let c = if i >= bpp && has_prev { prev[i - bpp] } else { 0u8 };
        if i >= bpp {
            assert(cur[i - bpp] == row[i - bpp]);
        }
        let pr = png_prediction(f, a as int, b as int, c as int);
        assert(src[i] == ((row[i] as int - pr) % 256) as u8);
        lemma_mod_undo(row[i] as int, pr);
        assert(unfilter_byte(f, src[i], a, b, c) == row[i]);
        assert(cur.push(row[i]) =~= row.subrange(0, x));
    }
}

} // verus!
