//! The runtime atlas of entity textures: where each texture goes on the
//! canvas (rows of textures, left to right, a new row when one is full),
//! and copying a texture into the canvas.
use vstd::prelude::*;
use crate::png::Rgba;

verus! {

/// Side of the entity atlas canvas, in pixels.
pub const CANVAS: u32 = 1024;

/// Whether destination byte `i` (of a `dlen`-byte buffer `dw` pixels wide)
/// receives a source byte when a `sw` by `sh` image of `slen` bytes is
/// copied at (`x`, `y`): its pixel lies on a canvas row below `CANVAS`,
/// covers a source pixel, and both pixels lie wholly inside their buffers.
pub open spec fn blit_hit(dlen: int, dw: int, x: int, y: int, sw: int, sh: int, slen: int, i: int) -> bool {
    let p = i / 4;
    let dy = p / dw;
    let sy = dy - y;
    let sx = p % dw - x;
    &&& dw > 0
    &&& 0 <= sy < sh
    &&& dy < CANVAS
    &&& 0 <= sx < sw
    &&& (sy * sw + sx) * 4 + 3 < slen
    &&& p * 4 + 3 < dlen
}

/// The source byte that destination byte `i` receives.
pub open spec fn blit_src(dw: int, x: int, y: int, sw: int, i: int) -> int {
    let p = i / 4;
    (((p / dw) - y) * sw + (p % dw - x)) * 4 + i % 4
}

/// Byte `i` of the destination after the copy.
pub open spec fn blit_byte(old: Seq<u8>, dw: int, x: int, y: int, sw: int, sh: int, spx: Seq<u8>, i: int) -> u8 {
    if blit_hit(old.len() as int, dw, x, y, sw, sh, spx.len() as int, i) {
        spx[blit_src(dw, x, y, sw, i)]
    } else {
        old[i]
    }
}

proof fn lemma_pixel_index(dy: int, dw: int, dx: int, c: int)
    requires
        0 <= dx < dw,
        0 <= dy,
        0 <= c < 4,
    ensures
        ((dy * dw + dx) * 4 + c) / 4 == dy * dw + dx,
        ((dy * dw + dx) * 4 + c) % 4 == c,
        (dy * dw + dx) / dw == dy,
        (dy * dw + dx) % dw == dx,
{
    vstd::arithmetic::div_mod::lemma_fundamental_div_mod_converse((dy * dw + dx) * 4 + c, 4, dy * dw + dx, c);
    vstd::arithmetic::div_mod::lemma_fundamental_div_mod_converse(dy * dw + dx, dw, dy, dx);
}

/// A byte whose pixel has row `dy` and column `dx` lies in that pixel.
proof fn lemma_pixel_of(i: int, dw: int, dy: int, dx: int)
    requires
        0 <= i,
        dw > 0,
        (i / 4) / dw == dy,
        (i / 4) % dw == dx,
    ensures
        (dy * dw + dx) * 4 <= i < (dy * dw + dx) * 4 + 4,
{
    vstd::arithmetic::div_mod::lemma_fundamental_div_mod(i / 4, dw);
    vstd::arithmetic::div_mod::lemma_fundamental_div_mod(i, 4);
    assert((i / 4) == dw * dy + dx);
    assert(0 <= i % 4 < 4);
}

/// Copies the pixels of `src` into the `dw`-pixel-wide RGBA buffer `dst` at
/// (`x`, `y`), clipped to the canvas height and to `dw` columns.
pub fn blit(dst: &mut [u8], dw: u32, x: u32, y: u32, src: &Rgba)
    requires
        y + src.h <= u32::MAX,
        x + src.w <= u32::MAX,
        src.w * src.h * 4 <= u32::MAX,
        dw * CANVAS * 4 <= u32::MAX,
    ensures
        final(dst)@.len() == old(dst)@.len(),
        forall|i: int| 0 <= i < old(dst)@.len() ==> #[trigger] final(dst)@[i]
            == blit_byte(old(dst)@, dw as int, x as int, y as int, src.w as int, src.h as int, src.px@, i),
{
    let ghost d0 = dst@;
    let ghost dl = d0.len() as int;
    let ghost sl = src.px@.len() as int;
    let ghost sw = src.w as int;
    let ghost sh = src.h as int;
    let mut sy: u32 = 0;
    while sy < src.h
        invariant_except_break
            sy <= src.h,
        invariant
            y + src.h <= u32::MAX,
            x + src.w <= u32::MAX,
            src.w * src.h * 4 <= u32::MAX,
            dw * CANVAS * 4 <= u32::MAX,
            dst@.len() == dl,
            sw == src.w,
            sh == src.h,
            sl == src.px@.len(),
            forall|i: int| 0 <= i < dl ==> #[trigger] dst@[i] == if blit_hit(dl, dw as int, x as int, y as int, sw, sh, sl, i)
                && (i / 4) / (dw as int) - y < sy { src.px@[blit_src(dw as int, x as int, y as int, sw, i)] } else { d0[i] },
        ensures
            forall|i: int| 0 <= i < dl && blit_hit(dl, dw as int, x as int, y as int, sw, sh, sl, i) ==> (i / 4) / (dw as int) - y < sy,
        decreases src.h - sy,
    {
        let dy = y + sy;
        if dy >= CANVAS {
            break;
        }
        let mut sx: u32 = 0;
        while sx < src.w
            invariant_except_break
                sx <= src.w,
            invariant
                y + src.h <= u32::MAX,
                x + src.w <= u32::MAX,
                src.w * src.h * 4 <= u32::MAX,
                dw * CANVAS * 4 <= u32::MAX,
                sy < src.h,
                dy == y + sy,
                dy < CANVAS,
                dst@.len() == dl,
                sw == src.w,
                sh == src.h,
                sl == src.px@.len(),
                forall|i: int| 0 <= i < dl ==> #[trigger] dst@[i] == if blit_hit(dl, dw as int, x as int, y as int, sw, sh, sl, i)
                    && ((i / 4) / (dw as int) - y < sy || ((i / 4) / (dw as int) - y == sy && (i / 4) % (dw as int) - x < sx))
                    { src.px@[blit_src(dw as int, x as int, y as int, sw, i)] } else { d0[i] },
            ensures
                forall|i: int| 0 <= i < dl && blit_hit(dl, dw as int, x as int, y as int, sw, sh, sl, i)
                    && (i / 4) / (dw as int) - y == sy ==> (i / 4) % (dw as int) - x < sx,
            decreases src.w - sx,
        {
            let dx = x + sx;
            if dx >= dw {
                break;
            }
            proof {
                assert((sy as int) * sw + (sx as int) < sw * sh) by (nonlinear_arith)
                    requires sy < sh, sx < sw;
                assert(((sy as int) * sw + (sx as int)) * 4 + 3 < sw * sh * 4 + 3) by (nonlinear_arith)
                    requires (sy as int) * sw + (sx as int) < sw * sh;
                assert((dy as int) * dw + (dx as int) < (CANVAS as int) * dw) by (nonlinear_arith)
                    requires dy < CANVAS, dx < dw;
                assert(((dy as int) * dw + (dx as int)) * 4 + 3 < (CANVAS as int) * dw * 4 + 3) by (nonlinear_arith)
                    requires (dy as int) * dw + (dx as int) < (CANVAS as int) * dw;
            }
            let si = ((sy * src.w + sx) * 4) as usize;
            let di = ((dy * dw + dx) * 4) as usize;
            let ghost before = dst@;
            if si + 3 < src.px.len() && di + 3 < dst.len() {
                dst[di] = src.px[si];
                dst[di + 1] = src.px[si + 1];
                dst[di + 2] = src.px[si + 2];
                dst[di + 3] = src.px[si + 3];
            }
            proof {
                assert forall|i: int| 0 <= i < dl implies #[trigger] dst@[i] == if blit_hit(dl, dw as int, x as int, y as int, sw, sh, sl, i)
                    && ((i / 4) / (dw as int) - y < sy || ((i / 4) / (dw as int) - y == sy && (i / 4) % (dw as int) - x < sx + 1))
                    { src.px@[blit_src(dw as int, x as int, y as int, sw, i)] } else { d0[i] } by {
                    let p = i / 4;
                    let ry = p / (dw as int);
                    let rx = p % (dw as int);
                    if ry == dy && rx == dx {
                        lemma_pixel_of(i, dw as int, dy as int, dx as int);
                        let c = i - (di as int);
                        lemma_pixel_index(dy as int, dw as int, dx as int, c);
                        assert(i == (di as int) + c);
                        assert(blit_src(dw as int, x as int, y as int, sw, i) == (si as int) + c);
                    } else if 0 <= i - (di as int) < 4 {
                        lemma_pixel_index(dy as int, dw as int, dx as int, i - (di as int));
                    }
                }
            }
            sx += 1;
        }
        sy += 1;
    }
}

/// Largest texture area taken into the atlas, in pixels.
pub const MAX_TEX_AREA: u64 = 262144;

/// One texture placed from the packing state (next x, row top, row height):
/// the next state and its rectangle (x, y, w, h); an all-zero rectangle for
/// a texture missing, too large, or that no longer fits below.
pub open spec fn shelf_step(st: (int, int, int), size: Option<(u32, u32)>) -> ((int, int, int), (u32, u32, u32, u32)) {
    let (x, y, rh) = st;
    match size {
        None => (st, (0, 0, 0, 0)),
        Some((w, h)) => if (w as int) * (h as int) > MAX_TEX_AREA {
            (st, (0, 0, 0, 0))
        } else {
            let (x1, y1, rh1) = if x + w > CANVAS { (0int, y + rh, 0int) } else { (x, y, rh) };
            if y1 + h > CANVAS {
                ((x1, y1, rh1), (0, 0, 0, 0))
            } else {
                ((x1 + w, y1, if rh1 >= h { rh1 } else { h as int }), (x1 as u32, y1 as u32, w, h))
            }
        },
    }
}

/// The textures of sizes `sizes` placed in turn from an empty canvas: the
/// final state and the rectangles.
pub open spec fn shelf_scan(sizes: Seq<Option<(u32, u32)>>) -> ((int, int, int), Seq<(u32, u32, u32, u32)>)
    decreases sizes.len(),
{
    if sizes.len() == 0 {
        ((0, 0, 0), Seq::empty())
    } else {
        let (st, rs) = shelf_scan(sizes.drop_last());
        let (st2, r) = shelf_step(st, sizes.last());
        (st2, rs.push(r))
    }
}

/// The packing state stays within the canvas: the next x at most one
/// texture width past it, the row's bottom inside it.
pub open spec fn shelf_ok(st: (int, int, int)) -> bool {
    0 <= st.0 <= 2 * CANVAS && 0 <= st.1 && 0 <= st.2 && st.1 + st.2 <= CANVAS
}

/// Texture sizes as the pack's decoder gives them.
pub open spec fn sizes_ok(sizes: Seq<Option<(u32, u32)>>) -> bool {
    forall|i: int| 0 <= i < sizes.len() ==> (#[trigger] sizes[i] matches Some((w, h)) ==> 1 <= w <= 1024 && 1 <= h <= 8192)
}

proof fn lemma_shelf_bounds(sizes: Seq<Option<(u32, u32)>>)
    requires
        sizes_ok(sizes),
    ensures
        shelf_ok(shelf_scan(sizes).0),
        shelf_scan(sizes).1.len() == sizes.len(),
    decreases sizes.len(),
{
    if sizes.len() > 0 {
        assert(sizes_ok(sizes.drop_last()));
        lemma_shelf_bounds(sizes.drop_last());
        assert(sizes.last() == sizes[sizes.len() - 1]);
    }
}

/// Places textures of the given sizes (`None` for a missing one) on the
/// atlas canvas in rows: a texture goes right of the previous one, or at the
/// start of a new row below when the row is full; a texture over
/// `MAX_TEX_AREA` pixels, or one that no longer fits below, gets an all-zero
/// rectangle.
pub fn shelf_pack(sizes: &[Option<(u32, u32)>]) -> (r: Vec<(u32, u32, u32, u32)>)
    requires
        sizes_ok(sizes@),
    ensures
        r@ == shelf_scan(sizes@).1,
{
    let mut out: Vec<(u32, u32, u32, u32)> = Vec::new();
    let mut x: u32 = 0;
    let mut y: u32 = 0;
    let mut rh: u32 = 0;
    let mut i: usize = 0;
    proof { assert(sizes@.subrange(0, 0) =~= Seq::<Option<(u32, u32)>>::empty()); }
    while i < sizes.len()
        invariant
            i <= sizes@.len(),
            shelf_scan(sizes@.subrange(0, i as int)) == ((x as int, y as int, rh as int), out@),
            shelf_ok((x as int, y as int, rh as int)),
            sizes_ok(sizes@),
        decreases sizes.len() - i,
    {
        proof {
            assert(sizes@.subrange(0, i + 1).drop_last() =~= sizes@.subrange(0, i as int));
            assert(sizes_ok(sizes@.subrange(0, i + 1)));
            lemma_shelf_bounds(sizes@.subrange(0, i + 1));
            assert(sizes@[i as int] == sizes@.subrange(0, i + 1).last());
        }
        let mut rect: (u32, u32, u32, u32) = (0, 0, 0, 0);
        match sizes[i] {
            None => {},
            Some((w, h)) => {
                proof {
                    assert((w as int) * (h as int) <= 1024 * 8192) by (nonlinear_arith)
                        requires 1 <= w <= 1024, 1 <= h <= 8192;
                }
                if (w as u64) * (h as u64) <= MAX_TEX_AREA {
                    if x + w > CANVAS {
                        x = 0;
                        y = y + rh;
                        rh = 0;
                    }
                    if y + h <= CANVAS {
                        rect = (x, y, w, h);
                        x = x + w;
                        if rh < h {
                            rh = h;
                        }
                    }
                }
            },
        }
        out.push(rect);
        i += 1;
    }
    proof { assert(sizes@.subrange(0, sizes@.len() as int) =~= sizes@); }
    out
}

/// A rectangle that holds a texture.
pub open spec fn placed(r: (u32, u32, u32, u32)) -> bool {
    r.2 > 0 && r.3 > 0
}

/// Placed rectangles never overlap: each later one lies right of or below
/// each earlier one. Every placed rectangle ends above the canvas bottom.
pub proof fn shelf_rects_disjoint(sizes: Seq<Option<(u32, u32)>>)
    requires
        sizes_ok(sizes),
    ensures
        ({
            let rs = shelf_scan(sizes).1;
            &&& forall|i: int, j: int| 0 <= i < j < rs.len() && placed(rs[i]) && placed(rs[j]) ==>
                rs[i].0 + rs[i].2 <= rs[j].0 || rs[i].1 + rs[i].3 <= rs[j].1
            &&& forall|i: int| 0 <= i < rs.len() && placed(rs[i]) ==> rs[i].1 + rs[i].3 <= CANVAS
        }),
    decreases sizes.len(),
{
    lemma_shelf_rows(sizes);
}

/// Where the placed rectangles stand relative to the packing state: every
/// one ends above the current row's bottom, and is either above the current
/// row or in it, left of the next x.
proof fn lemma_shelf_rows(sizes: Seq<Option<(u32, u32)>>)
    requires
        sizes_ok(sizes),
    ensures
        ({
            let (st, rs) = shelf_scan(sizes);
            &&& forall|i: int| 0 <= i < rs.len() && placed(#[trigger] rs[i]) ==> rs[i].1 + rs[i].3 <= st.1 + st.2
                && (rs[i].1 + rs[i].3 <= st.1 || (rs[i].1 == st.1 && rs[i].0 + rs[i].2 <= st.0))
            &&& forall|i: int, j: int| 0 <= i < j < rs.len() && placed(rs[i]) && placed(rs[j]) ==>
                rs[i].0 + rs[i].2 <= rs[j].0 || rs[i].1 + rs[i].3 <= rs[j].1
            &&& forall|i: int| 0 <= i < rs.len() && placed(rs[i]) ==> rs[i].1 + rs[i].3 <= CANVAS
        }),
    decreases sizes.len(),
{
    lemma_shelf_bounds(sizes);
    if sizes.len() > 0 {
        let pre = sizes.drop_last();
        assert(sizes_ok(pre));
        lemma_shelf_rows(pre);
        lemma_shelf_bounds(pre);
        let (st, rs) = shelf_scan(pre);
        let (st2, r) = shelf_step(st, sizes.last());
        let rs2 = rs.push(r);
        assert(shelf_scan(sizes) == (st2, rs2));
        assert forall|i: int| 0 <= i < rs2.len() && placed(#[trigger] rs2[i]) implies rs2[i].1 + rs2[i].3 <= st2.1 + st2.2
            && (rs2[i].1 + rs2[i].3 <= st2.1 || (rs2[i].1 == st2.1 && rs2[i].0 + rs2[i].2 <= st2.0)) by {
            if i < rs.len() {
                assert(rs2[i] == rs[i]);
            }
        }
        assert forall|i: int, j: int| 0 <= i < j < rs2.len() && placed(rs2[i]) && placed(rs2[j]) implies
            rs2[i].0 + rs2[i].2 <= rs2[j].0 || rs2[i].1 + rs2[i].3 <= rs2[j].1 by {
            assert(rs2[i] == rs[i]);
            if j < rs.len() {
                assert(rs2[j] == rs[j]);
            } else {
                assert(placed(rs[i]));
            }
        }
        assert forall|i: int| 0 <= i < rs2.len() && placed(rs2[i]) implies rs2[i].1 + rs2[i].3 <= CANVAS by {
            if i < rs.len() {
                assert(rs2[i] == rs[i]);
            }
        }
    }
}

} // verus!
