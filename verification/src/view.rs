//! The chunks around the player: the order in which they are loaded and
//! the neighbours a chunk's mesh depends on.
use vstd::prelude::*;

verus! {

/// Side of the square of offsets of a radius.
pub open spec fn side(r: int) -> int {
    2 * r + 1
}

/// The offsets (dx, dz) with both coordinates in `-r..=r`, dx major, each
/// coordinate ascending.
pub open spec fn square(r: int) -> Seq<(i32, i32)> {
    Seq::new(if r < 0 { 0 } else { (side(r) * side(r)) as nat }, |i: int| ((-r + i / side(r)) as i32, (-r + i % side(r)) as i32))
}

/// Squared distance of an offset from the centre.
pub open spec fn dist2(o: (i32, i32)) -> int {
    o.0 * o.0 + o.1 * o.1
}

/// The offsets of `s` at squared distance `k`, in their order in `s`.
pub open spec fn at_dist(s: Seq<(i32, i32)>, k: int) -> Seq<(i32, i32)>
    decreases s.len(),
{
    if s.len() == 0 {
        Seq::empty()
    } else {
        let rest = at_dist(s.drop_last(), k);
        if dist2(s.last()) == k { rest.push(s.last()) } else { rest }
    }
}

/// The offsets of `s` at squared distance at most `k`, nearest first, in
/// their order in `s` at equal distance (a stable sort by distance).
pub open spec fn by_dist(s: Seq<(i32, i32)>, k: int) -> Seq<(i32, i32)>
    decreases k + 1,
{
    if k < 0 {
        Seq::empty()
    } else {
        by_dist(s, k - 1) + at_dist(s, k)
    }
}

proof fn lemma_at_dist_members(s: Seq<(i32, i32)>, k: int)
    ensures
        forall|i: int| 0 <= i < at_dist(s, k).len() ==> dist2(#[trigger] at_dist(s, k)[i]) == k,
    decreases s.len(),
{
    if s.len() > 0 {
        lemma_at_dist_members(s.drop_last(), k);
        let rest = at_dist(s.drop_last(), k);
        if dist2(s.last()) == k {
            assert forall|i: int| 0 <= i < rest.push(s.last()).len() implies dist2(#[trigger] rest.push(s.last())[i]) == k by {
                if i < rest.len() {
                    assert(rest.push(s.last())[i] == rest[i]);
                }
            }
        }
    }
}

/// Offsets ordered by `by_dist` come nearest first, none beyond `k`.
proof fn lemma_by_dist_sorted(s: Seq<(i32, i32)>, k: int)
    ensures
        forall|i: int, j: int| 0 <= i < j < by_dist(s, k).len() ==> dist2(#[trigger] by_dist(s, k)[i]) <= dist2(#[trigger] by_dist(s, k)[j]),
        forall|i: int| 0 <= i < by_dist(s, k).len() ==> dist2(#[trigger] by_dist(s, k)[i]) <= k,
    decreases k + 1,
{
    if k >= 0 {
        lemma_by_dist_sorted(s, k - 1);
        lemma_at_dist_members(s, k);
        let a = by_dist(s, k - 1);
        let b = at_dist(s, k);
        assert(by_dist(s, k) == a + b);
        assert forall|i: int| 0 <= i < (a + b).len() implies dist2(#[trigger] (a + b)[i]) <= k by {
            if i >= a.len() {
                assert((a + b)[i] == b[i - a.len()]);
            }
        }
        assert forall|i: int, j: int| 0 <= i < j < (a + b).len() implies dist2(#[trigger] (a + b)[i]) <= dist2(#[trigger] (a + b)[j]) by {
            if j >= a.len() {
                assert((a + b)[j] == b[j - a.len()]);
                if i < a.len() {
                    assert((a + b)[i] == a[i]);
                } else {
                    assert((a + b)[i] == b[i - a.len()]);
                }
            } else {
                assert((a + b)[i] == a[i]);
                assert((a + b)[j] == a[j]);
            }
        }
    }
}

proof fn lemma_by_dist_empty(s: Seq<(i32, i32)>, k: int)
    requires
        s.len() == 0,
    ensures
        by_dist(s, k) == Seq::<(i32, i32)>::empty(),
    decreases k + 1,
{
    if k >= 0 {
        lemma_by_dist_empty(s, k - 1);
        assert(by_dist(s, k - 1) + at_dist(s, k) =~= Seq::<(i32, i32)>::empty());
    }
}

proof fn lemma_square_bounds(r: int)
    requires
        0 <= r <= 32767,
    ensures
        forall|j: int| 0 <= j < square(r).len() ==> -32767 <= (#[trigger] square(r)[j]).0 <= 32767
            && -32767 <= square(r)[j].1 <= 32767,
{
    let n = side(r);
    assert forall|j: int| 0 <= j < square(r).len() implies -32767 <= (#[trigger] square(r)[j]).0 <= 32767
        && -32767 <= square(r)[j].1 <= 32767 by {
        assert(0 <= j / n < n && 0 <= j % n < n) by (nonlinear_arith)
            requires 0 <= j < n * n, n > 0;
    }
}

/// The chunk offsets within `radius` on both axes, nearest first (offsets
/// at the same distance keep the order of the square, dx major).
pub fn offsets(radius: i32) -> (r: Vec<(i32, i32)>)
    requires
        radius <= 32767,
    ensures
        r@ == by_dist(square(radius as int), 2 * radius * radius),
        forall|i: int, j: int| 0 <= i < j < r@.len() ==> dist2(#[trigger] r@[i]) <= dist2(#[trigger] r@[j]),
{
    let ghost sq = square(radius as int);
    let mut all: Vec<(i32, i32)> = Vec::new();
    if radius >= 0 {
        let mut dx = -radius;
        assert(all@ =~= sq.subrange(0, 0));
        while dx <= radius
            invariant
                0 <= radius <= 32767,
                -radius <= dx <= radius + 1,
                sq == square(radius as int),
                all@ == sq.subrange(0, (dx + radius) * side(radius as int)),
            decreases radius - dx + 1,
        {
            let mut dz = -radius;
            while dz <= radius
                invariant
                    0 <= radius <= 32767,
                    -radius <= dx <= radius,
                    -radius <= dz <= radius + 1,
                    sq == square(radius as int),
                    all@ == sq.subrange(0, (dx + radius) * side(radius as int) + (dz + radius)),
                decreases radius - dz + 1,
            {
                proof {
                    let n = side(radius as int);
                    let i = (dx + radius) * n + (dz + radius);
                    assert(i < n * n) by (nonlinear_arith)
                        requires i == (dx + radius) * n + (dz + radius), 0 <= dx + radius < n, 0 <= dz + radius < n;
                    assert(i / n == dx + radius && i % n == dz + radius) by (nonlinear_arith)
                        requires i == (dx + radius) * n + (dz + radius), 0 <= dz + radius < n, 0 <= dx + radius, n > 0;
                    assert(sq[i] == (dx, dz));
                    assert(sq.subrange(0, i + 1) =~= sq.subrange(0, i).push(sq[i]));
                }
                all.push((dx, dz));
                dz += 1;
            }
            proof {
                let n = side(radius as int);
                assert((dx + radius) * n + (dz + radius) == (dx + 1 + radius) * n) by (nonlinear_arith)
                    requires dz == radius + 1, n == 2 * radius + 1;
            }
            dx += 1;
        }
        proof {
            let n = side(radius as int);
            assert((dx + radius) * n == n * n) by (nonlinear_arith)
                requires dx == radius + 1, n == 2 * radius + 1;
            assert(sq.subrange(0, n * n) =~= sq);
        }
    } else {
        proof {
            assert(sq.len() == 0);
            assert(all@ =~= sq);
        }
    }
    proof {
        if radius >= 0 {
            assert(2 * radius * radius <= 2 * 32767 * 32767) by (nonlinear_arith)
                requires 0 <= radius <= 32767;
            lemma_square_bounds(radius as int);
        }
    }
    let kmax: i32 = if radius >= 0 { 2 * radius * radius } else { -1 };
    let mut out: Vec<(i32, i32)> = Vec::new();
    let mut k: i32 = 0;
    while k <= kmax
        invariant
            0 <= k <= kmax + 1 || (kmax < 0 && k == 0),
            all@ == sq,
            out@ == by_dist(sq, k - 1),
            kmax < 2147483647,
            radius >= 0 ==> kmax == 2 * radius * radius,
            radius < 0 ==> kmax == -1 && sq.len() == 0,
            radius >= 0 ==> forall|j: int| 0 <= j < sq.len() ==> -32767 <= (#[trigger] sq[j]).0 <= 32767
                && -32767 <= sq[j].1 <= 32767,
        decreases kmax + 1 - k,
    {
        let ghost before = out@;
        for i in 0usize..all.len()
            invariant
                all@ == sq,
                out@ == before + at_dist(sq.subrange(0, i as int), k as int),
                forall|j: int| 0 <= j < sq.len() ==> -32767 <= (#[trigger] sq[j]).0 <= 32767
                    && -32767 <= sq[j].1 <= 32767,
        {
            let (dx, dz) = all[i];
            proof {
                assert(sq.subrange(0, i + 1).drop_last() =~= sq.subrange(0, i as int));
                assert(sq[i as int] == (dx, dz));
                assert(-32767 <= sq[i as int].0 <= 32767 && -32767 <= sq[i as int].1 <= 32767);
                assert(0 <= dx * dx <= 32767 * 32767 && 0 <= dz * dz <= 32767 * 32767) by (nonlinear_arith)
                    requires -32767 <= dx <= 32767, -32767 <= dz <= 32767;
            }
            if dx * dx + dz * dz == k {
                out.push((dx, dz));
            }
        }
        proof {
            assert(sq.subrange(0, sq.len() as int) =~= sq);
        }
        k += 1;
    }
    proof {
        if radius < 0 {
            lemma_by_dist_empty(sq, 2 * radius * radius);
        }
        lemma_by_dist_sorted(sq, 2 * radius * radius);
    }
    out
}

/// The eight chunks around (`cx`, `cz`): the four sides (west, east,
/// north, south) then the four corners.
pub fn neighbors8(cx: i32, cz: i32) -> (r: [(i32, i32); 8])
    requires
        i32::MIN < cx < i32::MAX,
        i32::MIN < cz < i32::MAX,
    ensures
        r@ == seq![((cx - 1) as i32, cz), ((cx + 1) as i32, cz), (cx, (cz - 1) as i32), (cx, (cz + 1) as i32),
            ((cx - 1) as i32, (cz - 1) as i32), ((cx + 1) as i32, (cz - 1) as i32),
            ((cx - 1) as i32, (cz + 1) as i32), ((cx + 1) as i32, (cz + 1) as i32)],
{
    let r = [
        (cx - 1, cz),
        (cx + 1, cz),
        (cx, cz - 1),
        (cx, cz + 1),
        (cx - 1, cz - 1),
        (cx + 1, cz - 1),
        (cx - 1, cz + 1),
        (cx + 1, cz + 1),
    ];
    assert(r@ =~= seq![((cx - 1) as i32, cz), ((cx + 1) as i32, cz), (cx, (cz - 1) as i32), (cx, (cz + 1) as i32),
        ((cx - 1) as i32, (cz - 1) as i32), ((cx + 1) as i32, (cz - 1) as i32),
        ((cx - 1) as i32, (cz + 1) as i32), ((cx + 1) as i32, (cz + 1) as i32)]);
    r
}

} // verus!
