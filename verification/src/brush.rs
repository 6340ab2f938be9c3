//! Weighted erosion brushes.
//!
//! For every cell of the grid the builder collects the neighbouring cells
//! within a circular radius (a disc, not a square), weights each by inverse
//! linear distance (`1 - dist / radius`, in fixed point), and renormalizes
//! the weights of each cell so they sum to one unit. The erosion simulator
//! uses these lists to spread each droplet's deposit or removal smoothly
//! over the neighbourhood.

use vstd::prelude::*;
use vstd::arithmetic::div_mod::lemma_fundamental_div_mod_converse;
use vstd::arithmetic::div_mod::lemma_div_is_ordered;
use vstd::arithmetic::div_mod::lemma_div_by_multiple;
use crate::fixedp::isqrt;

verus! {

/// One brush entry: absolute cell coordinates and a fixed-point weight.
pub type BrushEntry = (usize, usize, i32);

/// Fixed-point scale for brush weights (one unit).
pub const WEIGHT_SCALE: i32 = 1_000_000;

/// Floor of the square root of a non-negative integer.
pub open spec fn sqrt_floor(n: int) -> int {
    choose|s: int| 0 <= s && #[trigger] (s * s) <= n && n < (s + 1) * (s + 1)
}

pub proof fn lemma_sqrt_floor_unique(n: int, s: int)
    requires
        0 <= s,
        s * s <= n,
        n < (s + 1) * (s + 1),
    ensures
        sqrt_floor(n) == s,
{
    assert(0 <= s && s * s <= n && n < (s + 1) * (s + 1));
    let t = sqrt_floor(n);
    assert(0 <= t && t * t <= n && n < (t + 1) * (t + 1));
    if t < s {
        assert((t + 1) * (t + 1) <= s * s) by (nonlinear_arith)
            requires
                0 <= t,
                t + 1 <= s,
        ;
    }
    if s < t {
        assert((s + 1) * (s + 1) <= t * t) by (nonlinear_arith)
            requires
                0 <= s,
                s + 1 <= t,
        ;
    }
}

/// Weight of an offset before renormalization: `1 - dist/radius` in fixed
/// point, computed as an exact integer square root.
pub open spec fn raw_weight(dx: int, dy: int, r: int) -> int {
    1_000_000 - sqrt_floor(((dx * dx + dy * dy) * 1_000_000_000_000) / (r * r))
}

/// The admitted entries of one cell's brush after the first `k` candidates
/// of the `(2r+1) x (2r+1)` scan (row by row, `dy` outermost), with their
/// raw weights.
pub open spec fn scan_entries(w: int, h: int, r: int, cx: int, cy: int, k: nat) -> Seq<
    (int, int, int),
>
    decreases k,
{
    if k == 0 {
        Seq::empty()
    } else {
        let j = k - 1;
        let dy = j / (2 * r + 1) - r;
        let dx = j % (2 * r + 1) - r;
        let rest = scan_entries(w, h, r, cx, cy, (k - 1) as nat);
        if dx * dx + dy * dy <= r * r && 0 <= cx + dx < w && 0 <= cy + dy < h {
            rest.push((cx + dx, cy + dy, raw_weight(dx, dy, r)))
        } else {
            rest
        }
    }
}

/// All admitted entries of one cell's brush, raw weights.
pub open spec fn cell_raw_entries(w: int, h: int, r: int, cx: int, cy: int) -> Seq<
    (int, int, int),
> {
    scan_entries(w, h, r, cx, cy, ((2 * r + 1) * (2 * r + 1)) as nat)
}

/// Sum of the weights of a list of entries.
pub open spec fn sum_weights(s: Seq<(int, int, int)>) -> int
    decreases s.len(),
{
    if s.len() == 0 {
        0
    } else {
        sum_weights(s.drop_last()) + s.last().2
    }
}

/// Renormalize raw weights so they sum to (almost) one unit.
pub open spec fn normalize(s: Seq<(int, int, int)>, total: int) -> Seq<(int, int, int)> {
    s.map_values(|e: (int, int, int)| (e.0, e.1, e.2 * 1_000_000 / total))
}

/// The finished brush of one cell.
pub open spec fn cell_brush(w: int, h: int, r: int, cx: int, cy: int) -> Seq<(int, int, int)> {
    normalize(cell_raw_entries(w, h, r, cx, cy), sum_weights(cell_raw_entries(w, h, r, cx, cy)))
}

/// The view of an executable entry list as a mathematical one.
pub open spec fn entry_view(s: Seq<BrushEntry>) -> Seq<(int, int, int)> {
    s.map_values(|e: BrushEntry| (e.0 as int, e.1 as int, e.2 as int))
}

/// The view of a whole brush as mathematical entry lists.
pub open spec fn brush_view(s: Seq<Vec<BrushEntry>>) -> Seq<Seq<(int, int, int)>> {
    s.map_values(|v: Vec<BrushEntry>| entry_view(v@))
}

/// The view of a raw (pre-normalization) entry list.
pub open spec fn raw_view(s: Seq<(usize, usize, u32)>) -> Seq<(int, int, int)> {
    s.map_values(|e: (usize, usize, u32)| (e.0 as int, e.1 as int, e.2 as int))
}

pub proof fn lemma_sum_push(s: Seq<(int, int, int)>, e: (int, int, int))
    ensures
        sum_weights(s.push(e)) == sum_weights(s) + e.2,
{
    assert(s.push(e).drop_last() =~= s);
    assert(s.push(e).last() == e);
}

pub proof fn lemma_sum_nonneg(s: Seq<(int, int, int)>)
    requires
        forall|i: int| 0 <= i < s.len() ==> (#[trigger] s[i]).2 >= 0,
    ensures
        sum_weights(s) >= 0,
    decreases s.len(),
{
    if s.len() > 0 {
        assert(forall|i: int|
            0 <= i < s.len() - 1 ==> (#[trigger] s.drop_last()[i]) == s[i]);
        lemma_sum_nonneg(s.drop_last());
        assert(s.last() == s[s.len() - 1]);
    }
}

/// With all weights non-negative, no single weight exceeds the sum.
pub proof fn lemma_sum_element_le(s: Seq<(int, int, int)>, i: int)
    requires
        forall|j: int| 0 <= j < s.len() ==> (#[trigger] s[j]).2 >= 0,
        0 <= i < s.len(),
    ensures
        s[i].2 <= sum_weights(s),
    decreases s.len(),
{
    assert(forall|j: int| 0 <= j < s.len() - 1 ==> (#[trigger] s.drop_last()[j]) == s[j]);
    assert(s.last() == s[s.len() - 1]);
    if i == s.len() - 1 {
        lemma_sum_nonneg(s.drop_last());
    } else {
        lemma_sum_element_le(s.drop_last(), i);
    }
}

/// Integer division distributes over a sum up to one unit of rounding.
proof fn lemma_div_parts(a: int, b: int, t: int)
    requires
        t >= 1,
        a >= 0,
        b >= 0,
    ensures
        a / t + b / t <= (a + b) / t,
        (a + b) / t <= a / t + b / t + 1,
{
    assert(a / t + b / t <= (a + b) / t && (a + b) / t <= a / t + b / t + 1) by (nonlinear_arith)
        requires
            t >= 1,
            a >= 0,
            b >= 0,
    ;
}

/// Renormalized weights sum to the scaled total, up to one rounding unit
/// lost per entry.
pub proof fn lemma_norm_sum_bounds(s: Seq<(int, int, int)>, t: int)
    requires
        t >= 1,
        forall|i: int| 0 <= i < s.len() ==> (#[trigger] s[i]).2 >= 0,
    ensures
        sum_weights(normalize(s, t)) <= sum_weights(s) * 1_000_000 / t,
        sum_weights(normalize(s, t)) >= sum_weights(s) * 1_000_000 / t - s.len(),
    decreases s.len(),
{
    if s.len() == 0 {
        assert(normalize(s, t).len() == 0);
    } else {
        let pre = s.drop_last();
        let a = s.last().2;
        assert(forall|i: int| 0 <= i < pre.len() ==> (#[trigger] pre[i]) == s[i]);
        lemma_norm_sum_bounds(pre, t);
        lemma_sum_nonneg(pre);
        assert(normalize(s, t).drop_last() =~= normalize(pre, t));
        assert(normalize(s, t).last() == (s.last().0, s.last().1, a * 1_000_000 / t));
        assert(sum_weights(normalize(s, t)) == sum_weights(normalize(pre, t)) + a * 1_000_000
            / t);
        assert(sum_weights(s) == sum_weights(pre) + a);
        assert(a * 1_000_000 >= 0);
        assert(sum_weights(pre) * 1_000_000 >= 0);
        lemma_div_parts(sum_weights(pre) * 1_000_000, a * 1_000_000, t);
        assert((sum_weights(pre) + a) * 1_000_000 == sum_weights(pre) * 1_000_000 + a
            * 1_000_000) by (nonlinear_arith);
        assert(sum_weights(s) * 1_000_000 == sum_weights(pre) * 1_000_000 + a * 1_000_000);
        assert(sum_weights(s) * 1_000_000 / t <= sum_weights(pre) * 1_000_000 / t + a * 1_000_000
            / t + 1);
        assert(sum_weights(normalize(pre, t)) >= sum_weights(pre) * 1_000_000 / t - pre.len());
        assert(sum_weights(normalize(s, t)) >= sum_weights(s) * 1_000_000 / t - s.len());
    }
}

/// Well-formedness of one cell's finished brush: every entry lies inside
/// the grid, weights are single non-negative fixed-point units, and the
/// weights sum to one unit up to one rounding step per entry.
pub open spec fn brush_cell_ok(s: Seq<BrushEntry>, w: int, h: int) -> bool {
    &&& forall|j: int|
        0 <= j < s.len() ==> (#[trigger] s[j]).0 < w && s[j].1 < h && 0 <= s[j].2 <= 1_000_000
    &&& 1_000_000 - s.len() <= sum_weights(entry_view(s)) <= 1_000_000
    &&& s.len() >= 1
}

/// Build the brush of a single cell: scan the surrounding square, keep the
/// in-grid cells of the disc, then renormalize the weights.
fn build_cell_brush(w: usize, h: usize, radius: u32, cx: usize, cy: usize) -> (res: Vec<
    BrushEntry,
>)
    requires
        w >= 1,
        h >= 1,
        w * h <= 0x4000_0000,
        1 <= radius,
        (radius as int) < w,
        (radius as int) < h,
        cx < w,
        cy < h,
    ensures
        entry_view(res@) == cell_brush(w as int, h as int, radius as int, cx as int, cy as int),
        brush_cell_ok(res@, w as int, h as int),
{
    let ghost bw = w as int;
    let ghost bh = h as int;
    let ghost br = radius as int;
    proof {
        assert((radius as int) * (radius as int) < bw * bh) by (nonlinear_arith)
            requires
                1 <= radius as int,
                (radius as int) < bw,
                (radius as int) < bh,
        ;
        assert((radius as int) < 0x8000) by (nonlinear_arith)
            requires
                (radius as int) * (radius as int) < 0x4000_0000,
                (radius as int) >= 1,
        ;
        assert(bw <= 0x4000_0000 && bh <= 0x4000_0000) by (nonlinear_arith)
            requires
                bw >= 1,
                bh >= 1,
                bw * bh <= 0x4000_0000,
        ;
    }
    let side: u64 = 2 * (radius as u64) + 1;
    let ri: i64 = radius as i64;
    let r2: i64 = ri * ri;
    proof {
        assert(1 <= r2 < 0x4000_0000) by (nonlinear_arith)
            requires
                r2 == (ri as int) * (ri as int),
                1 <= (ri as int),
                (ri as int) < 0x8000,
        ;
    }
    proof {
        assert((side as int) * (side as int) <= 0x2_0000 * 0x2_0000) by (nonlinear_arith)
            requires
                side as int <= 0x2_0000,
        ;
    }
    let cand: u64 = side * side;
    let mut raws: Vec<(usize, usize, u32)> = Vec::new();
    let mut total: u64 = 0;
    let mut j: u64 = 0;
    let mut dyi: u64 = 0;
    while dyi < side
        invariant
            dyi <= side,
            j == dyi * side,
            side == 2 * br + 1,
            r2 == br * br,
            1 <= r2 < 0x4000_0000,
            ri == br,
            1 <= br < 0x8000,
            br < bw,
            br < bh,
            bw == w as int,
            bh == h as int,
            bw <= 0x4000_0000,
            bh <= 0x4000_0000,
            w * h <= 0x4000_0000,
            cx < w,
            cy < h,
            cand == side * side,
            cand <= 0x4_0000_0000,
            raw_view(raws@) =~= scan_entries(bw, bh, br, cx as int, cy as int, j as nat),
            total == sum_weights(scan_entries(bw, bh, br, cx as int, cy as int, j as nat)),
            total <= j * 1_000_000,
            j > br * side + br ==> total >= 1_000_000,
            forall|e: int|
                0 <= e < raws@.len() ==> (#[trigger] raws@[e]).0 < w && raws@[e].1 < h
                    && raws@[e].2 <= 1_000_000,
        decreases side - dyi,
    {
        let mut dxi: u64 = 0;
        proof {
            assert((dyi + 1) * side == dyi * side + side) by (nonlinear_arith);
            assert(dyi * side + side <= side * side) by (nonlinear_arith)
                requires
                    dyi + 1 <= side,
                    side >= 0,
            ;
        }
        while dxi < side
            invariant
                dxi <= side,
                dyi < side,
                j == dyi * side + dxi,
                dyi * side + side <= side * side,
                side == 2 * br + 1,
                r2 == br * br,
                1 <= r2 < 0x4000_0000,
                ri == br,
                1 <= br < 0x8000,
                br < bw,
                br < bh,
                bw == w as int,
                bh == h as int,
                bw <= 0x4000_0000,
                bh <= 0x4000_0000,
                w * h <= 0x4000_0000,
                cx < w,
                cy < h,
                cand == side * side,
                cand <= 0x4_0000_0000,
                raw_view(raws@) =~= scan_entries(bw, bh, br, cx as int, cy as int, j as nat),
                total == sum_weights(scan_entries(bw, bh, br, cx as int, cy as int, j as nat)),
                total <= j * 1_000_000,
                j > br * side + br ==> total >= 1_000_000,
                forall|e: int|
                    0 <= e < raws@.len() ==> (#[trigger] raws@[e]).0 < w && raws@[e].1 < h
                        && raws@[e].2 <= 1_000_000,
            decreases side - dxi,
        {
            proof {
                lemma_fundamental_div_mod_converse(j as int, side as int, dyi as int, dxi as int);
            }
            let dy: i64 = dyi as i64 - ri;
            let dx: i64 = dxi as i64 - ri;
            let ghost sdy: int = (j as int) / (2 * br + 1) - br;
            let ghost sdx: int = (j as int) % (2 * br + 1) - br;
            proof {
                assert(sdy == dy as int);
                assert(sdx == dx as int);
                assert(0 <= dx * dx <= 0x8000 * 0x8000 && 0 <= dy * dy <= 0x8000 * 0x8000)
                    by (nonlinear_arith)
                    requires
                        -0x8000 <= dx as int <= 0x8000,
                        -0x8000 <= dy as int <= 0x8000,
                ;
            }
            let d2: i64 = dx * dx + dy * dy;
            proof {
                assert(d2 >= 0) by (nonlinear_arith)
                    requires
                        d2 == (dx as int) * (dx as int) + (dy as int) * (dy as int),
                ;
            }
            let ghost prev_entries = scan_entries(bw, bh, br, cx as int, cy as int, j as nat);
            if d2 <= r2 {
                let x64: i64 = cx as i64 + dx;
                let y64: i64 = cy as i64 + dy;
                if 0 <= x64 && x64 < w as i64 && 0 <= y64 && y64 < h as i64 {
                    // In the disc and inside the grid: weight 1 - dist/radius.
                    let scaled_w: u128 = (d2 as u128) * 1_000_000_000_000 / (r2 as u128);
                    proof {
                        lemma_div_is_ordered(
                            (d2 as int) * 1_000_000_000_000,
                            (r2 as int) * 1_000_000_000_000,
                            r2 as int,
                        );
                        assert((d2 as int) * 1_000_000_000_000 <= (r2 as int)
                            * 1_000_000_000_000) by (nonlinear_arith)
                            requires
                                0 <= d2 as int <= r2 as int,
                        ;
                        lemma_div_by_multiple(1_000_000_000_000, r2 as int);
                        assert((r2 as int) * 1_000_000_000_000 == 1_000_000_000_000 * (
                        r2 as int)) by (nonlinear_arith);
                        assert(scaled_w <= 1_000_000_000_000);
                    }
                    let q: u64 = isqrt(scaled_w as u64);
                    proof {
                        assert(q <= 1_000_000) by (nonlinear_arith)
                            requires
                                (q as int) * (q as int) <= 1_000_000_000_000,
                                q as int >= 0,
                        ;
                        lemma_sqrt_floor_unique(scaled_w as int, q as int);
                    }
                    let raw: u32 = 1_000_000 - (q as u32);
                    let ghost entry: (int, int, int) = (
                        (cx as int) + sdx,
                        (cy as int) + sdy,
                        raw_weight(sdx, sdy, br),
                    );
                    proof {
                        assert(entry.2 == raw as int);
                        lemma_sum_push(prev_entries, entry);
                        assert(raw_view(raws@.push((x64 as usize, y64 as usize, raw)))
                            =~= raw_view(raws@).push((x64 as int, y64 as int, raw as int)));
                    }
                    raws.push((x64 as usize, y64 as usize, raw));
                    total = total + raw as u64;
                }
            }
            proof {
                // The scan advances by one candidate either way.
                assert(scan_entries(bw, bh, br, cx as int, cy as int, (j + 1) as nat)
                    == if sdx * sdx + sdy * sdy <= br * br && 0 <= cx + sdx < bw && 0 <= cy + sdy
                    < bh {
                    prev_entries.push(
                        ((cx as int) + sdx, (cy as int) + sdy, raw_weight(sdx, sdy, br)),
                    )
                } else {
                    prev_entries
                });
                if j == br * side + br {
                    // The centre cell itself: weight is one full unit.
                    assert(sdy == 0 && sdx == 0) by {
                        lemma_fundamental_div_mod_converse(
                            br * (2 * br + 1) + br,
                            2 * br + 1,
                            br,
                            br,
                        );
                    }
                    assert(raw_weight(0, 0, br) == 1_000_000) by {
                        lemma_sqrt_floor_unique(0, 0);
                        assert((0int * 0 + 0 * 0) * 1_000_000_000_000 / (br * br) == 0);
                    }
                }
            }
            j = j + 1;
            dxi = dxi + 1;
        }
        dyi = dyi + 1;
    }
    proof {
        assert(j == cand);
        assert((side as int) * (side as int) == (2 * br + 1) * (2 * br + 1));
        assert(raw_view(raws@) == cell_raw_entries(bw, bh, br, cx as int, cy as int));
        assert(br * side + br < side * side) by (nonlinear_arith)
            requires
                side == 2 * br + 1,
                br >= 1,
        ;
        assert(total >= 1_000_000);
    }

    // Renormalize: each weight becomes its share of one fixed-point unit.
    let ghost rv = raw_view(raws@);
    let ghost t = total as int;
    proof {
        assert(forall|e: int| 0 <= e < rv.len() ==> (#[trigger] rv[e]).2 >= 0);
    }
    let mut res: Vec<BrushEntry> = Vec::new();
    let mut idx: usize = 0;
    let len = raws.len();
    while idx < len
        invariant
            idx <= len,
            len == raws.len(),
            t == total as int,
            total >= 1_000_000,
            rv == raw_view(raws@),
            entry_view(res@) =~= normalize(rv, t).take(idx as int),
            forall|e: int|
                0 <= e < raws@.len() ==> (#[trigger] raws@[e]).0 < w && raws@[e].1 < h
                    && raws@[e].2 <= 1_000_000,
            forall|e: int|
                0 <= e < res@.len() ==> (#[trigger] res@[e]).0 < w && res@[e].1 < h && 0
                    <= res@[e].2 <= 1_000_000,
        decreases len - idx,
    {
        let (x, y, raw) = raws[idx];
        proof {
            lemma_sum_element_le(rv, idx as int);
            lemma_sum_nonneg(rv);
            assert((raw as int) * 1_000_000 <= t * 1_000_000) by (nonlinear_arith)
                requires
                    raw as int <= t,
            ;
            lemma_div_is_ordered((raw as int) * 1_000_000, t * 1_000_000, t);
            lemma_div_by_multiple(1_000_000, t);
            assert(t * 1_000_000 == 1_000_000 * t) by (nonlinear_arith);
            assert((raw as int) * 1_000_000 / t <= 1_000_000);
            assert(normalize(rv, t).take(idx + 1).drop_last() =~= normalize(rv, t).take(
                idx as int,
            ));
        }
        let wn: u64 = (raw as u64) * 1_000_000 / total;
        res.push((x, y, wn as i32));
        idx = idx + 1;
    }
    proof {
        assert(normalize(rv, t).take(len as int) =~= normalize(rv, t));
        assert(rv == cell_raw_entries(bw, bh, br, cx as int, cy as int));
        assert(t == sum_weights(rv));
        assert(entry_view(res@) == cell_brush(bw, bh, br, cx as int, cy as int));
        lemma_norm_sum_bounds(rv, t);
        lemma_div_by_multiple(1_000_000, t);
        assert(t * 1_000_000 == 1_000_000 * t) by (nonlinear_arith);
        assert(sum_weights(normalize(rv, t)) <= 1_000_000);
        assert(normalize(rv, t).len() == rv.len());
        assert(res@.len() == rv.len());
        assert(sum_weights(entry_view(res@)) >= 1_000_000 - res@.len());
        if res@.len() == 0 {
            assert(sum_weights(entry_view(res@)) == 0);
        }
        assert(res@.len() >= 1);
    }
    res
}

/// Build the whole brush: one weighted neighbour list per grid cell, in
/// row-major order.
pub fn create_brush(map_size: (usize, usize), radius: u32) -> (res: Vec<Vec<BrushEntry>>)
    requires
        map_size.0 >= 1,
        map_size.1 >= 1,
        map_size.0 * map_size.1 <= 0x4000_0000,
        1 <= radius,
        (radius as int) < map_size.0,
        (radius as int) < map_size.1,
    ensures
        res@.len() == map_size.0 * map_size.1,
        forall|ci: int|
            0 <= ci < res@.len() ==> entry_view(#[trigger] res@[ci]@) == cell_brush(
                map_size.0 as int,
                map_size.1 as int,
                radius as int,
                ci % (map_size.0 as int),
                ci / (map_size.0 as int),
            ),
        forall|ci: int|
            0 <= ci < res@.len() ==> brush_cell_ok(
                #[trigger] res@[ci]@,
                map_size.0 as int,
                map_size.1 as int,
            ),
{
    let w = map_size.0;
    let h = map_size.1;
    let mut res: Vec<Vec<BrushEntry>> = Vec::new();
    let mut cy: usize = 0;
    let mut i: usize = 0;
    while cy < h
        invariant
            cy <= h,
            i == cy * w,
            w >= 1,
            h >= 1,
            w * h <= 0x4000_0000,
            1 <= radius,
            (radius as int) < w,
            (radius as int) < h,
            res@.len() == i,
            forall|ci: int|
                0 <= ci < i ==> entry_view(#[trigger] res@[ci]@) == cell_brush(
                    w as int,
                    h as int,
                    radius as int,
                    ci % (w as int),
                    ci / (w as int),
                ),
            forall|ci: int|
                0 <= ci < i ==> brush_cell_ok(#[trigger] res@[ci]@, w as int, h as int),
        decreases h - cy,
    {
        let mut cx: usize = 0;
        proof {
            assert((cy + 1) * w == cy * w + w) by (nonlinear_arith);
            assert(cy * w + w <= h * w) by (nonlinear_arith)
                requires
                    cy + 1 <= h,
                    w >= 0,
            ;
            assert(h * w == w * h) by (nonlinear_arith);
        }
        while cx < w
            invariant
                cx <= w,
                cy < h,
                i == cy * w + cx,
                cy * w + w <= w * h,
                w >= 1,
                h >= 1,
                w * h <= 0x4000_0000,
                1 <= radius,
                (radius as int) < w,
                (radius as int) < h,
                res@.len() == i,
                forall|ci: int|
                    0 <= ci < i ==> entry_view(#[trigger] res@[ci]@) == cell_brush(
                        w as int,
                        h as int,
                        radius as int,
                        ci % (w as int),
                        ci / (w as int),
                    ),
                forall|ci: int|
                    0 <= ci < i ==> brush_cell_ok(#[trigger] res@[ci]@, w as int, h as int),
            decreases w - cx,
        {
            proof {
                lemma_fundamental_div_mod_converse(i as int, w as int, cy as int, cx as int);
            }
            let cell = build_cell_brush(w, h, radius, cx, cy);
            res.push(cell);
            cx = cx + 1;
            i = i + 1;
        }
        cy = cy + 1;
    }
    proof {
        assert(h * w == w * h) by (nonlinear_arith);
    }
    res
}

/// All entry lists of a brush, concatenated in cell order.
pub open spec fn concat_entries(s: Seq<Seq<(int, int, int)>>) -> Seq<(int, int, int)>
    decreases s.len(),
{
    if s.len() == 0 {
        Seq::empty()
    } else {
        concat_entries(s.drop_last()) + s.last()
    }
}

/// Where a cell's entries start in the concatenation.
pub open spec fn flat_offset(s: Seq<Seq<(int, int, int)>>, i: int) -> int {
    concat_entries(s.take(i)).len() as int
}

/// Flatten a brush into one entry array plus, per cell, the start index
/// and length of that cell's slice — the layout a device buffer upload
/// takes.
pub fn flatten_brush(data: &Vec<Vec<BrushEntry>>) -> (r: (Vec<BrushEntry>, Vec<(i32, i32)>))
    requires
        data@.len() <= 0x4000_0000,
        concat_entries(brush_view(data@)).len() <= 0x7FFF_FFFF,
    ensures
        entry_view(r.0@) == concat_entries(brush_view(data@)),
        r.1@.len() == data@.len(),
        forall|i: int|
            0 <= i < data@.len() ==> (#[trigger] r.1@[i]) == (
                flat_offset(brush_view(data@), i) as i32,
                (data@[i]@.len()) as i32,
            ),
{
    let ghost bv = brush_view(data@);
    let mut flat: Vec<BrushEntry> = Vec::new();
    let mut ptrs: Vec<(i32, i32)> = Vec::new();
    let n = data.len();
    let mut k: usize = 0;
    proof {
        assert(bv.take(0) =~= Seq::<Seq<(int, int, int)>>::empty());
        assert(entry_view(flat@) =~= concat_entries(bv.take(0)));
    }
    while k < n
        invariant
            k <= n,
            n == data@.len(),
            n <= 0x4000_0000,
            bv == brush_view(data@),
            concat_entries(bv).len() <= 0x7FFF_FFFF,
            entry_view(flat@) == concat_entries(bv.take(k as int)),
            flat@.len() == concat_entries(bv.take(k as int)).len(),
            ptrs@.len() == k,
            forall|i: int|
                0 <= i < k ==> (#[trigger] ptrs@[i]) == (
                    flat_offset(bv, i) as i32,
                    (data@[i]@.len()) as i32,
                ),
        decreases n - k,
    {
        proof {
            assert(bv[k as int] == entry_view(data@[k as int]@));
            lemma_concat_take_bound(bv, k as int);
        }
        let start = flat.len();
        let cell = &data[k];
        let m = cell.len();
        proof {
            assert(bv.take(k + 1).drop_last() =~= bv.take(k as int));
            assert(bv.take(k + 1).last() == bv[k as int]);
            assert(concat_entries(bv.take(k + 1)) == concat_entries(bv.take(k as int)) + bv[
                k as int]);
            lemma_concat_take_bound(bv, k + 1);
        }
        let mut j: usize = 0;
        while j < m
            invariant
                j <= m,
                m == cell@.len(),
                cell@ == data@[k as int]@,
                0 <= k < n,
                n == data@.len(),
                bv == brush_view(data@),
                bv[k as int] == entry_view(data@[k as int]@),
                concat_entries(bv.take(k + 1)) == concat_entries(bv.take(k as int)) + bv[
                    k as int],
                concat_entries(bv.take(k + 1)).len() <= 0x7FFF_FFFF,
                start == concat_entries(bv.take(k as int)).len(),
                flat@.len() == start + j,
                entry_view(flat@) == concat_entries(bv.take(k as int)) + entry_view(
                    cell@.take(j as int),
                ),
            decreases m - j,
        {
            let ghost prev = flat@;
            flat.push(cell[j]);
            proof {
                assert(entry_view(flat@) =~= entry_view(prev).push(
                    (cell@[j as int].0 as int, cell@[j as int].1 as int, cell@[
                        j as int].2 as int),
                ));
                assert(entry_view(cell@.take(j + 1)) =~= entry_view(cell@.take(j as int)).push(
                    (cell@[j as int].0 as int, cell@[j as int].1 as int, cell@[
                        j as int].2 as int),
                ));
                assert(concat_entries(bv.take(k as int)) + entry_view(cell@.take(j + 1))
                    =~= (concat_entries(bv.take(k as int)) + entry_view(cell@.take(
                    j as int,
                ))).push(
                    (cell@[j as int].0 as int, cell@[j as int].1 as int, cell@[
                        j as int].2 as int),
                ));
            }
            j = j + 1;
        }
        ptrs.push((start as i32, m as i32));
        proof {
            assert(cell@.take(m as int) =~= cell@);
            assert(entry_view(flat@) =~= concat_entries(bv.take(k + 1)));
        }
        k = k + 1;
    }
    proof {
        assert(bv.take(n as int) =~= bv);
    }
    (flat, ptrs)
}

/// Prefix concatenations never exceed the whole concatenation.
proof fn lemma_concat_take_bound(s: Seq<Seq<(int, int, int)>>, k: int)
    requires
        0 <= k <= s.len(),
    ensures
        concat_entries(s.take(k)).len() <= concat_entries(s).len(),
    decreases s.len() - k,
{
    if k < s.len() {
        lemma_concat_take_bound(s, k + 1);
        assert(s.take(k + 1).drop_last() =~= s.take(k));
        assert(concat_entries(s.take(k + 1)) == concat_entries(s.take(k)) + s.take(k + 1).last());
    } else {
        assert(s.take(k) =~= s);
    }
}

} // verus!
