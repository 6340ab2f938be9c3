//! Hydraulic erosion by droplet simulation.
//!
//! Each iteration copies the current height field into a scratch buffer,
//! then runs a batch of independent droplets against the frozen copy,
//! writing every change into the scratch buffer only; the scratch buffer
//! then becomes the current field. Droplets therefore never observe one
//! another's in-progress writes within an iteration.
//!
//! A droplet starts at a cell derived by an integer hash from the
//! iteration seed and the droplet index, follows the steepest descent
//! among its 4-neighbours, picks up a quarter of the height difference as
//! sediment at each step, and spreads every removal and the final deposit
//! over the neighbourhood through the precomputed weighted brush. It stops
//! at a local minimum or after its fixed lifetime.
//!
//! Droplet parameters: one droplet per 64 cells and iteration, lifetime
//! 30 steps, erosion rate one quarter of the local drop, full deposit at
//! rest.

use vstd::prelude::*;
use crate::brush::BrushEntry;
use crate::brush::entry_view;
use crate::brush::brush_view;
use crate::brush::brush_cell_ok;
use crate::brush::cell_brush;
use crate::brush::create_brush;

verus! {

/// Lifetime of a droplet, in steps.
pub const DROPLET_LIFE: u32 = 30;

/// The view of a signed fixed-point buffer.
pub open spec fn hview(s: Seq<i32>) -> Seq<int> {
    s.map_values(|v: i32| v as int)
}

/// Clamp a mathematical value into the signed 32-bit range.
pub open spec fn clamp_i32(v: int) -> int {
    if v < -0x8000_0000 {
        -0x8000_0000
    } else if v > 0x7FFF_FFFF {
        0x7FFF_FFFF
    } else {
        v
    }
}

/// The deterministic start-cell hash: a xorshift scramble of seed plus
/// droplet index, truncated to 64 bits.
pub open spec fn spec_mix(seed: int, i: int) -> u64 {
    let z0 = ((seed + i) % 0x1_0000_0000_0000_0000) as u64;
    let z1 = z0 ^ (z0 << 13);
    let z2 = z1 ^ (z1 >> 7);
    z2 ^ (z2 << 17)
}

/// Start cell of a droplet.
pub open spec fn start_cell(seed: int, i: int, w: int, h: int) -> (int, int) {
    let z = spec_mix(seed, i) as int;
    (z % w, (z / w) % h)
}

/// The steepest-descent 4-neighbour of a cell (the cell itself if no
/// neighbour is strictly lower; ties keep the earlier candidate in
/// left, right, up, down order).
pub open spec fn lowest_nbr(hs: Seq<int>, w: int, h: int, x: int, y: int) -> (int, int) {
    let b0 = (x, y);
    let b1 = if x > 0 && hs[y * w + (x - 1)] < hs[b0.1 * w + b0.0] {
        (x - 1, y)
    } else {
        b0
    };
    let b2 = if x < w - 1 && hs[y * w + (x + 1)] < hs[b1.1 * w + b1.0] {
        (x + 1, y)
    } else {
        b1
    };
    let b3 = if y > 0 && hs[(y - 1) * w + x] < hs[b2.1 * w + b2.0] {
        (x, y - 1)
    } else {
        b2
    };
    if y < h - 1 && hs[(y + 1) * w + x] < hs[b3.1 * w + b3.0] {
        (x, y + 1)
    } else {
        b3
    }
}

/// Remove `amount` (non-negative) from the neighbourhood of a cell,
/// spread by the brush weights, saturating at the 32-bit bounds.
pub open spec fn erode_brush(scr: Seq<int>, cell: Seq<(int, int, int)>, w: int, amount: int) -> Seq<
    int,
>
    decreases cell.len(),
{
    if cell.len() == 0 {
        scr
    } else {
        let e = cell.first();
        let idx = e.1 * w + e.0;
        let part = amount * e.2 / 1_000_000;
        erode_brush(scr.update(idx, clamp_i32(scr[idx] - part)), cell.drop_first(), w, amount)
    }
}

/// Deposit `amount` (non-negative) over the neighbourhood of a cell,
/// spread by the brush weights, saturating at the 32-bit bounds.
pub open spec fn deposit_brush(scr: Seq<int>, cell: Seq<(int, int, int)>, w: int, amount: int) -> Seq<
    int,
>
    decreases cell.len(),
{
    if cell.len() == 0 {
        scr
    } else {
        let e = cell.first();
        let idx = e.1 * w + e.0;
        let part = amount * e.2 / 1_000_000;
        deposit_brush(scr.update(idx, clamp_i32(scr[idx] + part)), cell.drop_first(), w, amount)
    }
}

/// One droplet: walk downhill over the frozen `cur` snapshot, eroding into
/// the scratch buffer, and deposit the carried sediment at rest or at the
/// end of life.
pub open spec fn droplet(
    cur: Seq<int>,
    scr: Seq<int>,
    brush: Seq<Seq<(int, int, int)>>,
    w: int,
    h: int,
    x: int,
    y: int,
    sediment: int,
    life: nat,
) -> Seq<int>
    decreases life,
{
    if life == 0 {
        deposit_brush(scr, brush[y * w + x], w, sediment)
    } else {
        let nb = lowest_nbr(cur, w, h, x, y);
        if cur[nb.1 * w + nb.0] >= cur[y * w + x] {
            deposit_brush(scr, brush[y * w + x], w, sediment)
        } else {
            let delta = cur[y * w + x] - cur[nb.1 * w + nb.0];
            let amount = delta / 4;
            droplet(
                cur,
                erode_brush(scr, brush[y * w + x], w, amount),
                brush,
                w,
                h,
                nb.0,
                nb.1,
                sediment + amount,
                (life - 1) as nat,
            )
        }
    }
}

/// Number of droplets per iteration: one per 64 cells.
pub open spec fn num_droplets(area: nat) -> nat {
    area / 64 + 1
}

/// The scratch buffer after the first `n` droplets of an iteration.
pub open spec fn droplets_n(
    cur: Seq<int>,
    scr: Seq<int>,
    brush: Seq<Seq<(int, int, int)>>,
    w: int,
    h: int,
    seed: int,
    n: nat,
) -> Seq<int>
    decreases n,
{
    if n == 0 {
        scr
    } else {
        let scr2 = droplets_n(cur, scr, brush, w, h, seed, (n - 1) as nat);
        let sc = start_cell(seed, n - 1, w, h);
        droplet(cur, scr2, brush, w, h, sc.0, sc.1, 0, DROPLET_LIFE as nat)
    }
}

/// One full erosion iteration: copy, then run the droplet batch against
/// the frozen copy.
pub open spec fn one_iteration(
    cur: Seq<int>,
    brush: Seq<Seq<(int, int, int)>>,
    w: int,
    h: int,
    seed: int,
) -> Seq<int> {
    droplets_n(cur, cur, brush, w, h, seed, num_droplets((w * h) as nat))
}

/// `iters` erosion iterations; iteration `i` is seeded with `seed + i`.
pub open spec fn spec_erode_n(
    hs: Seq<int>,
    brush: Seq<Seq<(int, int, int)>>,
    w: int,
    h: int,
    seed: int,
    iters: nat,
) -> Seq<int>
    decreases iters,
{
    if iters == 0 {
        hs
    } else {
        spec_erode_n(one_iteration(hs, brush, w, h, seed), brush, w, h, seed + 1, (
        iters - 1) as nat)
    }
}

/// Erosion composes: `n` iterations followed by `m` more, seeded by the
/// documented `seed + iteration` formula, equal `n + m` iterations in one
/// run.
pub proof fn lemma_erode_compose(
    hs: Seq<int>,
    brush: Seq<Seq<(int, int, int)>>,
    w: int,
    h: int,
    seed: int,
    n: nat,
    m: nat,
)
    ensures
        spec_erode_n(spec_erode_n(hs, brush, w, h, seed, n), brush, w, h, seed + n, m)
            == spec_erode_n(hs, brush, w, h, seed, n + m),
    decreases n,
{
    if n > 0 {
        lemma_erode_compose(
            one_iteration(hs, brush, w, h, seed),
            brush,
            w,
            h,
            seed + 1,
            (n - 1) as nat,
            m,
        );
        assert(n + m - 1 == (n - 1) as nat + m);
    }
}

/// Droplets never leave the grid: the steepest-descent target of an
/// in-grid cell is in the grid.
pub proof fn lemma_lowest_nbr_in_grid(hs: Seq<int>, w: int, h: int, x: int, y: int)
    requires
        0 <= x < w,
        0 <= y < h,
    ensures
        0 <= lowest_nbr(hs, w, h, x, y).0 < w,
        0 <= lowest_nbr(hs, w, h, x, y).1 < h,
{
}

/// ... and they start inside it, whatever the hash came to.
pub proof fn lemma_start_cell_in_grid(seed: int, i: int, w: int, h: int)
    requires
        w >= 1,
        h >= 1,
    ensures
        0 <= start_cell(seed, i, w, h).0 < w,
        0 <= start_cell(seed, i, w, h).1 < h,
{
    let z = spec_mix(seed, i) as int;
    assert(0 <= z % w < w && 0 <= (z / w) % h < h) by (nonlinear_arith)
        requires
            z >= 0,
            w >= 1,
            h >= 1,
    ;
}

/// Well-formedness of a brush for a `w` by `h` grid.
pub open spec fn brush_ok(b: Seq<Vec<BrushEntry>>, w: int, h: int) -> bool {
    &&& b.len() == w * h
    &&& forall|ci: int| 0 <= ci < b.len() ==> brush_cell_ok((#[trigger] b[ci])@, w, h)
}

/// The start-cell hash, exactly as specified.
fn mix(seed: u64, i: u64) -> (r: u64)
    ensures
        r == spec_mix(seed as int, i as int),
{
    let z0: u64 = (((seed as u128) + (i as u128)) % 0x1_0000_0000_0000_0000) as u64;
    let z1: u64 = z0 ^ (z0 << 13u64);
    let z2: u64 = z1 ^ (z1 >> 7u64);
    z2 ^ (z2 << 17u64)
}

/// Remove `amount` around one cell, spread by its brush weights.
fn erode_brush_exec(scr: &mut Vec<i32>, cell: &Vec<BrushEntry>, w: usize, h: usize, amount: i64)
    requires
        old(scr).len() == w * h,
        w >= 1,
        h >= 1,
        w * h <= 0x4000_0000,
        brush_cell_ok(cell@, w as int, h as int),
        0 <= amount <= 0x10_0000_0000,
    ensures
        final(scr).len() == old(scr).len(),
        hview(final(scr)@) == erode_brush(
            hview(old(scr)@),
            entry_view(cell@),
            w as int,
            amount as int,
        ),
{
    let ghost full = entry_view(cell@);
    let ghost orig = hview(scr@);
    let len = cell.len();
    let mut k: usize = 0;
    proof {
        assert(full.skip(0) =~= full);
    }
    while k < len
        invariant
            k <= len,
            len == cell.len(),
            scr.len() == w * h,
            w >= 1,
            h >= 1,
            w * h <= 0x4000_0000,
            brush_cell_ok(cell@, w as int, h as int),
            0 <= amount <= 0x10_0000_0000,
            full == entry_view(cell@),
            erode_brush(orig, full, w as int, amount as int) == erode_brush(
                hview(scr@),
                full.skip(k as int),
                w as int,
                amount as int,
            ),
        decreases len - k,
    {
        let ghost pre = hview(scr@);
        proof {
            assert(full.skip(k as int).len() > 0);
            assert(full.skip(k as int).first() == full[k as int]);
            assert(full.skip(k as int).drop_first() =~= full.skip(k + 1));
            assert(full[k as int] == (cell@[k as int].0 as int, cell@[k as int].1 as int, cell@[
                k as int].2 as int));
        }
        let (ex, ey, ew) = cell[k];
        proof {
            assert((ey as int) * (w as int) + (ex as int) < (w as int) * (h as int))
                by (nonlinear_arith)
                requires
                    (ex as int) < (w as int),
                    (ey as int) < (h as int),
                    w >= 1,
                    h >= 1,
            ;
            assert(0 <= (amount as int) * (ew as int) <= 0x10_0000_0000 * 1_000_000)
                by (nonlinear_arith)
                requires
                    0 <= amount as int <= 0x10_0000_0000,
                    0 <= ew as int <= 1_000_000,
            ;
        }
        let idx: usize = ey * w + ex;
        let part: i64 = amount * (ew as i64) / 1_000_000;
        let nv: i64 = (scr[idx] as i64) - part;
        let cv: i32 = if nv < -0x8000_0000 {
            -0x8000_0000
        } else if nv > 0x7FFF_FFFF {
            0x7FFF_FFFF
        } else {
            nv as i32
        };
        scr[idx] = cv;
        proof {
            assert(cv as int == clamp_i32(pre[idx as int] - (amount as int) * (ew as int)
                / 1_000_000));
            assert(hview(scr@) =~= pre.update(idx as int, cv as int));
        }
        k = k + 1;
    }
    proof {
        assert(full.skip(len as int) =~= Seq::<(int, int, int)>::empty());
    }
}

/// Deposit `amount` around one cell, spread by its brush weights.
fn deposit_brush_exec(scr: &mut Vec<i32>, cell: &Vec<BrushEntry>, w: usize, h: usize, amount: i64)
    requires
        old(scr).len() == w * h,
        w >= 1,
        h >= 1,
        w * h <= 0x4000_0000,
        brush_cell_ok(cell@, w as int, h as int),
        0 <= amount <= 0x10_0000_0000,
    ensures
        final(scr).len() == old(scr).len(),
        hview(final(scr)@) == deposit_brush(
            hview(old(scr)@),
            entry_view(cell@),
            w as int,
            amount as int,
        ),
{
    let ghost full = entry_view(cell@);
    let ghost orig = hview(scr@);
    let len = cell.len();
    let mut k: usize = 0;
    proof {
        assert(full.skip(0) =~= full);
    }
    while k < len
        invariant
            k <= len,
            len == cell.len(),
            scr.len() == w * h,
            w >= 1,
            h >= 1,
            w * h <= 0x4000_0000,
            brush_cell_ok(cell@, w as int, h as int),
            0 <= amount <= 0x10_0000_0000,
            full == entry_view(cell@),
            deposit_brush(orig, full, w as int, amount as int) == deposit_brush(
                hview(scr@),
                full.skip(k as int),
                w as int,
                amount as int,
            ),
        decreases len - k,
    {
        let ghost pre = hview(scr@);
        proof {
            assert(full.skip(k as int).len() > 0);
            assert(full.skip(k as int).first() == full[k as int]);
            assert(full.skip(k as int).drop_first() =~= full.skip(k + 1));
            assert(full[k as int] == (cell@[k as int].0 as int, cell@[k as int].1 as int, cell@[
                k as int].2 as int));
        }
        let (ex, ey, ew) = cell[k];
        proof {
            assert((ey as int) * (w as int) + (ex as int) < (w as int) * (h as int))
                by (nonlinear_arith)
                requires
                    (ex as int) < (w as int),
                    (ey as int) < (h as int),
                    w >= 1,
                    h >= 1,
            ;
            assert(0 <= (amount as int) * (ew as int) <= 0x10_0000_0000 * 1_000_000)
                by (nonlinear_arith)
                requires
                    0 <= amount as int <= 0x10_0000_0000,
                    0 <= ew as int <= 1_000_000,
            ;
        }
        let idx: usize = ey * w + ex;
        let part: i64 = amount * (ew as i64) / 1_000_000;
        let nv: i64 = (scr[idx] as i64) + part;
        let cv: i32 = if nv < -0x8000_0000 {
            -0x8000_0000
        } else if nv > 0x7FFF_FFFF {
            0x7FFF_FFFF
        } else {
            nv as i32
        };
        scr[idx] = cv;
        proof {
            assert(cv as int == clamp_i32(pre[idx as int] + (amount as int) * (ew as int)
                / 1_000_000));
            assert(hview(scr@) =~= pre.update(idx as int, cv as int));
        }
        k = k + 1;
    }
    proof {
        assert(full.skip(len as int) =~= Seq::<(int, int, int)>::empty());
    }
}

/// Run one droplet from its start cell against the frozen snapshot.
#[verifier::rlimit(80)]
fn run_droplet(
    cur: &Vec<i32>,
    scr: &mut Vec<i32>,
    brush: &Vec<Vec<BrushEntry>>,
    w: usize,
    h: usize,
    x0: usize,
    y0: usize,
)
    requires
        cur.len() == w * h,
        old(scr).len() == w * h,
        w >= 1,
        h >= 1,
        w * h <= 0x4000_0000,
        brush_ok(brush@, w as int, h as int),
        x0 < w,
        y0 < h,
    ensures
        final(scr).len() == w * h,
        hview(final(scr)@) == droplet(
            hview(cur@),
            hview(old(scr)@),
            brush_view(brush@),
            w as int,
            h as int,
            x0 as int,
            y0 as int,
            0,
            DROPLET_LIFE as nat,
        ),
{
    let ghost cv = hview(cur@);
    let ghost bv = brush_view(brush@);
    let ghost scr0 = hview(scr@);
    let mut x = x0;
    let mut y = y0;
    let mut sediment: i64 = 0;
    let mut life: u32 = DROPLET_LIFE;
    let mut resting = false;
    while life > 0 && !resting
        invariant
            x < w,
            y < h,
            cur.len() == w * h,
            scr.len() == w * h,
            w >= 1,
            h >= 1,
            w * h <= 0x4000_0000,
            brush_ok(brush@, w as int, h as int),
            cv == hview(cur@),
            bv == brush_view(brush@),
            life <= DROPLET_LIFE,
            0 <= sediment,
            sediment <= ((DROPLET_LIFE - life) as int) * 0x4000_0000,
            !resting ==> droplet(cv, scr0, bv, w as int, h as int, x0 as int, y0 as int, 0,
            DROPLET_LIFE as nat) == droplet(
                cv,
                hview(scr@),
                bv,
                w as int,
                h as int,
                x as int,
                y as int,
                sediment as int,
                life as nat,
            ),
            resting ==> hview(scr@) == droplet(cv, scr0, bv, w as int, h as int, x0 as int,
            y0 as int, 0, DROPLET_LIFE as nat),
        decreases life, (if resting { 0int } else { 1int }),
    {
        proof {
            assert((y as int) * (w as int) + (x as int) < (w as int) * (h as int))
                by (nonlinear_arith)
                requires
                    (x as int) < (w as int),
                    (y as int) < (h as int),
                    w >= 1,
                    h >= 1,
            ;
            if y > 0 {
                assert(((y - 1) as int) * (w as int) + (x as int) == (y as int) * (w as int) + (
                x as int) - (w as int)) by (nonlinear_arith);
            }
            if y < h - 1 {
                assert(((y + 1) as int) * (w as int) + (x as int) == (y as int) * (w as int) + (
                x as int) + (w as int)) by (nonlinear_arith);
                assert(((y + 1) as int) * (w as int) + (x as int) < (w as int) * (h as int))
                    by (nonlinear_arith)
                    requires
                        (x as int) < (w as int),
                        (y as int) + 1 < (h as int),
                        w >= 1,
                        h >= 1,
                ;
            }
            if x < w - 1 {
                assert((y as int) * (w as int) + (x as int) + 1 < (w as int) * (h as int))
                    by (nonlinear_arith)
                    requires
                        (x as int) + 1 < (w as int),
                        (y as int) < (h as int),
                        w >= 1,
                        h >= 1,
                ;
            }
        }
        let pidx: usize = y * w + x;
        let hc: i32 = cur[pidx];
        let mut bx = x;
        let mut by = y;
        let mut bh = hc;
        if x > 0 {
            let v = cur[pidx - 1];
            if v < bh {
                bx = x - 1;
                by = y;
                bh = v;
            }
        }
        if x < w - 1 {
            let v = cur[pidx + 1];
            if v < bh {
                bx = x + 1;
                by = y;
                bh = v;
            }
        }
        if y > 0 {
            let v = cur[pidx - w];
            if v < bh {
                bx = x;
                by = y - 1;
                bh = v;
            }
        }
        if y < h - 1 {
            let v = cur[pidx + w];
            if v < bh {
                bx = x;
                by = y + 1;
                bh = v;
            }
        }
        proof {
            assert((bx as int, by as int) == lowest_nbr(cv, w as int, h as int, x as int,
            y as int));
            assert(bh as int == cv[(by as int) * (w as int) + (bx as int)]);
            assert((by as int) * (w as int) + (bx as int) < (w as int) * (h as int))
                by (nonlinear_arith)
                requires
                    (bx as int) < (w as int),
                    (by as int) < (h as int),
                    w >= 1,
                    h >= 1,
            ;
        }
        if bh >= hc {
            deposit_brush_exec(scr, &brush[pidx], w, h, sediment);
            resting = true;
            proof {
                assert(bv[pidx as int] == entry_view(brush@[pidx as int]@));
            }
        } else {
            let delta: i64 = (hc as i64) - (bh as i64);
            let amount: i64 = delta / 4;
            proof {
                assert(0 <= amount <= 0x4000_0000);
                assert(bv[pidx as int] == entry_view(brush@[pidx as int]@));
            }
            erode_brush_exec(scr, &brush[pidx], w, h, amount);
            sediment = sediment + amount;
            x = bx;
            y = by;
            life = life - 1;
        }
    }
    if !resting {
        proof {
            assert((y as int) * (w as int) + (x as int) < (w as int) * (h as int))
                by (nonlinear_arith)
                requires
                    (x as int) < (w as int),
                    (y as int) < (h as int),
                    w >= 1,
                    h >= 1,
            ;
        }
        let pidx: usize = y * w + x;
        proof {
            assert(bv[pidx as int] == entry_view(brush@[pidx as int]@));
        }
        deposit_brush_exec(scr, &brush[pidx], w, h, sediment);
    }
}

/// One erosion iteration: copy the field, then run the droplet batch
/// against the frozen copy, writing into the new buffer.
fn erode_iteration(
    cur: &Vec<i32>,
    brush: &Vec<Vec<BrushEntry>>,
    w: usize,
    h: usize,
    seed: u64,
) -> (next: Vec<i32>)
    requires
        cur.len() == w * h,
        w >= 1,
        h >= 1,
        w * h <= 0x4000_0000,
        brush_ok(brush@, w as int, h as int),
    ensures
        next.len() == w * h,
        hview(next@) == one_iteration(
            hview(cur@),
            brush_view(brush@),
            w as int,
            h as int,
            seed as int,
        ),
{
    let ghost cv = hview(cur@);
    let ghost bv = brush_view(brush@);
    let area: usize = w * h;
    let mut scr: Vec<i32> = Vec::new();
    let mut i: usize = 0;
    while i < area
        invariant
            i <= area,
            area == w * h,
            cur.len() == area,
            scr.len() == i,
            forall|q: int| 0 <= q < i ==> scr@[q] == cur@[q],
        decreases area - i,
    {
        scr.push(cur[i]);
        i = i + 1;
    }
    proof {
        assert(scr@ =~= cur@);
    }
    let nd: usize = area / 64 + 1;
    let mut d: usize = 0;
    while d < nd
        invariant
            d <= nd,
            nd == area / 64 + 1,
            area == w * h,
            cur.len() == area,
            scr.len() == area,
            w >= 1,
            h >= 1,
            w * h <= 0x4000_0000,
            brush_ok(brush@, w as int, h as int),
            cv == hview(cur@),
            bv == brush_view(brush@),
            hview(scr@) == droplets_n(cv, cv, bv, w as int, h as int, seed as int, d as nat),
        decreases nd - d,
    {
        let hsh: u64 = mix(seed, d as u64);
        let sx: usize = (hsh % (w as u64)) as usize;
        let sy: usize = ((hsh / (w as u64)) % (h as u64)) as usize;
        proof {
            assert((sx as int, sy as int) == start_cell(seed as int, d as int, w as int,
            h as int));
        }
        run_droplet(cur, &mut scr, brush, w, h, sx, sy);
        d = d + 1;
    }
    proof {
        assert(nd as nat == num_droplets(((w as int) * (h as int)) as nat));
    }
    scr
}

/// The erosion simulator: a grid size and the precomputed brush, built
/// once and reused by every iteration.
pub struct Erosion {
    pub size: (usize, usize),
    pub brush: Vec<Vec<BrushEntry>>,
}

impl Erosion {
    pub open spec fn wf(self) -> bool {
        &&& self.size.0 >= 1
        &&& self.size.1 >= 1
        &&& self.size.0 * self.size.1 <= 0x4000_0000
        &&& brush_ok(self.brush@, self.size.0 as int, self.size.1 as int)
    }

    /// Build the simulator: precompute the weighted brush for this grid.
    pub fn new(map_size: (usize, usize), radius: u32) -> (r: Erosion)
        requires
            map_size.0 >= 1,
            map_size.1 >= 1,
            map_size.0 * map_size.1 <= 0x4000_0000,
            1 <= radius,
            (radius as int) < map_size.0,
            (radius as int) < map_size.1,
        ensures
            r.wf(),
            r.size == map_size,
            forall|ci: int|
                0 <= ci < r.brush@.len() ==> entry_view(#[trigger] r.brush@[ci]@) == cell_brush(
                    map_size.0 as int,
                    map_size.1 as int,
                    radius as int,
                    ci % (map_size.0 as int),
                    ci / (map_size.0 as int),
                ),
    {
        let brush = create_brush(map_size, radius);
        Erosion { size: map_size, brush }
    }

    /// Run `iterations` droplet passes over the field, each double-buffered
    /// against a frozen copy, with iteration `i` seeded by
    /// `rand_seed + i`. Zero iterations return the field unchanged.
    pub fn erode(&mut self, texture: Vec<i32>, iterations: u64, rand_seed: u64) -> (r: Vec<i32>)
        requires
            old(self).wf(),
            texture.len() == old(self).size.0 * old(self).size.1,
            rand_seed + iterations <= 0xFFFF_FFFF_FFFF_FFFF,
        ensures
            *final(self) == *old(self),
            r.len() == texture.len(),
            hview(r@) == spec_erode_n(
                hview(texture@),
                brush_view(old(self).brush@),
                old(self).size.0 as int,
                old(self).size.1 as int,
                rand_seed as int,
                iterations as nat,
            ),
            iterations == 0 ==> r@ == texture@,
    {
        let w = self.size.0;
        let h = self.size.1;
        let ghost bv = brush_view(self.brush@);
        let ghost hs0 = hview(texture@);
        let mut current = texture;
        let mut i: u64 = 0;
        while i < iterations
            invariant
                i <= iterations,
                rand_seed + iterations <= 0xFFFF_FFFF_FFFF_FFFF,
                self.size.0 == w,
                self.size.1 == h,
                self.wf(),
                bv == brush_view(self.brush@),
                current.len() == w * h,
                i == 0 ==> current@ == texture@,
                hview(current@) == spec_erode_n(
                    hs0,
                    bv,
                    w as int,
                    h as int,
                    rand_seed as int,
                    i as nat,
                ),
            decreases iterations - i,
        {
            let next = erode_iteration(&current, &self.brush, w, h, rand_seed + i);
            proof {
                lemma_erode_compose(
                    hs0,
                    bv,
                    w as int,
                    h as int,
                    rand_seed as int,
                    i as nat,
                    1,
                );
                let s1 = rand_seed as int + i as int;
                let x1 = one_iteration(hview(current@), bv, w as int, h as int, s1);
                assert(spec_erode_n(hview(current@), bv, w as int, h as int, s1, 1)
                    == spec_erode_n(x1, bv, w as int, h as int, s1 + 1, 0));
                assert(spec_erode_n(x1, bv, w as int, h as int, s1 + 1, 0) == x1);
                assert(rand_seed as int + (i as nat) == s1);
            }
            current = next;
            i = i + 1;
        }
        current
    }
}

} // verus!
