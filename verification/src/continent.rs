//! Continent shape generation.
//!
//! Continents are laid down by bounded random walks: each walk starts at a
//! deterministic position on a regular sub-grid, wanders with unit steps
//! clamped to the grid, and marks every visited cell. The per-cell overlap
//! counts are thresholded to a land mask, cleaned by the shape smoother,
//! and combined with a supplied coherent-noise contribution into the final
//! fixed-point height field: `log2(overlap + 1) / 1.6` plus noise.
//!
//! The walks are drawn from an `StdRng` seeded with a fixed constant, so a
//! build generates the same terrain for the same inputs; everything after
//! the draws is an exact function of the drawn walks.

use vstd::prelude::*;
use crate::smoother::ShapeSmoother;
use crate::smoother::smooth_spec;
use crate::smoother::false_mask;
use crate::smoother::lemma_flood_complete;
use crate::fixedp::log2_fixed;
use crate::fixedp::spec_log2_fixed;
use crate::fixedp::lemma_log2_fixed_one;
use crate::randoms::rng_from_seed;
use crate::randoms::gen_range_i32;
use crate::randoms::gen_range_u32;

verus! {

/// Clamp a coordinate into `[0, max]`.
pub open spec fn clamp_idx(v: int, max: int) -> int {
    if v < 0 {
        0
    } else if v > max {
        max
    } else {
        v
    }
}

pub open spec fn imin(a: int, b: int) -> int {
    if a <= b {
        a
    } else {
        b
    }
}

/// The view of a step list as mathematical offsets.
pub open spec fn step_view(s: Seq<(i8, i8)>) -> Seq<(int, int)> {
    s.map_values(|e: (i8, i8)| (e.0 as int, e.1 as int))
}

/// The view of a list of walks.
pub open spec fn walks_view(s: Seq<Vec<(i8, i8)>>) -> Seq<Seq<(int, int)>> {
    s.map_values(|v: Vec<(i8, i8)>| step_view(v@))
}

/// The view of a signed fixed-point buffer.
pub open spec fn int_view(s: Seq<i32>) -> Seq<int> {
    s.map_values(|v: i32| v as int)
}

/// A walk over the mask buffer: mark the current cell, take one clamped
/// step, repeat for every step of the list.
pub open spec fn mark_walk(
    buf: Seq<bool>,
    w: int,
    h: int,
    x: int,
    y: int,
    steps: Seq<(int, int)>,
) -> Seq<bool>
    decreases steps.len(),
{
    if steps.len() == 0 {
        buf
    } else {
        let b2 = buf.update(y * w + x, true);
        let nx = clamp_idx(x + steps.first().0, w - 1);
        let ny = clamp_idx(y + steps.first().1, h - 1);
        mark_walk(b2, w, h, nx, ny, steps.drop_first())
    }
}

/// Deterministic seed position of continent `i`: a regular five-wide
/// sub-grid spanning the map.
pub open spec fn start_pos(i: int, w: int, h: int) -> (int, int) {
    (imin((i % 5 + 1) * w / 6, w - 1), imin((i / 5 + 1) * h / 6, h - 1))
}

pub open spec fn zero_overlap(len: nat) -> Seq<int> {
    Seq::new(len, |i: int| 0)
}

/// Add one walk's marks to the overlap counts.
pub open spec fn add_mask(ov: Seq<int>, m: Seq<bool>) -> Seq<int> {
    Seq::new(
        ov.len(),
        |i: int|
            ov[i] + if m[i] {
                1int
            } else {
                0int
            },
    )
}

/// Overlap counts after the first `n` walks.
pub open spec fn overlap_n(w: int, h: int, walks: Seq<Seq<(int, int)>>, n: nat) -> Seq<int>
    decreases n,
{
    if n == 0 {
        zero_overlap((w * h) as nat)
    } else {
        let prev = overlap_n(w, h, walks, (n - 1) as nat);
        let sp = start_pos(n - 1, w, h);
        add_mask(prev, mark_walk(false_mask((w * h) as nat), w, h, sp.0, sp.1, walks[n - 1]))
    }
}

/// Fixed-point height contribution of an overlap count:
/// `log2(overlap + 1) / 1.6`.
pub open spec fn height_val(c: int) -> int {
    (spec_log2_fixed((c + 1) as nat) * 10 / 16) as int
}

/// The finished height field: overlap height term (with smoother-filled
/// cells counted as one overlap) plus the supplied noise contribution.
pub open spec fn spec_generate(w: int, h: int, walks: Seq<Seq<(int, int)>>, noise: Seq<
    int,
>) -> Seq<int> {
    let ov = overlap_n(w, h, walks, walks.len());
    let mask = Seq::new(ov.len(), |i: int| ov[i] > 0);
    let sm = smooth_spec(mask, w, h);
    Seq::new(
        ov.len(),
        |i: int|
            height_val(
                if sm[i] && ov[i] == 0 {
                    1int
                } else {
                    ov[i]
                },
            ) + noise[i],
    )
}

/// Every step of a walk moves by at most one cell in each axis.
pub open spec fn walk_steps_ok(s: Seq<(int, int)>) -> bool {
    forall|k: int|
        0 <= k < s.len() ==> -1 <= (#[trigger] s[k]).0 <= 1 && -1 <= s[k].1 <= 1
}

/// Well-formed walk data for `count` continents and a length bound.
pub open spec fn walks_ok(ws: Seq<Seq<(int, int)>>, count: int, motion_length: int) -> bool {
    &&& ws.len() == count
    &&& forall|i: int|
        0 <= i < ws.len() ==> 1 <= (#[trigger] ws[i]).len() < motion_length && walk_steps_ok(
            ws[i],
        )
}

/// The generated field is a function of the grid, the walks, and the noise
/// alone: two runs over the same walk data give identical height fields.
pub proof fn lemma_generate_deterministic(
    w: int,
    h: int,
    walks: Seq<Seq<(int, int)>>,
    noise: Seq<int>,
    r1: Seq<int>,
    r2: Seq<int>,
)
    requires
        r1 == spec_generate(w, h, walks, noise),
        r2 == spec_generate(w, h, walks, noise),
    ensures
        r1 == r2,
{
}

/// With no continents the field is the pure noise contribution: every
/// overlap count is zero, the smoothed mask stays empty, and the height
/// term vanishes.
pub proof fn lemma_generate_pure_noise(w: int, h: int, noise: Seq<int>)
    requires
        w >= 1,
        h >= 1,
    ensures
        forall|i: int|
            0 <= i < w * h ==> spec_generate(w, h, Seq::empty(), noise)[i] == noise[i],
{
    let area = (w * h) as nat;
    let ov = overlap_n(w, h, Seq::empty(), 0);
    assert(ov == zero_overlap(area));
    let mask = Seq::new(ov.len(), |i: int| ov[i] > 0);
    assert(mask =~= false_mask(area));
    lemma_flood_complete(w, h);
    lemma_log2_fixed_one();
    assert forall|i: int| 0 <= i < w * h implies spec_generate(w, h, Seq::empty(), noise)[i]
        == noise[i] by {
        assert(smooth_spec(mask, w, h)[i] == false);
        assert(height_val(0) == 0);
    }
}

/// Mark the cells of one walk into the scratch buffer.
pub fn apply_walk(
    size: (usize, usize),
    buffer: &mut Vec<bool>,
    pos: (usize, usize),
    steps: &Vec<(i8, i8)>,
)
    requires
        size.0 >= 1,
        size.1 >= 1,
        size.0 * size.1 <= 0x4000_0000,
        old(buffer).len() == size.0 * size.1,
        pos.0 < size.0,
        pos.1 < size.1,
        walk_steps_ok(step_view(steps@)),
    ensures
        final(buffer)@ == mark_walk(
            old(buffer)@,
            size.0 as int,
            size.1 as int,
            pos.0 as int,
            pos.1 as int,
            step_view(steps@),
        ),
        final(buffer).len() == old(buffer).len(),
{
    let w = size.0;
    let h = size.1;
    let ghost all_steps = step_view(steps@);
    let ghost orig = buffer@;
    let mut x: usize = pos.0;
    let mut y: usize = pos.1;
    let mut k: usize = 0;
    let len = steps.len();
    proof {
        assert(all_steps.skip(0) =~= all_steps);
        assert(w as int <= 0x4000_0000 && h as int <= 0x4000_0000) by (nonlinear_arith)
            requires
                w >= 1,
                h >= 1,
                (w as int) * (h as int) <= 0x4000_0000,
        ;
    }
    while k < len
        invariant
            k <= len,
            len == steps.len(),
            x < w,
            y < h,
            w >= 1,
            h >= 1,
            w <= 0x4000_0000,
            h <= 0x4000_0000,
            w * h <= 0x4000_0000,
            buffer.len() == w * h,
            all_steps == step_view(steps@),
            walk_steps_ok(all_steps),
            mark_walk(orig, w as int, h as int, pos.0 as int, pos.1 as int, all_steps)
                == mark_walk(
                buffer@,
                w as int,
                h as int,
                x as int,
                y as int,
                all_steps.skip(k as int),
            ),
        decreases len - k,
    {
        let ghost old_x = x as int;
        let ghost old_y = y as int;
        let ghost old_k = k as int;
        proof {
            assert((y as int) * (w as int) + (x as int) < (w as int) * (h as int))
                by (nonlinear_arith)
                requires
                    (x as int) < (w as int),
                    (y as int) < (h as int),
                    w >= 1,
                    h >= 1,
            ;
            assert(all_steps.skip(old_k).len() > 0);
            assert(all_steps.skip(old_k).first() == all_steps[old_k]);
            assert(all_steps.skip(old_k).drop_first() =~= all_steps.skip(old_k + 1));
        }
        let id: usize = y * w + x;
        let ghost before = buffer@;
        buffer[id] = true;
        proof {
            assert(buffer@ == before.update(id as int, true));
        }
        let (dx, dy) = steps[k];
        proof {
            assert(all_steps[old_k] == (steps@[old_k].0 as int, steps@[old_k].1 as int));
            assert(all_steps[old_k] == (dx as int, dy as int));
        }
        let xi: i64 = x as i64 + dx as i64;
        let yi: i64 = y as i64 + dy as i64;
        x = if xi < 0 {
            0
        } else if xi > (w - 1) as i64 {
            w - 1
        } else {
            xi as usize
        };
        y = if yi < 0 {
            0
        } else if yi > (h - 1) as i64 {
            h - 1
        } else {
            yi as usize
        };
        k = k + 1;
        proof {
            assert(x as int == clamp_idx(old_x + (dx as int), w as int - 1));
            assert(y as int == clamp_idx(old_y + (dy as int), h as int - 1));
            assert(mark_walk(before, w as int, h as int, old_x, old_y, all_steps.skip(old_k))
                == mark_walk(
                before.update(old_y * (w as int) + old_x, true),
                w as int,
                h as int,
                clamp_idx(old_x + all_steps.skip(old_k).first().0, w as int - 1),
                clamp_idx(old_y + all_steps.skip(old_k).first().1, h as int - 1),
                all_steps.skip(old_k).drop_first(),
            ));
            assert(old_y * (w as int) + old_x == id as int);
            assert(mark_walk(before, w as int, h as int, old_x, old_y, all_steps.skip(old_k))
                == mark_walk(buffer@, w as int, h as int, x as int, y as int, all_steps.skip(
                k as int,
            )));
        }
    }
    proof {
        assert(all_steps.skip(len as int) =~= Seq::<(int, int)>::empty());
        assert(mark_walk(buffer@, w as int, h as int, x as int, y as int, all_steps.skip(
            len as int,
        )) == buffer@);
    }
}

/// Perform one bounded random walk: draw `motion_length` unit steps from
/// the generator and mark the visited cells.
pub fn generate_shape(
    size: (usize, usize),
    buffer: &mut Vec<bool>,
    motion_length: u32,
    pos: (usize, usize),
    rng: &mut rand::rngs::StdRng,
)
    requires
        size.0 >= 1,
        size.1 >= 1,
        size.0 * size.1 <= 0x4000_0000,
        old(buffer).len() == size.0 * size.1,
        pos.0 < size.0,
        pos.1 < size.1,
    ensures
        exists|steps: Seq<(int, int)>|
            steps.len() == motion_length && walk_steps_ok(steps) && final(buffer)@ == mark_walk(
                old(buffer)@,
                size.0 as int,
                size.1 as int,
                pos.0 as int,
                pos.1 as int,
                steps,
            ),
        final(buffer).len() == old(buffer).len(),
{
    let steps = draw_steps(rng, motion_length);
    apply_walk(size, buffer, pos, &steps);
    proof {
        let w = step_view(steps@);
        assert(w.len() == motion_length && walk_steps_ok(w));
    }
}

/// Draw a list of unit steps from the generator.
fn draw_steps(rng: &mut rand::rngs::StdRng, count: u32) -> (steps: Vec<(i8, i8)>)
    ensures
        steps.len() == count,
        walk_steps_ok(step_view(steps@)),
{
    let mut steps: Vec<(i8, i8)> = Vec::new();
    let mut k: u32 = 0;
    while k < count
        invariant
            k <= count,
            steps.len() == k,
            walk_steps_ok(step_view(steps@)),
        decreases count - k,
    {
        let dx = gen_range_i32(rng, -1, 1);
        let dy = gen_range_i32(rng, -1, 1);
        let ghost prev = steps@;
        steps.push((dx as i8, dy as i8));
        proof {
            assert(steps@ == prev.push((dx as i8, dy as i8)));
            assert forall|j: int| 0 <= j < steps@.len() implies -1 <= (#[trigger] step_view(
                steps@,
            )[j]).0 <= 1 && -1 <= step_view(steps@)[j].1 <= 1 by {
                assert(step_view(steps@)[j] == (steps@[j].0 as int, steps@[j].1 as int));
                if j < prev.len() {
                    assert(steps@[j] == prev[j]);
                    assert(step_view(prev)[j] == (prev[j].0 as int, prev[j].1 as int));
                }
            }
        }
        k = k + 1;
    }
    steps
}

/// Accumulate the per-cell overlap counts of a list of walks.
pub fn accumulate_overlap(size: (usize, usize), walks: &Vec<Vec<(i8, i8)>>) -> (ov: Vec<i32>)
    requires
        size.0 >= 1,
        size.1 >= 1,
        size.0 * size.1 <= 0x4000_0000,
        walks@.len() <= 0x4000_0000,
        forall|i: int|
            0 <= i < walks@.len() ==> walk_steps_ok(step_view((#[trigger] walks@[i])@)),
    ensures
        ov.len() == size.0 * size.1,
        int_view(ov@) == overlap_n(
            size.0 as int,
            size.1 as int,
            walks_view(walks@),
            walks@.len(),
        ),
        forall|q: int| 0 <= q < ov@.len() ==> 0 <= #[trigger] ov@[q] <= walks@.len(),
{
    let w = size.0;
    let h = size.1;
    let area: usize = w * h;
    let ghost gw = w as int;
    let ghost gh = h as int;
    let ghost wv = walks_view(walks@);

    let mut overlap: Vec<i32> = Vec::new();
    let mut i: usize = 0;
    while i < area
        invariant
            i <= area,
            overlap.len() == i,
            forall|q: int| 0 <= q < i ==> overlap@[q] == 0,
        decreases area - i,
    {
        overlap.push(0);
        i = i + 1;
    }
    proof {
        assert(int_view(overlap@) =~= zero_overlap(area as nat));
        assert(overlap_n(gw, gh, wv, 0) == zero_overlap((gw * gh) as nat));
    }

    let mut wi: usize = 0;
    let nwalks = walks.len();
    while wi < nwalks
        invariant
            wi <= nwalks,
            nwalks == walks@.len(),
            nwalks <= 0x4000_0000,
            overlap.len() == area,
            area == w * h,
            w == size.0,
            h == size.1,
            w >= 1,
            h >= 1,
            w * h <= 0x4000_0000,
            gw == w as int,
            gh == h as int,
            wv == walks_view(walks@),
            forall|i: int|
                0 <= i < walks@.len() ==> walk_steps_ok(step_view((#[trigger] walks@[i])@)),
            int_view(overlap@) == overlap_n(gw, gh, wv, wi as nat),
            forall|q: int| 0 <= q < area ==> 0 <= #[trigger] overlap@[q] <= wi,
        decreases nwalks - wi,
    {
        proof {
            assert(w as int <= 0x4000_0000 && h as int <= 0x4000_0000) by (nonlinear_arith)
                requires
                    w >= 1,
                    h >= 1,
                    (w as int) * (h as int) <= 0x4000_0000,
            ;
            assert((((wi as int) % 5) + 1) * (w as int) <= 5 * 0x4000_0000) by (nonlinear_arith)
                requires
                    0 <= (wi as int) % 5 < 5,
                    0 <= w as int <= 0x4000_0000,
            ;
            assert(0 <= (wi as int) / 5 <= 0x4000_0000) by (nonlinear_arith)
                requires
                    0 <= wi as int <= 0x4000_0000,
            ;
            assert((((wi as int) / 5) + 1) * (h as int) <= 0x4000_0001 * 0x4000_0000)
                by (nonlinear_arith)
                requires
                    0 <= (wi as int) / 5 <= 0x4000_0000,
                    0 <= h as int <= 0x4000_0000,
            ;
        }
        let sx64: u64 = (((wi as u64) % 5) + 1) * (w as u64) / 6;
        let sx: usize = if sx64 >= (w as u64) {
            w - 1
        } else {
            sx64 as usize
        };
        let sy64: u64 = (((wi as u64) / 5) + 1) * (h as u64) / 6;
        let sy: usize = if sy64 >= (h as u64) {
            h - 1
        } else {
            sy64 as usize
        };
        proof {
            assert(sx as int == start_pos(wi as int, gw, gh).0);
            assert(sy as int == start_pos(wi as int, gw, gh).1);
        }

        let mut scratch: Vec<bool> = Vec::new();
        let mut f: usize = 0;
        while f < area
            invariant
                f <= area,
                scratch.len() == f,
                forall|q: int| 0 <= q < f ==> scratch@[q] == false,
            decreases area - f,
        {
            scratch.push(false);
            f = f + 1;
        }
        proof {
            assert(scratch@ =~= false_mask(area as nat));
            assert(wv[wi as int] == step_view(walks@[wi as int]@));
        }
        apply_walk(size, &mut scratch, (sx, sy), &walks[wi]);

        let ghost prev_ov = int_view(overlap@);
        let mut newov: Vec<i32> = Vec::new();
        let mut j: usize = 0;
        while j < area
            invariant
                j <= area,
                newov.len() == j,
                overlap.len() == area,
                scratch.len() == area,
                wi < nwalks,
                nwalks <= 0x4000_0000,
                prev_ov == int_view(overlap@),
                forall|q: int| 0 <= q < area ==> 0 <= #[trigger] overlap@[q] <= wi,
                forall|q: int|
                    0 <= q < j ==> newov@[q] == overlap@[q] + (if scratch@[q] {
                        1int
                    } else {
                        0int
                    }),
                forall|q: int| 0 <= q < j ==> 0 <= #[trigger] newov@[q] <= wi + 1,
            decreases area - j,
        {
            let inc: i32 = if scratch[j] {
                1
            } else {
                0
            };
            let v: i32 = overlap[j] + inc;
            newov.push(v);
            j = j + 1;
        }
        overlap = newov;
        proof {
            assert((gw * gh) as nat == area as nat);
            assert(prev_ov.len() == area);
            assert forall|q: int| 0 <= q < area implies int_view(overlap@)[q] == add_mask(
                prev_ov,
                scratch@,
            )[q] by {
                assert(int_view(overlap@)[q] == overlap@[q] as int);
                assert(prev_ov[q] == add_mask(prev_ov, scratch@)[q] - (if scratch@[q] {
                    1int
                } else {
                    0int
                }));
            }
            assert(int_view(overlap@) =~= add_mask(prev_ov, scratch@));
            assert(scratch@ == mark_walk(
                false_mask((gw * gh) as nat),
                gw,
                gh,
                sx as int,
                sy as int,
                wv[wi as int],
            ));
            assert(overlap_n(gw, gh, wv, (wi + 1) as nat) == add_mask(
                overlap_n(gw, gh, wv, wi as nat),
                mark_walk(
                    false_mask((gw * gh) as nat),
                    gw,
                    gh,
                    start_pos(wi as int, gw, gh).0,
                    start_pos(wi as int, gw, gh).1,
                    wv[wi as int],
                ),
            ));
        }
        wi = wi + 1;
    }

    overlap
}

/// Build the height field from explicit walk data: the exact,
/// deterministic core of continent generation.
pub fn generate_map_from_walks(
    size: (usize, usize),
    walks: &Vec<Vec<(i8, i8)>>,
    smoother: &ShapeSmoother,
    noise: &Vec<i32>,
) -> (res: Vec<i32>)
    requires
        size.0 >= 1,
        size.1 >= 1,
        size.0 * size.1 <= 0x4000_0000,
        noise.len() == size.0 * size.1,
        walks@.len() <= 0x4000_0000,
        forall|i: int|
            0 <= i < walks@.len() ==> walk_steps_ok(step_view((#[trigger] walks@[i])@)),
        forall|i: int|
            0 <= i < noise@.len() ==> -1_000_000 <= (#[trigger] noise@[i]) <= 1_000_000,
    ensures
        res.len() == size.0 * size.1,
        int_view(res@) == spec_generate(
            size.0 as int,
            size.1 as int,
            walks_view(walks@),
            int_view(noise@),
        ),
{
    let w = size.0;
    let h = size.1;
    let area: usize = w * h;
    let ghost gw = w as int;
    let ghost gh = h as int;
    let ghost wv = walks_view(walks@);
    let nwalks = walks.len();
    let overlap = accumulate_overlap(size, walks);
    let ghost ov = int_view(overlap@);
    let mut mask: Vec<bool> = Vec::new();
    let mut m: usize = 0;
    while m < area
        invariant
            m <= area,
            mask.len() == m,
            overlap.len() == area,
            ov == int_view(overlap@),
            forall|q: int| 0 <= q < m ==> mask@[q] == (ov[q] > 0),
        decreases area - m,
    {
        mask.push(overlap[m] > 0);
        m = m + 1;
    }
    let ghost mask_spec = Seq::new(ov.len(), |i: int| ov[i] > 0);
    proof {
        assert(mask@ =~= mask_spec);
    }
    smoother.smooth_out(size, &mut mask);
    let ghost sm = smooth_spec(mask_spec, gw, gh);
    proof {
        assert(mask@ == sm);
    }

    let mut res: Vec<i32> = Vec::new();
    let mut r: usize = 0;
    while r < area
        invariant
            r <= area,
            res.len() == r,
            overlap.len() == area,
            mask.len() == area,
            noise.len() == area,
            nwalks <= 0x4000_0000,
            ov == int_view(overlap@),
            mask@ == sm,
            forall|q: int| 0 <= q < area ==> 0 <= #[trigger] overlap@[q] <= nwalks,
            forall|i: int|
                0 <= i < noise@.len() ==> -1_000_000 <= (#[trigger] noise@[i]) <= 1_000_000,
            forall|q: int|
                0 <= q < r ==> res@[q] == height_val(
                    if sm[q] && ov[q] == 0 {
                        1int
                    } else {
                        ov[q]
                    },
                ) + noise@[q],
        decreases area - r,
    {
        let c: i32 = overlap[r];
        let c2: i32 = if mask[r] && c == 0 {
            1
        } else {
            c
        };
        let lf: u32 = log2_fixed((c2 as u32) + 1);
        let ht: u32 = lf * 10 / 16;
        let v: i32 = (ht as i32) + noise[r];
        res.push(v);
        r = r + 1;
    }
    proof {
        assert(int_view(res@) =~= spec_generate(gw, gh, wv, int_view(noise@)));
    }
    res
}

/// Draw the walks of one generation run from the fixed-seed generator:
/// each continent gets a length in `[1, motion_length)` and that many unit
/// steps.
fn draw_walks(motion_length: u32, continents_count: u32) -> (walks: Vec<Vec<(i8, i8)>>)
    requires
        motion_length >= 2,
    ensures
        walks@.len() == continents_count,
        forall|i: int|
            0 <= i < walks@.len() ==> 1 <= (#[trigger] walks@[i])@.len() < motion_length
                && walk_steps_ok(step_view(walks@[i]@)),
{
    let mut rng = rng_from_seed(44);
    let mut walks: Vec<Vec<(i8, i8)>> = Vec::new();
    let mut ci: u32 = 0;
    while ci < continents_count
        invariant
            ci <= continents_count,
            walks@.len() == ci,
            motion_length >= 2,
            forall|i: int|
                0 <= i < walks@.len() ==> 1 <= (#[trigger] walks@[i])@.len() < motion_length
                    && walk_steps_ok(step_view(walks@[i]@)),
        decreases continents_count - ci,
    {
        let wl = gen_range_u32(&mut rng, 1, motion_length);
        let steps = draw_steps(&mut rng, wl);
        let ghost prev = walks@;
        walks.push(steps);
        proof {
            assert(forall|i: int| 0 <= i < prev.len() ==> walks@[i] == prev[i]);
            assert(walks@.last()@.len() == wl);
        }
        ci = ci + 1;
    }
    walks
}

/// Generate the height field: lay down `continents_count` random walks
/// drawn from a fixed-seed generator, smooth the resulting land mask, and
/// combine overlap counts with the supplied noise contribution.
pub fn generate_map(
    size: (usize, usize),
    motion_length: u32,
    continents_count: u32,
    smoother: &ShapeSmoother,
    noise: &Vec<i32>,
) -> (res: Vec<i32>)
    requires
        size.0 >= 1,
        size.1 >= 1,
        size.0 * size.1 <= 0x4000_0000,
        noise.len() == size.0 * size.1,
        motion_length >= 2,
        continents_count <= 0x4000_0000,
        forall|i: int|
            0 <= i < noise@.len() ==> -1_000_000 <= (#[trigger] noise@[i]) <= 1_000_000,
    ensures
        res.len() == size.0 * size.1,
        exists|ws: Seq<Seq<(int, int)>>|
            walks_ok(ws, continents_count as int, motion_length as int) && int_view(res@)
                == spec_generate(size.0 as int, size.1 as int, ws, int_view(noise@)),
{
    let walks = draw_walks(motion_length, continents_count);
    let res = generate_map_from_walks(size, &walks, smoother, noise);
    proof {
        let ws = walks_view(walks@);
        assert forall|i: int| 0 <= i < ws.len() implies 1 <= (#[trigger] ws[i]).len()
            < motion_length && walk_steps_ok(ws[i]) by {
            assert(ws[i] == step_view(walks@[i]@));
        }
        assert(walks_ok(ws, continents_count as int, motion_length as int));
    }
    res
}

/// The overlap counts of one generation run: the same fixed-seed walks
/// that `generate_map` lays down, before thresholding and smoothing.
pub fn generate_overlap(
    size: (usize, usize),
    motion_length: u32,
    continents_count: u32,
) -> (ov: Vec<i32>)
    requires
        size.0 >= 1,
        size.1 >= 1,
        size.0 * size.1 <= 0x4000_0000,
        motion_length >= 2,
        continents_count <= 0x4000_0000,
    ensures
        ov.len() == size.0 * size.1,
        exists|ws: Seq<Seq<(int, int)>>|
            walks_ok(ws, continents_count as int, motion_length as int) && int_view(ov@)
                == overlap_n(size.0 as int, size.1 as int, ws, continents_count as nat),
{
    let walks = draw_walks(motion_length, continents_count);
    let ov = accumulate_overlap(size, &walks);
    proof {
        let ws = walks_view(walks@);
        assert forall|i: int| 0 <= i < ws.len() implies 1 <= (#[trigger] ws[i]).len()
            < motion_length && walk_steps_ok(ws[i]) by {
            assert(ws[i] == step_view(walks@[i]@));
        }
        assert(walks_ok(ws, continents_count as int, motion_length as int));
    }
    ov
}

} // verus!
