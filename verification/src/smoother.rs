//! Shape smoother: iterative flood fill from the grid border.
//!
//! A boolean land/sea mask is first classified per cell as `Filled` (land),
//! `Empty`, or `Checked` (confirmed exterior, reachable from the border
//! through empty cells). Empty border cells are the seeds. Each propagation
//! step reads the previous snapshot and claims every empty cell that touches
//! a checked 4-neighbour; the run stops when a full step claims nothing.
//! The mask is then reduced back to booleans: a cell stays land exactly when
//! the flood never reached it.

use vstd::prelude::*;
use vstd::arithmetic::div_mod::lemma_fundamental_div_mod_converse;

verus! {

pub const CELL_EMPTY: u8 = 0;

pub const CELL_FILLED: u8 = 1;

pub const CELL_CHECKED: u8 = 2;

/// A cell index lies on one of the four grid edges.
pub open spec fn on_border(w: int, h: int, i: int) -> bool {
    i % w == 0 || i % w == w - 1 || i / w == 0 || i / w == h - 1
}

/// Initial classification of a mask: land is `Filled`, empty border cells
/// are the flood seeds (`Checked`), everything else is `Empty`.
pub open spec fn init_cells(mask: Seq<bool>, w: int, h: int) -> Seq<u8> {
    Seq::new(
        mask.len(),
        |i: int|
            if mask[i] {
                CELL_FILLED
            } else if on_border(w, h, i) {
                CELL_CHECKED
            } else {
                CELL_EMPTY
            },
    )
}

/// Some 4-neighbour of cell `i` is `Checked`.
pub open spec fn nbr_checked(c: Seq<u8>, w: int, h: int, i: int) -> bool {
    ||| (i % w > 0 && c[i - 1] == CELL_CHECKED)
    ||| (i % w < w - 1 && c[i + 1] == CELL_CHECKED)
    ||| (i / w > 0 && c[i - w] == CELL_CHECKED)
    ||| (i / w < h - 1 && c[i + w] == CELL_CHECKED)
}

/// One parallel propagation step over the whole grid, reading the previous
/// snapshot and writing a new one.
pub open spec fn step_cells(c: Seq<u8>, w: int, h: int) -> Seq<u8> {
    Seq::new(
        c.len(),
        |i: int|
            if c[i] == CELL_EMPTY && nbr_checked(c, w, h, i) {
                CELL_CHECKED
            } else {
                c[i]
            },
    )
}

/// `n` propagation steps.
pub open spec fn step_n(c: Seq<u8>, w: int, h: int, n: nat) -> Seq<u8>
    decreases n,
{
    if n == 0 {
        c
    } else {
        step_cells(step_n(c, w, h, (n - 1) as nat), w, h)
    }
}

/// The flood has converged: one more step changes nothing.
pub open spec fn is_settled(c: Seq<u8>, w: int, h: int) -> bool {
    step_cells(c, w, h) == c
}

/// The classification a smoothing run converges to. `w * h` steps always
/// suffice: each step either settles or claims at least one new cell.
pub open spec fn settled_cells(mask: Seq<bool>, w: int, h: int) -> Seq<u8> {
    step_n(init_cells(mask, w, h), w, h, (w * h) as nat)
}

/// Reduce a classification back to a land mask: land exactly where the
/// flood never reached.
pub open spec fn reduce_cells(c: Seq<u8>) -> Seq<bool> {
    Seq::new(c.len(), |i: int| c[i] != CELL_CHECKED)
}

/// What a smoothing run leaves in the mask buffer.
pub open spec fn smooth_spec(mask: Seq<bool>, w: int, h: int) -> Seq<bool> {
    reduce_cells(settled_cells(mask, w, h))
}

/// Number of `Checked` cells.
pub open spec fn count_checked(c: Seq<u8>) -> nat
    decreases c.len(),
{
    if c.len() == 0 {
        0
    } else {
        count_checked(c.drop_last()) + if c.last() == CELL_CHECKED {
            1nat
        } else {
            0nat
        }
    }
}

/// Classify a mask and count the seeded border cells, exactly as a
/// smoothing run does before its first propagation step.
pub fn _into_cells(size: (usize, usize), data: &Vec<bool>) -> (r: (Vec<u8>, u32))
    requires
        size.0 >= 1,
        size.1 >= 1,
        data.len() == size.0 * size.1,
        size.0 * size.1 <= 0x4000_0000,
    ensures
        r.0@ == init_cells(data@, size.0 as int, size.1 as int),
        r.1 == count_checked(init_cells(data@, size.0 as int, size.1 as int)),
{
    let w = size.0;
    let h = size.1;
    let ghost spec_cells = init_cells(data@, w as int, h as int);
    let mut cells: Vec<u8> = Vec::new();
    let mut taken: u32 = 0;
    let mut y: usize = 0;
    let mut i: usize = 0;
    while y < h
        invariant
            y <= h,
            i == y * w,
            w >= 1,
            h >= 1,
            data.len() == w * h,
            w * h <= 0x4000_0000,
            spec_cells == init_cells(data@, w as int, h as int),
            cells@ =~= spec_cells.take(i as int),
            taken == count_checked(spec_cells.take(i as int)),
            taken <= i,
        decreases h - y,
    {
        let mut x: usize = 0;
        proof {
            assert((y + 1) * w == y * w + w) by (nonlinear_arith);
            assert(y * w + w <= h * w) by (nonlinear_arith)
                requires
                    y + 1 <= h,
                    w >= 0,
            ;
            assert(h * w == w * h) by (nonlinear_arith);
        }
        while x < w
            invariant
                x <= w,
                y < h,
                w >= 1,
                h >= 1,
                i == y * w + x,
                data.len() == w * h,
                w * h <= 0x4000_0000,
                y * w + w <= w * h,
                spec_cells == init_cells(data@, w as int, h as int),
                cells@ =~= spec_cells.take(i as int),
                taken == count_checked(spec_cells.take(i as int)),
                taken <= i,
            decreases w - x,
        {
            proof {
                lemma_fundamental_div_mod_converse(i as int, w as int, y as int, x as int);
            }
            let v: u8 = if data[i] {
                CELL_FILLED
            } else if x == 0 || x == w - 1 || y == 0 || y == h - 1 {
                CELL_CHECKED
            } else {
                CELL_EMPTY
            };
            proof {
                assert(spec_cells[i as int] == v);
                assert(spec_cells.take(i + 1).drop_last() =~= spec_cells.take(i as int));
                assert(spec_cells.take(i + 1).last() == v);
            }
            cells.push(v);
            if v == CELL_CHECKED {
                taken = taken + 1;
            }
            x = x + 1;
            i = i + 1;
        }
        y = y + 1;
    }
    proof {
        assert(h * w == w * h) by (nonlinear_arith);
        assert(spec_cells.take(i as int) =~= spec_cells);
    }
    (cells, taken)
}

/// One propagation pass; also reports whether anything changed.
fn step_exec(cells: &Vec<u8>, w: usize, h: usize) -> (r: (Vec<u8>, bool))
    requires
        w >= 1,
        h >= 1,
        cells.len() == w * h,
    ensures
        r.0@ == step_cells(cells@, w as int, h as int),
        r.1 == (r.0@ != cells@),
{
    let ghost spec_next = step_cells(cells@, w as int, h as int);
    let len = cells.len();
    let mut next: Vec<u8> = Vec::new();
    let mut changed = false;
    let mut y: usize = 0;
    let mut i: usize = 0;
    proof {
        assert(next@ =~= cells@.take(0));
    }
    while y < h
        invariant
            y <= h,
            i == y * w,
            w >= 1,
            h >= 1,
            len == cells.len(),
            cells.len() == w * h,
            spec_next == step_cells(cells@, w as int, h as int),
            next@ =~= spec_next.take(i as int),
            changed == (next@ != cells@.take(i as int)),
        decreases h - y,
    {
        let mut x: usize = 0;
        proof {
            assert((y + 1) * w == y * w + w) by (nonlinear_arith);
            assert(y * w + w <= h * w) by (nonlinear_arith)
                requires
                    y + 1 <= h,
                    w >= 0,
            ;
            assert(h * w == w * h) by (nonlinear_arith);
        }
        while x < w
            invariant
                x <= w,
                y < h,
                w >= 1,
                h >= 1,
                i == y * w + x,
                len == cells.len(),
                cells.len() == w * h,
                y * w + w <= w * h,
                spec_next == step_cells(cells@, w as int, h as int),
                next@ =~= spec_next.take(i as int),
                changed == (next@ != cells@.take(i as int)),
            decreases w - x,
        {
            proof {
                lemma_fundamental_div_mod_converse(i as int, w as int, y as int, x as int);
                if y > 0 {
                    assert(((y - 1) as int) * (w as int) == y * w - w) by (nonlinear_arith);
                    assert(i - w == ((y - 1) as int) * w + x);
                }
                if y < h - 1 {
                    assert(((y + 1) as int) * (w as int) == y * w + w) by (nonlinear_arith);
                    assert((y + 1) * (w as int) + x < h * w) by (nonlinear_arith)
                        requires
                            w >= 1,
                            y + 2 <= h,
                            x < w,
                    ;
                    assert(h * w == w * h) by (nonlinear_arith);
                    assert(i + w == (y + 1) * w + x);
                }
            }
            let cur = cells[i];
            let mut v: u8 = cur;
            if cur == CELL_EMPTY {
                let mut nb = false;
                if x > 0 && cells[i - 1] == CELL_CHECKED {
                    nb = true;
                }
                if x < w - 1 && cells[i + 1] == CELL_CHECKED {
                    nb = true;
                }
                if y > 0 && cells[i - w] == CELL_CHECKED {
                    nb = true;
                }
                if y < h - 1 && cells[i + w] == CELL_CHECKED {
                    nb = true;
                }
                proof {
                    assert(nb == nbr_checked(cells@, w as int, h as int, i as int));
                }
                if nb {
                    v = CELL_CHECKED;
                    changed = true;
                }
            }
            let ghost prev = next@;
            proof {
                assert(spec_next[i as int] == v);
                assert(spec_next.take(i + 1).drop_last() =~= spec_next.take(i as int));
                assert(cells@.take(i + 1).drop_last() =~= cells@.take(i as int));
            }
            next.push(v);
            proof {
                assert(next@ =~= spec_next.take(i + 1));
                if changed {
                    // Something already differs, or this cell newly differs:
                    // the prefixes cannot be equal.
                    assert(next@ != cells@.take(i + 1)) by {
                        if next@ == cells@.take(i + 1) {
                            if v != cur {
                                assert(next@[i as int] == v);
                                assert(cells@.take(i + 1)[i as int] == cur);
                            } else {
                                assert(next@.drop_last() == cells@.take(i + 1).drop_last());
                                assert(next@.drop_last() =~= prev);
                                assert(prev == cells@.take(i as int));
                            }
                        }
                    }
                } else {
                    // Every cell so far, this one included, is unchanged.
                    assert(prev == cells@.take(i as int));
                    assert(next@ =~= cells@.take(i + 1));
                }
            }
            x = x + 1;
            i = i + 1;
        }
        y = y + 1;
    }
    proof {
        assert(h * w == w * h) by (nonlinear_arith);
        assert(spec_next.take(i as int) =~= spec_next);
        assert(cells@.take(i as int) =~= cells@);
    }
    (next, changed)
}

proof fn lemma_count_le_len(c: Seq<u8>)
    ensures
        count_checked(c) <= c.len(),
    decreases c.len(),
{
    if c.len() > 0 {
        lemma_count_le_len(c.drop_last());
    }
}

/// If every cell either keeps its value or turns from non-`Checked` into
/// `Checked`, the number of `Checked` cells cannot shrink.
proof fn lemma_count_grows(c: Seq<u8>, d: Seq<u8>)
    requires
        c.len() == d.len(),
        forall|i: int|
            0 <= i < c.len() ==> d[i] == c[i] || (c[i] != CELL_CHECKED && d[i] == CELL_CHECKED),
    ensures
        count_checked(d) >= count_checked(c),
    decreases c.len(),
{
    if c.len() > 0 {
        assert(forall|i: int|
            0 <= i < c.len() - 1 ==> c.drop_last()[i] == c[i] && d.drop_last()[i] == d[i]);
        lemma_count_grows(c.drop_last(), d.drop_last());
        assert(d.last() == d[c.len() - 1]);
        assert(c.last() == c[c.len() - 1]);
    }
}

/// ... and if at least one cell did turn, it strictly grows.
proof fn lemma_count_grows_strict(c: Seq<u8>, d: Seq<u8>, j: int)
    requires
        c.len() == d.len(),
        forall|i: int|
            0 <= i < c.len() ==> d[i] == c[i] || (c[i] != CELL_CHECKED && d[i] == CELL_CHECKED),
        0 <= j < c.len(),
        d[j] != c[j],
    ensures
        count_checked(d) > count_checked(c),
    decreases c.len(),
{
    assert(forall|i: int|
        0 <= i < c.len() - 1 ==> c.drop_last()[i] == c[i] && d.drop_last()[i] == d[i]);
    assert(d.last() == d[c.len() - 1]);
    assert(c.last() == c[c.len() - 1]);
    if j == c.len() - 1 {
        lemma_count_grows(c.drop_last(), d.drop_last());
    } else {
        lemma_count_grows_strict(c.drop_last(), d.drop_last(), j);
    }
}

/// A propagation step changes cells only from `Empty` to `Checked`.
proof fn lemma_step_frame(c: Seq<u8>, w: int, h: int)
    ensures
        step_cells(c, w, h).len() == c.len(),
        forall|i: int|
            0 <= i < c.len() ==> step_cells(c, w, h)[i] == c[i] || (c[i] == CELL_EMPTY
                && step_cells(c, w, h)[i] == CELL_CHECKED),
{
}

/// Cells only ever grow from `Empty` to `Checked` over any number of steps;
/// in particular `Filled` and `Checked` cells keep their classification.
pub proof fn lemma_step_n_frame(c: Seq<u8>, w: int, h: int, n: nat)
    ensures
        step_n(c, w, h, n).len() == c.len(),
        forall|i: int|
            0 <= i < c.len() ==> step_n(c, w, h, n)[i] == c[i] || (c[i] == CELL_EMPTY && step_n(
                c,
                w,
                h,
                n,
            )[i] == CELL_CHECKED),
    decreases n,
{
    if n > 0 {
        lemma_step_n_frame(c, w, h, (n - 1) as nat);
        lemma_step_frame(step_n(c, w, h, (n - 1) as nat), w, h);
    }
}

/// Once a cell is `Checked` it stays `Checked`: the flooded region grows
/// monotonically from step to step.
pub proof fn lemma_step_n_monotone(c: Seq<u8>, w: int, h: int, a: nat, b: nat)
    requires
        a <= b,
    ensures
        forall|i: int|
            0 <= i < c.len() && step_n(c, w, h, a)[i] == CELL_CHECKED ==> step_n(c, w, h, b)[i]
                == CELL_CHECKED,
    decreases b - a,
{
    if a < b {
        lemma_step_n_frame(c, w, h, a);
        lemma_step_n_monotone(c, w, h, a, (b - 1) as nat);
        lemma_step_n_frame(c, w, h, (b - 1) as nat);
        lemma_step_frame(step_n(c, w, h, (b - 1) as nat), w, h);
    }
}

/// A settled classification no longer moves, however many more steps run.
proof fn lemma_settled_stable(d: Seq<u8>, w: int, h: int, m: nat)
    requires
        is_settled(d, w, h),
    ensures
        step_n(d, w, h, m) == d,
    decreases m,
{
    if m > 0 {
        lemma_settled_stable(d, w, h, (m - 1) as nat);
    }
}

proof fn lemma_step_n_add(c: Seq<u8>, w: int, h: int, a: nat, b: nat)
    ensures
        step_n(c, w, h, a + b) == step_n(step_n(c, w, h, a), w, h, b),
    decreases b,
{
    if b > 0 {
        lemma_step_n_add(c, w, h, a, (b - 1) as nat);
        assert(a + b - 1 == a + (b - 1) as nat);
    }
}

/// After `n` steps the flood has either settled or claimed at least `n`
/// new cells.
proof fn lemma_progress(c: Seq<u8>, w: int, h: int, n: nat)
    ensures
        is_settled(step_n(c, w, h, n), w, h) || count_checked(step_n(c, w, h, n))
            >= count_checked(c) + n,
    decreases n,
{
    if n > 0 {
        let prev = step_n(c, w, h, (n - 1) as nat);
        let cur = step_n(c, w, h, n);
        lemma_progress(c, w, h, (n - 1) as nat);
        lemma_step_frame(prev, w, h);
        if is_settled(prev, w, h) {
            assert(cur == prev);
            assert(step_cells(cur, w, h) == cur);
        } else {
            assert(step_cells(prev, w, h) != prev);
            assert(cur.len() == prev.len());
            let j = choose|j: int| 0 <= j < prev.len() && cur[j] != prev[j];
            assert(exists|j: int| 0 <= j < prev.len() && cur[j] != prev[j]) by {
                if forall|j: int| 0 <= j < prev.len() ==> cur[j] == prev[j] {
                    assert(cur =~= prev);
                }
            }
            let j = choose|j: int| 0 <= j < prev.len() && cur[j] != prev[j];
            lemma_count_grows_strict(prev, cur, j);
        }
    }
}

proof fn lemma_all_checked_settled(c: Seq<u8>, w: int, h: int)
    requires
        count_checked(c) == c.len(),
    ensures
        is_settled(c, w, h),
{
    lemma_count_full(c);
    assert(step_cells(c, w, h) =~= c);
}

proof fn lemma_count_full(c: Seq<u8>)
    requires
        count_checked(c) == c.len(),
    ensures
        forall|i: int| 0 <= i < c.len() ==> c[i] == CELL_CHECKED,
    decreases c.len(),
{
    if c.len() > 0 {
        lemma_count_le_len(c.drop_last());
        lemma_count_full(c.drop_last());
        assert(c.last() == c[c.len() - 1]);
        assert(forall|i: int| 0 <= i < c.len() - 1 ==> c[i] == c.drop_last()[i]);
    }
}

/// The flood always settles within `w * h` steps: each step either settles
/// or claims at least one new cell, and there are only `w * h` cells.
pub proof fn lemma_settles_within_area(c: Seq<u8>, w: int, h: int)
    requires
        c.len() == w * h,
    ensures
        is_settled(step_n(c, w, h, (w * h) as nat), w, h),
{
    let area = (w * h) as nat;
    let fin = step_n(c, w, h, area);
    lemma_progress(c, w, h, area);
    lemma_step_n_frame(c, w, h, area);
    if !is_settled(fin, w, h) {
        lemma_count_le_len(fin);
        assert(count_checked(fin) == fin.len());
        lemma_all_checked_settled(fin, w, h);
    }
}

/// A settled intermediate state already is the final state.
proof fn lemma_early_settle(c: Seq<u8>, w: int, h: int, n: nat)
    requires
        c.len() == w * h,
        n <= (w * h) as nat,
        is_settled(step_n(c, w, h, n), w, h),
    ensures
        step_n(c, w, h, (w * h) as nat) == step_n(c, w, h, n),
{
    let area = (w * h) as nat;
    lemma_step_n_add(c, w, h, n, (area - n) as nat);
    lemma_settled_stable(step_n(c, w, h, n), w, h, (area - n) as nat);
}

/// The shape smoother. It owns no state: smoothing is a pure function of
/// the mask, run in two ping-pong snapshots until a full pass claims no
/// new cell.
pub struct ShapeSmoother {}

impl ShapeSmoother {
    pub fn new() -> (r: ShapeSmoother) {
        ShapeSmoother {  }
    }

    /// Flood-fill the exterior from the border and reduce the mask so that
    /// only the interior the flood never reached stays land.
    pub fn smooth_out(&self, size: (usize, usize), data: &mut Vec<bool>)
        requires
            size.0 >= 1,
            size.1 >= 1,
            old(data).len() == size.0 * size.1,
            size.0 * size.1 <= 0x4000_0000,
        ensures
            final(data)@ == smooth_spec(old(data)@, size.0 as int, size.1 as int),
            final(data).len() == old(data).len(),
    {
        let w = size.0;
        let h = size.1;
        let ghost area: nat = (w * h) as nat;
        let (mut cells, _taken) = _into_cells(size, data);
        let ghost init = cells@;
        let ghost mut n: nat = 0;
        let mut settled_now = false;
        proof {
            lemma_count_le_len(cells@);
        }
        while !settled_now
            invariant
                w >= 1,
                h >= 1,
                w * h <= 0x4000_0000,
                area == (w * h) as nat,
                init.len() == w * h,
                cells@ == step_n(init, w as int, h as int, n),
                cells.len() == w * h,
                n <= count_checked(cells@),
                count_checked(cells@) <= area,
                settled_now ==> is_settled(cells@, w as int, h as int),
            decreases area - count_checked(cells@), (if settled_now { 0int } else { 1int }),
        {
            let (next, changed) = step_exec(&cells, w, h);
            proof {
                lemma_step_frame(cells@, w as int, h as int);
                lemma_count_le_len(next@);
            }
            if changed {
                proof {
                    let j = choose|j: int| 0 <= j < cells@.len() && next@[j] != cells@[j];
                    assert(exists|j: int| 0 <= j < cells@.len() && next@[j] != cells@[j]) by {
                        if forall|j: int| 0 <= j < cells@.len() ==> next@[j] == cells@[j] {
                            assert(next@ =~= cells@);
                        }
                    }
                    let j = choose|j: int| 0 <= j < cells@.len() && next@[j] != cells@[j];
                    lemma_count_grows_strict(cells@, next@, j);
                    n = n + 1;
                }
                cells = next;
            } else {
                settled_now = true;
            }
        }
        proof {
            lemma_early_settle(init, w as int, h as int, n);
            assert(cells@ == step_n(init, w as int, h as int, area));
            assert(cells@ == settled_cells(data@, w as int, h as int));
        }
        let mut out: Vec<bool> = Vec::new();
        let mut i: usize = 0;
        let len = cells.len();
        while i < len
            invariant
                i <= len,
                len == cells.len(),
                out@ =~= reduce_cells(cells@).take(i as int),
            decreases len - i,
        {
            proof {
                assert(reduce_cells(cells@).take(i + 1).drop_last() =~= reduce_cells(
                    cells@,
                ).take(i as int));
            }
            out.push(cells[i] != CELL_CHECKED);
            i = i + 1;
        }
        proof {
            assert(reduce_cells(cells@).take(len as int) =~= reduce_cells(cells@));
        }
        *data = out;
    }
}

/// In-range 4-neighbour indices stay inside the grid.
proof fn lemma_nbr_bounds(w: int, h: int, i: int)
    requires
        w >= 1,
        h >= 1,
        0 <= i < w * h,
    ensures
        i % w > 0 ==> 0 <= i - 1 < w * h,
        i % w < w - 1 ==> 0 <= i + 1 < w * h,
        i / w > 0 ==> 0 <= i - w < w * h,
        i / w < h - 1 ==> 0 <= i + w < w * h,
{
    assert((i % w > 0 ==> 0 <= i - 1 < w * h) && (i % w < w - 1 ==> 0 <= i + 1 < w * h) && (i / w
        > 0 ==> 0 <= i - w < w * h) && (i / w < h - 1 ==> 0 <= i + w < w * h)) by (nonlinear_arith)
        requires
            w >= 1,
            h >= 1,
            0 <= i < w * h,
    ;
}

/// Every cell the first flood reaches by step `n` is reached again when the
/// smoothed mask is flooded a second time.
proof fn lemma_resmooth_covers(mask: Seq<bool>, w: int, h: int, n: nat)
    requires
        w >= 1,
        h >= 1,
        mask.len() == w * h,
        n <= (w * h) as nat,
    ensures
        forall|i: int|
            0 <= i < mask.len() && step_n(init_cells(mask, w, h), w, h, n)[i] == CELL_CHECKED
                ==> settled_cells(reduce_cells(settled_cells(mask, w, h)), w, h)[i]
                == CELL_CHECKED,
    decreases n,
{
    let area = (w * h) as nat;
    let init1 = init_cells(mask, w, h);
    let fl1 = settled_cells(mask, w, h);
    let mask1 = reduce_cells(fl1);
    let init2 = init_cells(mask1, w, h);
    let fl2 = settled_cells(mask1, w, h);
    lemma_step_n_frame(init1, w, h, area);
    lemma_step_n_frame(init2, w, h, area);
    lemma_step_n_monotone(init1, w, h, n, area);
    lemma_step_n_monotone(init2, w, h, 0, area);
    lemma_settles_within_area(init2, w, h);
    if n == 0 {
        assert forall|i: int| 0 <= i < mask.len() && init1[i] == CELL_CHECKED implies fl2[i]
            == CELL_CHECKED by {
            assert(!mask[i] && on_border(w, h, i));
            assert(fl1[i] == CELL_CHECKED);
            assert(!mask1[i]);
            assert(init2[i] == CELL_CHECKED);
        }
    } else {
        lemma_resmooth_covers(mask, w, h, (n - 1) as nat);
        let prev = step_n(init1, w, h, (n - 1) as nat);
        lemma_step_n_frame(init1, w, h, (n - 1) as nat);
        assert forall|i: int|
            0 <= i < mask.len() && step_n(init1, w, h, n)[i] == CELL_CHECKED implies fl2[i]
            == CELL_CHECKED by {
            if prev[i] == CELL_CHECKED {
                // covered by the previous step
            } else {
                assert(step_cells(prev, w, h)[i] == CELL_CHECKED);
                assert(prev[i] == CELL_EMPTY && nbr_checked(prev, w, h, i));
                assert(fl1[i] == CELL_CHECKED);
                assert(!mask1[i]);
                if init2[i] == CELL_CHECKED {
                    // a border seed of the second flood
                } else {
                    assert(init2[i] == CELL_EMPTY);
                    if fl2[i] != CELL_CHECKED {
                        assert(fl2[i] == CELL_EMPTY);
                        lemma_nbr_bounds(w, h, i);
                        assert(nbr_checked(fl2, w, h, i)) by {
                            if i % w > 0 && prev[i - 1] == CELL_CHECKED {
                                assert(fl2[i - 1] == CELL_CHECKED);
                            } else if i % w < w - 1 && prev[i + 1] == CELL_CHECKED {
                                assert(fl2[i + 1] == CELL_CHECKED);
                            } else if i / w > 0 && prev[i - w] == CELL_CHECKED {
                                assert(fl2[i - w] == CELL_CHECKED);
                            } else {
                                assert(i / w < h - 1 && prev[i + w] == CELL_CHECKED);
                                assert(fl2[i + w] == CELL_CHECKED);
                            }
                        }
                        assert(step_cells(fl2, w, h)[i] == CELL_CHECKED);
                        assert(step_cells(fl2, w, h) == fl2);
                        assert(false);
                    }
                }
            }
        }
    }
}

/// Conversely, the second flood reaches only cells the first flood reached.
proof fn lemma_resmooth_subset(mask: Seq<bool>, w: int, h: int)
    requires
        w >= 1,
        h >= 1,
        mask.len() == w * h,
    ensures
        forall|i: int|
            0 <= i < mask.len() && settled_cells(reduce_cells(settled_cells(mask, w, h)), w, h)[i]
                == CELL_CHECKED ==> settled_cells(mask, w, h)[i] == CELL_CHECKED,
{
    let area = (w * h) as nat;
    let fl1 = settled_cells(mask, w, h);
    let mask1 = reduce_cells(fl1);
    let init2 = init_cells(mask1, w, h);
    lemma_step_n_frame(init_cells(mask, w, h), w, h, area);
    lemma_step_n_frame(init2, w, h, area);
    assert forall|i: int|
        0 <= i < mask.len() && settled_cells(mask1, w, h)[i] == CELL_CHECKED implies fl1[i]
        == CELL_CHECKED by {
        assert(init2[i] != CELL_FILLED);
        assert(!mask1[i]);
    }
}

/// Smoothing is idempotent: a smoothed mask is a fixed point of the
/// smoother. Re-flooding the smoothed mask reaches exactly the cells the
/// first flood reached, so the reduction gives the same mask back.
pub proof fn lemma_smooth_idempotent(mask: Seq<bool>, w: int, h: int)
    requires
        w >= 1,
        h >= 1,
        mask.len() == w * h,
    ensures
        smooth_spec(smooth_spec(mask, w, h), w, h) == smooth_spec(mask, w, h),
{
    let area = (w * h) as nat;
    let fl1 = settled_cells(mask, w, h);
    let mask1 = reduce_cells(fl1);
    let fl2 = settled_cells(mask1, w, h);
    lemma_step_n_frame(init_cells(mask, w, h), w, h, area);
    lemma_step_n_frame(init_cells(mask1, w, h), w, h, area);
    lemma_resmooth_covers(mask, w, h, area);
    lemma_resmooth_subset(mask, w, h);
    assert(reduce_cells(fl2) =~= mask1);
}

/// A mask with no land at all.
pub open spec fn false_mask(len: nat) -> Seq<bool> {
    Seq::new(len, |i: int| false)
}

/// Distance from a cell to the nearest grid edge.
pub open spec fn border_dist(w: int, h: int, i: int) -> int {
    let x = i % w;
    let y = i / w;
    let d1 = if x <= w - 1 - x {
        x
    } else {
        w - 1 - x
    };
    let d2 = if y <= h - 1 - y {
        y
    } else {
        h - 1 - y
    };
    if d1 <= d2 {
        d1
    } else {
        d2
    }
}

/// On an all-empty grid the flood claims every cell within `k` of the
/// border after `k` steps.
proof fn lemma_flood_all_empty(w: int, h: int, k: nat)
    requires
        w >= 1,
        h >= 1,
    ensures
        forall|i: int|
            0 <= i < w * h && border_dist(w, h, i) <= k ==> step_n(
                init_cells(false_mask((w * h) as nat), w, h),
                w,
                h,
                k,
            )[i] == CELL_CHECKED,
    decreases k,
{
    let init = init_cells(false_mask((w * h) as nat), w, h);
    if k == 0 {
        assert forall|i: int| 0 <= i < w * h && border_dist(w, h, i) <= 0 implies step_n(
            init,
            w,
            h,
            0,
        )[i] == CELL_CHECKED by {
            lemma_divmod_bounds(w, h, i);
            assert(on_border(w, h, i));
        }
    } else {
        lemma_flood_all_empty(w, h, (k - 1) as nat);
        let prev = step_n(init, w, h, (k - 1) as nat);
        lemma_step_n_frame(init, w, h, (k - 1) as nat);
        lemma_step_n_monotone(init, w, h, (k - 1) as nat, k);
        assert forall|i: int| 0 <= i < w * h && border_dist(w, h, i) <= k implies step_n(
            init,
            w,
            h,
            k,
        )[i] == CELL_CHECKED by {
            lemma_divmod_bounds(w, h, i);
            let x = i % w;
            let y = i / w;
            if border_dist(w, h, i) <= k - 1 {
                // already claimed a step earlier
            } else {
                assert(border_dist(w, h, i) >= 1);
                assert(!on_border(w, h, i));
                assert(init[i] == CELL_EMPTY);
                if prev[i] == CELL_CHECKED {
                } else {
                    assert(prev[i] == CELL_EMPTY);
                    let nb: int = if x <= w - 1 - x && x <= y && x <= h - 1 - y {
                        i - 1
                    } else if (w - 1 - x) <= x && (w - 1 - x) <= y && (w - 1 - x) <= h - 1 - y {
                        i + 1
                    } else if y <= h - 1 - y {
                        i - w
                    } else {
                        i + w
                    };
                    lemma_nbr_step_dist(w, h, i, nb);
                    assert(0 <= nb < w * h && border_dist(w, h, nb) <= border_dist(w, h, i) - 1);
                    assert(prev[nb] == CELL_CHECKED);
                    assert(nbr_checked(prev, w, h, i));
                    assert(step_cells(prev, w, h)[i] == CELL_CHECKED);
                }
            }
        }
    }
}

/// Bounds of the row/column decomposition of a cell index.
proof fn lemma_divmod_bounds(w: int, h: int, i: int)
    requires
        w >= 1,
        h >= 1,
        0 <= i < w * h,
    ensures
        0 <= i % w < w,
        0 <= i / w < h,
        i == (i / w) * w + (i % w),
{
    assert(0 <= i % w < w && 0 <= i / w < h && i == (i / w) * w + (i % w)) by (nonlinear_arith)
        requires
            w >= 1,
            h >= 1,
            0 <= i < w * h,
    ;
}

/// The neighbour chosen towards the nearest edge is in the grid, is a
/// 4-neighbour in the flood's sense, and is strictly closer to the edge.
proof fn lemma_nbr_step_dist(w: int, h: int, i: int, nb: int)
    requires
        w >= 1,
        h >= 1,
        0 <= i < w * h,
        border_dist(w, h, i) >= 1,
        nb == (if i % w <= w - 1 - i % w && i % w <= i / w && i % w <= h - 1 - i / w {
            i - 1
        } else if (w - 1 - i % w) <= i % w && (w - 1 - i % w) <= i / w && (w - 1 - i % w) <= h - 1
            - i / w {
            i + 1
        } else if i / w <= h - 1 - i / w {
            i - w
        } else {
            i + w
        }),
    ensures
        0 <= nb < w * h,
        border_dist(w, h, nb) <= border_dist(w, h, i) - 1,
        nb == i - 1 ==> i % w > 0,
        nb == i + 1 ==> i % w < w - 1,
        nb == i - w ==> i / w > 0,
        nb == i + w ==> i / w < h - 1,
{
    lemma_divmod_bounds(w, h, i);
    let x = i % w;
    let y = i / w;
    if x <= w - 1 - x && x <= y && x <= h - 1 - y {
        lemma_fundamental_div_mod_converse(i - 1, w, y, x - 1);
        assert(y * w + (x - 1) == i - 1);
    } else if (w - 1 - x) <= x && (w - 1 - x) <= y && (w - 1 - x) <= h - 1 - y {
        lemma_fundamental_div_mod_converse(i + 1, w, y, x + 1);
        assert(y * w + (x + 1) == i + 1);
        assert(i + 1 < w * h) by (nonlinear_arith)
            requires
                i + 1 == (i / w) * w + (i % w) + 1,
                i % w + 1 < w,
                i / w < h,
                w >= 1,
        ;
    } else if y <= h - 1 - y {
        assert((y - 1) * w + x == i - w) by (nonlinear_arith)
            requires
                i == y * w + x,
        ;
        assert(i - w >= 0) by (nonlinear_arith)
            requires
                i == y * w + x,
                y >= 1,
                x >= 0,
                w >= 1,
        ;
        lemma_fundamental_div_mod_converse(i - w, w, y - 1, x);
    } else {
        assert((y + 1) * w + x == i + w) by (nonlinear_arith)
            requires
                i == y * w + x,
        ;
        assert(i + w < w * h) by (nonlinear_arith)
            requires
                i == y * w + x,
                y + 1 < h,
                0 <= x < w,
                w >= 1,
        ;
        lemma_fundamental_div_mod_converse(i + w, w, y + 1, x);
    }
    lemma_divmod_bounds(w, h, nb);
}

/// A mask with no land smooths to a mask with no land: the flood reaches
/// every cell of an empty grid.
pub proof fn lemma_flood_complete(w: int, h: int)
    requires
        w >= 1,
        h >= 1,
    ensures
        smooth_spec(false_mask((w * h) as nat), w, h) == false_mask((w * h) as nat),
{
    let area = (w * h) as nat;
    let init = init_cells(false_mask(area), w, h);
    lemma_flood_all_empty(w, h, area);
    lemma_step_n_frame(init, w, h, area);
    assert forall|i: int| 0 <= i < w * h implies step_n(init, w, h, area)[i] == CELL_CHECKED by {
        lemma_divmod_bounds(w, h, i);
        assert(border_dist(w, h, i) <= i % w);
        assert(w * h >= w) by (nonlinear_arith)
            requires
                h >= 1,
                w >= 0,
        ;
    }
    assert(smooth_spec(false_mask(area), w, h) =~= false_mask(area));
}

} // verus!
