//! Deterministic value noise.
//!
//! Written out here so the output is stable across platforms and dependency
//! updates: a silent change to a noise implementation would change every world.
//!
//! Bilinear-interpolated value noise with a smoothstep fade, summed over three
//! octaves. Cell counts scale with map width so feature size in tiles stays
//! constant regardless of map size.

use crate::chance::{Stream, Tape};
use crate::num::{
    law_nothing_changes_nothing, law_once_is_itself, lemma_nothing_times, lemma_scaled_index, num, of_int, Num, ONE,
};
use vstd::arithmetic::div_mod::lemma_fundamental_div_mod_converse;
use vstd::prelude::*;

verus! {

/// 2.0
pub const TWO: u32 = 0x4000_0000;

/// 3.0
pub const THREE: u32 = 0x4040_0000;

/// 0.58
pub const COARSE_WEIGHT: u32 = 0x3F14_7AE1;

/// 0.29
pub const MIDDLE_WEIGHT: u32 = 0x3E94_7AE1;

/// 0.13
pub const FINE_WEIGHT: u32 = 0x3E05_1EB8;

/// What sets the seed of the middle octave apart.
pub const MIDDLE_OFFSET: u64 = 7717;

/// What sets the seed of the fine octave apart.
pub const FINE_OFFSET: u64 = 3391;

/// The fade: flat at both ends of a cell.
pub open spec fn smoothed(t: Num) -> Num {
    t * t * (num(THREE) - num(TWO) * t)
}

fn smooth(t: Num) -> (r: Num)
    ensures
        r == smoothed(t),
{
    t * t * (num(THREE) - num(TWO) * t)
}

/// Where an index falls when a length is divided into cells.
pub open spec fn scaled(i: int, len: int, cells: int) -> Num {
    of_int(i) * (of_int(cells) / of_int(len))
}

/// The cell an index falls in.
pub open spec fn cell_of(i: int, len: int, cells: int) -> int {
    scaled(i, len, cells).truncated(u64::MAX as nat) as int
}

/// How far into its cell an index falls, faded.
pub open spec fn fade_of(i: int, len: int, cells: int) -> Num {
    smoothed(scaled(i, len, cells) - of_int(cell_of(i, len, cells)))
}

/// The random value at a corner of the coarse grid.
pub open spec fn corner(seed: u64, cells: int, gx: int, gy: int) -> Num {
    (Stream { seed, pos: (gy * (cells + 2) + gx) as u64 }).unit_here()
}

/// Four corners blended.
pub open spec fn blended(a: Num, b: Num, c: Num, d: Num, tx: Num, ty: Num) -> Num {
    (a + (b - a) * tx) * (num(ONE) - ty) + (c + (d - c) * tx) * ty
}

fn blend(a: Num, b: Num, c: Num, d: Num, tx: Num, ty: Num) -> (r: Num)
    ensures
        r == blended(a, b, c, d, tx, ty),
{
    (a + (b - a) * tx) * (num(ONE) - ty) + (c + (d - c) * tx) * ty
}

/// One octave at one tile.
pub open spec fn field_at(w: int, h: int, cells: int, seed: u64, x: int, y: int) -> Num {
    let x0 = cell_of(x, w, cells);
    let y0 = cell_of(y, h, cells);
    blended(
        corner(seed, cells, x0, y0),
        corner(seed, cells, x0 + 1, y0),
        corner(seed, cells, x0, y0 + 1),
        corner(seed, cells, x0 + 1, y0 + 1),
        fade_of(x, w, cells),
        fade_of(y, h, cells),
    )
}

/// One octave over a whole map, row by row.
pub open spec fn field_of(w: int, h: int, cells: int, seed: u64) -> Seq<Num> {
    Seq::new((w * h) as nat, |i: int| field_at(w, h, cells, seed, i % w, i / w))
}

/// A map and a grid of corners that can be held in memory.
pub open spec fn fits(w: int, h: int, cells: int) -> bool {
    &&& 0 <= w < 0x100_0000
    &&& 0 <= h < 0x100_0000
    &&& w * h <= usize::MAX
    &&& 0 < cells < 0x80_0000
    &&& (cells + 2) * (cells + 2) <= usize::MAX
}

/// Cell and fade for every index along one side of the map.
fn along(len: usize, cells: usize) -> (r: (Vec<usize>, Vec<Num>))
    requires
        len < 0x100_0000,
        0 < cells < 0x80_0000,
    ensures
        r.0@.len() == len,
        r.1@.len() == len,
        forall|i: int| 0 <= i < len ==> #[trigger] r.0@[i] == cell_of(i, len as int, cells as int) && r.0@[i] <= cells,
        forall|i: int| 0 <= i < len ==> #[trigger] r.1@[i] == fade_of(i, len as int, cells as int),
{
    let scale = Num::from_u64(cells as u64) / Num::from_u64(len as u64);
    let mut at: Vec<usize> = Vec::new();
    let mut fade: Vec<Num> = Vec::new();
    for i in 0..len
        invariant
            len < 0x100_0000,
            0 < cells < 0x80_0000,
            scale == of_int(cells as int) / of_int(len as int),
            at@.len() == i,
            fade@.len() == i,
            forall|j: int|
                0 <= j < i ==> #[trigger] at@[j] == cell_of(j, len as int, cells as int) && at@[j] <= cells,
            forall|j: int| 0 <= j < i ==> #[trigger] fade@[j] == fade_of(j, len as int, cells as int),
    {
        let f = Num::from_u64(i as u64) * scale;
        let cell = f.to_u64();
        proof {
            lemma_scaled_index(i as nat, len as nat, cells as nat);
        }
        at.push(cell as usize);
        fade.push(smooth(f - Num::from_u64(cell)));
    }
    (at, fade)
}

/// The random values at the corners of the coarse grid, row by row.
fn corners(cells: usize, seed: u64) -> (grid: Vec<Num>)
    requires
        (cells + 2) * (cells + 2) <= usize::MAX,
    ensures
        grid@.len() == (cells + 2) * (cells + 2),
        forall|i: int| 0 <= i < grid@.len() ==> #[trigger] grid@[i] == (Stream { seed, pos: i as u64 }).unit_here(),
{
    let mut rng = Stream::seeded(seed);
    proof {
        assert(cells + 2 <= (cells + 2) * (cells + 2)) by (nonlinear_arith)
            requires
                cells >= 0,
        ;
    }
    let side: usize = cells + 2;
    let count: usize = side * side;
    let mut grid: Vec<Num> = Vec::new();
    let mut tape = Tape::blank();
    for i in 0..count
        invariant
            tape.wf(),
            grid@.len() == i,
            rng == (Stream { seed, pos: i as u64 }),
            forall|j: int| 0 <= j < i ==> #[trigger] grid@[j] == (Stream { seed, pos: j as u64 }).unit_here(),
    {
        grid.push(rng.unit_from(&mut tape));
    }
    grid
}

/// The place of a corner among them.
proof fn lemma_corner(side: int, gx: int, gy: int)
    requires
        0 <= gx < side,
        0 <= gy < side,
    ensures
        0 <= gy * side <= gy * side + gx < side * side,
{
    assert(0 <= gy * side && gy * side + gx < side * side) by (nonlinear_arith)
        requires
            0 <= gx < side,
            0 <= gy,
            gy + 1 <= side,
    ;
}

/// The column and row of a place in a row-major list.
proof fn lemma_place(w: int, h: int, x: int, y: int)
    requires
        0 <= x < w,
        0 <= y < h,
    ensures
        (y * w + x) % w == x,
        (y * w + x) / w == y,
        0 <= y * w <= y * w + x < w * h,
{
    lemma_fundamental_div_mod_converse(y * w + x, w, y, x);
    assert(0 <= y * w && y * w + w <= w * h) by (nonlinear_arith)
        requires
            0 <= y,
            y + 1 <= h,
            w >= 0,
    ;
}

/// One octave: a coarse grid of random values, interpolated up to the full map.
fn field(w: usize, h: usize, cells: usize, seed: u64) -> (out: Vec<Num>)
    requires
        fits(w as int, h as int, cells as int),
    ensures
        out@ == field_of(w as int, h as int, cells as int, seed),
{
    let grid = corners(cells, seed);
    let (col, tx) = along(w, cells);
    let (row, ty) = along(h, cells);
    let side: usize = cells + 2;
    let mut out: Vec<Num> = Vec::new();
    proof {
        assert(0 * w == 0);
    }
    for y in 0..h
        invariant
            fits(w as int, h as int, cells as int),
            side == cells + 2,
            grid@.len() == side * side,
            forall|i: int|
                0 <= i < grid@.len() ==> #[trigger] grid@[i] == (Stream { seed, pos: i as u64 }).unit_here(),
            col@.len() == w,
            tx@.len() == w,
            row@.len() == h,
            ty@.len() == h,
            forall|i: int|
                0 <= i < w ==> #[trigger] col@[i] == cell_of(i, w as int, cells as int) && col@[i] <= cells,
            forall|i: int| 0 <= i < w ==> #[trigger] tx@[i] == fade_of(i, w as int, cells as int),
            forall|i: int|
                0 <= i < h ==> #[trigger] row@[i] == cell_of(i, h as int, cells as int) && row@[i] <= cells,
            forall|i: int| 0 <= i < h ==> #[trigger] ty@[i] == fade_of(i, h as int, cells as int),
            out@.len() == y * w,
            forall|i: int|
                0 <= i < out@.len() ==> #[trigger] out@[i] == field_at(
                    w as int,
                    h as int,
                    cells as int,
                    seed,
                    i % w as int,
                    i / w as int,
                ),
    {
        proof {
            assert((y + 1) * w == y * w + w) by (nonlinear_arith);
        }
        let y0 = row[y];
        let fy = ty[y];
        for x in 0..w
            invariant
                fits(w as int, h as int, cells as int),
                y < h,
                side == cells + 2,
                grid@.len() == side * side,
                forall|i: int|
                    0 <= i < grid@.len() ==> #[trigger] grid@[i] == (Stream { seed, pos: i as u64 }).unit_here(),
                col@.len() == w,
                tx@.len() == w,
                y0 == cell_of(y as int, h as int, cells as int),
                y0 <= cells,
                fy == fade_of(y as int, h as int, cells as int),
                forall|i: int|
                    0 <= i < w ==> #[trigger] col@[i] == cell_of(i, w as int, cells as int) && col@[i] <= cells,
                forall|i: int| 0 <= i < w ==> #[trigger] tx@[i] == fade_of(i, w as int, cells as int),
                out@.len() == y * w + x,
                forall|i: int|
                    0 <= i < out@.len() ==> #[trigger] out@[i] == field_at(
                        w as int,
                        h as int,
                        cells as int,
                        seed,
                        i % w as int,
                        i / w as int,
                    ),
        {
            let x0 = col[x];
            let ghost s = side as int;
            proof {
                lemma_corner(s, x0 as int, y0 as int);
                lemma_corner(s, x0 + 1, y0 as int);
                lemma_corner(s, x0 as int, y0 + 1);
                lemma_corner(s, x0 + 1, y0 + 1);
                lemma_place(w as int, h as int, x as int, y as int);
            }
            let above: usize = y0 * side + x0;
            let below: usize = (y0 + 1) * side + x0;
            let v = blend(grid[above], grid[above + 1], grid[below], grid[below + 1], tx[x], fy);
            out.push(v);
        }
    }
    proof {
        assert(h * w == w * h) by (nonlinear_arith);
        assert(out@ == field_of(w as int, h as int, cells as int, seed));
    }
    out
}

/// Cells across the map in the coarse octave.
pub open spec fn coarse_cells(w: int) -> int {
    if w / 64 > 2 {
        w / 64
    } else {
        2
    }
}

/// Cells across the map in the middle octave.
pub open spec fn middle_cells(w: int) -> int {
    if w * 9 / 256 > 3 {
        w * 9 / 256
    } else {
        3
    }
}

/// Cells across the map in the fine octave.
pub open spec fn fine_cells(w: int) -> int {
    if w * 20 / 256 > 4 {
        w * 20 / 256
    } else {
        4
    }
}

pub open spec fn wrapped_sum(a: u64, b: u64) -> u64 {
    if a + b > u64::MAX {
        (a + b - 0x1_0000_0000_0000_0000) as u64
    } else {
        (a + b) as u64
    }
}

/// The weighted sum of the octaves over a whole map.
pub open spec fn octaves_of(w: int, h: int, seed: u64) -> Seq<Num> {
    let a = field_of(w, h, coarse_cells(w), seed);
    let b = field_of(w, h, middle_cells(w), wrapped_sum(seed, MIDDLE_OFFSET));
    let c = field_of(w, h, fine_cells(w), wrapped_sum(seed, FINE_OFFSET));
    Seq::new(
        (w * h) as nat,
        |i: int| a[i] * num(COARSE_WEIGHT) + b[i] * num(MIDDLE_WEIGHT) + c[i] * num(FINE_WEIGHT),
    )
}

/// Three octaves summed at 0.58 / 0.29 / 0.13.
pub fn octaves(w: usize, h: usize, seed: u64) -> (out: Vec<Num>)
    requires
        fits(w as int, h as int, fine_cells(w as int)),
    ensures
        out@ == octaves_of(w as int, h as int, seed),
{
    let c1: usize = if w / 64 > 2 {
        w / 64
    } else {
        2
    };
    let c2: usize = if w * 9 / 256 > 3 {
        w * 9 / 256
    } else {
        3
    };
    let c3: usize = if w * 20 / 256 > 4 {
        w * 20 / 256
    } else {
        4
    };
    proof {
        assert((c1 + 2) * (c1 + 2) <= (c3 + 2) * (c3 + 2) && (c2 + 2) * (c2 + 2) <= (c3 + 2) * (c3 + 2))
            by (nonlinear_arith)
            requires
                0 <= c1 <= c3,
                0 <= c2 <= c3,
        ;
        assert(0 <= w * h) by (nonlinear_arith)
            requires
                w >= 0,
                h >= 0,
        ;
    }
    let a = field(w, h, c1, seed);
    let b = field(w, h, c2, seed.wrapping_add(MIDDLE_OFFSET));
    let c = field(w, h, c3, seed.wrapping_add(FINE_OFFSET));
    let mut out: Vec<Num> = Vec::new();
    for i in 0..a.len()
        invariant
            a@.len() == w * h,
            b@.len() == w * h,
            c@.len() == w * h,
            out@.len() == i,
            forall|j: int|
                0 <= j < i ==> #[trigger] out@[j] == a@[j] * num(COARSE_WEIGHT) + b@[j] * num(MIDDLE_WEIGHT) + c@[j]
                    * num(FINE_WEIGHT),
    {
        out.push(a[i] * num(COARSE_WEIGHT) + b[i] * num(MIDDLE_WEIGHT) + c[i] * num(FINE_WEIGHT));
    }
    assert(out@ == octaves_of(w as int, h as int, seed));
    out
}

/// A field meets its grid: along the top edge of a cell the two values below make no
/// difference, and it runs from one of the upper ones to the other.
pub proof fn law_the_top_edge_is_its_own(a: Num, b: Num, c: Num, d: Num, t: Num)
    requires
        (a + (b - a) * t).finite(),
        (a + (b - a) * t).mag() > 0,
        (c + (d - c) * t).finite(),
    ensures
        blended(a, b, c, d, t, num(0)) == a + (b - a) * t,
{
    let zero = num(0);
    let top = a + (b - a) * t;
    law_nothing_changes_nothing(num(ONE), zero);
    law_once_is_itself(top);
    lemma_nothing_times(c + (d - c) * t, zero);
    law_nothing_changes_nothing(top, (c + (d - c) * t) * zero);
}

/// And along the left edge the two values to the right make none: it runs from the
/// upper one on the left to the lower.
pub proof fn law_the_left_edge_is_its_own(a: Num, b: Num, c: Num, d: Num, t: Num)
    requires
        a.finite() && a.mag() > 0,
        c.finite() && c.mag() > 0,
        (b - a).finite(),
        (d - c).finite(),
    ensures
        blended(a, b, c, d, num(0), t) == a * (num(ONE) - t) + c * t,
{
    let zero = num(0);
    lemma_nothing_times(b - a, zero);
    lemma_nothing_times(d - c, zero);
    law_nothing_changes_nothing(a, (b - a) * zero);
    law_nothing_changes_nothing(c, (d - c) * zero);
}

/// The three layers count by their size: the coarse most, the fine least; and the
/// coarse has the fewest cells, the fine the most.
pub proof fn law_the_coarse_counts_most(w: int, h: int, seed: u64, i: int)
    requires
        0 <= i < w * h,
        256 <= w,
    ensures
        coarse_cells(w) < middle_cells(w) < fine_cells(w),
        octaves_of(w, h, seed)[i] == field_of(w, h, coarse_cells(w), seed)[i] * num(0x3F14_7AE1) + field_of(
            w,
            h,
            middle_cells(w),
            wrapped_sum(seed, MIDDLE_OFFSET),
        )[i] * num(0x3E94_7AE1) + field_of(w, h, fine_cells(w), wrapped_sum(seed, FINE_OFFSET))[i] * num(0x3E05_1EB8),
        num(0x3E05_1EB8).lt(num(0x3E94_7AE1)) && num(0x3E94_7AE1).lt(num(0x3F14_7AE1)),
        field_of(w, h, coarse_cells(w), seed)[i] == field_at(w, h, coarse_cells(w), seed, i % w, i / w),
{
}

} // verus!
