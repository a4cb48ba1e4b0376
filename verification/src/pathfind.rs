//! A* over the tile grid, cached.
//!
//! Two things make this affordable for hundreds of creatures:
//!
//! * **Scratch is reused across calls.** Every entry carries a generation stamp
//!   and is treated as unset unless the stamp matches the current search, so a
//!   search costs only what it actually visits.
//! * **Costs are integers**, in 1/256ths, which makes the result identical
//!   across runs and platforms.
//!
//! Searches are capped. A creature that asks for a path across the whole map
//! gets the best partial route found within the cap rather than stalling the
//! tick.

use crate::heap::{precedes, Heap, Open};
use crate::num::{num, of_int, Num, NOTHING};
use crate::terrain::Terrain;
use crate::world::{lemma_tile_index, tile_index, Ground, World};
use std::collections::{HashMap, VecDeque};
use vstd::prelude::*;

verus! {

/// Fixed-point scale for tile costs.
pub const SCALE: u32 = 256;

/// Diagonal step multiplier, the root of two in the same fixed point.
pub const DIAG: u32 = 362;

pub open spec fn base_cost(t: Terrain) -> u32 {
    (t.move_cost() * of_int(SCALE as int)).truncated(u32::MAX as nat) as u32
}

pub open spec fn step_cost_spec(t: Terrain, diagonal: bool) -> u32 {
    if diagonal {
        (base_cost(t) * DIAG / SCALE as int) as u32
    } else {
        base_cost(t)
    }
}

/// The base costs of everything that can be entered.
pub proof fn lemma_base_costs()
    ensures
        base_cost(Terrain::Grass) == 256,
        base_cost(Terrain::Soil) == 256,
        base_cost(Terrain::Sand) == 307,
        base_cost(Terrain::Forest) == 460,
        base_cost(Terrain::Hill) == 460,
        base_cost(Terrain::ShallowWater) == 563,
{
    vstd::arithmetic::power2::lemma2_to64();
    crate::num::lemma_times_256(Terrain::Grass.move_cost(), 0x80_0000, 126);
    crate::num::lemma_shifted_down(0x80_0000, 15);
    crate::num::lemma_times_256(Terrain::Sand.move_cost(), 0x99_999A, 126);
    crate::num::lemma_shifted_down(0x99_999A, 15);
    crate::num::lemma_times_256(Terrain::Forest.move_cost(), 0xE6_6666, 126);
    crate::num::lemma_shifted_down(0xE6_6666, 15);
    crate::num::lemma_times_256(Terrain::ShallowWater.move_cost(), 0x8C_CCCD, 127);
    crate::num::lemma_shifted_down(0x8C_CCCD, 14);
}

/// Whatever can be entered costs at least what open ground costs, and not much
/// more than three times that.
pub proof fn lemma_step_cost_bounds(t: Terrain)
    requires
        t.passable(),
    ensures
        256 <= step_cost_spec(t, false) <= 563,
        362 <= step_cost_spec(t, true) <= 796,
{
    lemma_base_costs();
}

/// Cost of entering a tile, straight or across a corner.
#[verifier::when_used_as_spec(step_cost_spec)]
pub fn step_cost(t: Terrain, diagonal: bool) -> (r: u32)
    requires
        diagonal ==> t.passable(),
    ensures
        r == step_cost_spec(t, diagonal),
{
    let base = (t.move_cost() * Num::from_u64(SCALE as u64)).to_u32();
    if diagonal {
        proof {
            lemma_base_costs();
        }
        (base as u64 * DIAG as u64 / SCALE as u64) as u32
    } else {
        base
    }
}

pub open spec fn path_cost_of(world: &World, path: Seq<(u32, u32)>) -> Num
    decreases path.len(),
{
    if path.len() <= 1 {
        num(NOTHING)
    } else {
        let a = path[path.len() - 2];
        let b = path.last();
        path_cost_of(world, path.drop_last()) + of_int(
            step_cost(world.tile(b.0 as int, b.1 as int), a.0 != b.0 && a.1 != b.1) as int,
        ) / of_int(SCALE as int)
    }
}

/// Total cost of a route, in the units a creature's speed is spent in.
pub fn path_cost(world: &World, path: &Vec<(u32, u32)>) -> (r: Num)
    requires
        world.wf(),
        forall|i: int|
            0 <= i < path@.len() ==> world.inside((#[trigger] path@[i]).0 as int, path@[i].1 as int)
                && world.tile(path@[i].0 as int, path@[i].1 as int).passable(),
    ensures
        r == path_cost_of(world, path@),
{
    let mut total = num(NOTHING);
    if path.len() == 0 {
        return total;
    }
    let mut i: usize = 1;
    while i < path.len()
        invariant
            world.wf(),
            forall|j: int|
                0 <= j < path@.len() ==> world.inside((#[trigger] path@[j]).0 as int, path@[j].1 as int)
                    && world.tile(path@[j].0 as int, path@[j].1 as int).passable(),
            1 <= i <= path@.len(),
            total == path_cost_of(world, path@.take(i as int)),
        decreases path@.len() - i,
    {
        let (ax, ay) = path[i - 1];
        let (bx, by) = path[i];
        let diagonal = ax != bx && ay != by;
        proof {
            let b = path@[i as int];
            assert(world.inside(b.0 as int, b.1 as int));
            lemma_tile_index(world.width, world.height, b.0 as int, b.1 as int);
            assert(path@.take(i + 1).drop_last() == path@.take(i as int));
        }
        let step = step_cost(world.at(bx, by), diagonal);
        total = total + Num::from_u64(step as u64) / Num::from_u64(SCALE as u64);
        i = i + 1;
    }
    assert(path@.take(path@.len() as int) == path@);
    total
}

pub open spec fn tile_no(w: Ground, x: int, y: int) -> u32 {
    tile_index(w.width, x, y) as u32
}

pub open spec fn col_of(w: Ground, i: u32) -> int {
    i as int % w.width as int
}

pub open spec fn row_of(w: Ground, i: u32) -> int {
    i as int / w.width as int
}

pub open spec fn place_of(w: Ground, i: u32) -> (u32, u32) {
    (col_of(w, i) as u32, row_of(w, i) as u32)
}

/// A grid that its tile numbers fit.
pub open spec fn is_map(w: Ground) -> bool {
    w.wf() && w.width > 0 && w.height > 0 && w.width * w.height <= u32::MAX
}

pub open spec fn is_tile(w: Ground, i: u32) -> bool {
    i < w.width * w.height
}

/// Number and place of a tile belong together.
pub proof fn lemma_tile_no(w: Ground, x: int, y: int)
    requires
        is_map(w),
        w.inside(x, y),
    ensures
        tile_no(w, x, y) == tile_index(w.width, x, y),
        is_tile(w, tile_no(w, x, y)),
        col_of(w, tile_no(w, x, y)) == x,
        row_of(w, tile_no(w, x, y)) == y,
{
    lemma_tile_index(w.width, w.height, x, y);
    vstd::arithmetic::div_mod::lemma_fundamental_div_mod_converse(
        tile_index(w.width, x, y),
        w.width as int,
        y,
        x,
    );
}

pub proof fn lemma_place(w: Ground, i: u32)
    requires
        is_map(w),
        is_tile(w, i),
    ensures
        w.inside(col_of(w, i), row_of(w, i)),
        tile_index(w.width, col_of(w, i), row_of(w, i)) == i,
        tile_no(w, col_of(w, i), row_of(w, i)) == i,
{
    let width = w.width as int;
    vstd::arithmetic::div_mod::lemma_fundamental_div_mod(i as int, width);
    let q = i as int / width;
    assert(width * q == q * width) by (nonlinear_arith);
    assert(0 <= q < w.height) by (nonlinear_arith)
        requires
            i == width * q + i as int % width,
            0 <= i as int % width < width,
            i < width * w.height,
            width > 0,
            i >= 0,
    ;
}

pub open spec fn gap(a: int, b: int) -> int {
    if a < b {
        b - a
    } else {
        a - b
    }
}

/// The cheapest conceivable cost over a distance: straight steps and diagonal
/// ones, all at the cheapest rate.
pub open spec fn octile(dx: int, dy: int) -> int {
    let lo = if dx < dy {
        dx
    } else {
        dy
    };
    let hi = if dx < dy {
        dy
    } else {
        dx
    };
    (hi - lo) * SCALE + lo * DIAG
}

pub open spec fn estimate(w: Ground, i: u32, goal: u32) -> u64 {
    octile(gap(col_of(w, i), col_of(w, goal)), gap(row_of(w, i), row_of(w, goal))) as u64
}

/// The steps a creature can take in one direction: (1, 0), (-1, 0), (0, 1),
/// (0, -1), (1, 1), (1, -1), (-1, 1), (-1, -1).
pub open spec fn step_x(k: int) -> int {
    if k == 0 || k == 4 || k == 5 {
        1
    } else if k == 1 || k == 6 || k == 7 {
        -1
    } else {
        0
    }
}

pub open spec fn step_y(k: int) -> int {
    if k == 2 || k == 4 || k == 6 {
        1
    } else if k == 3 || k == 5 || k == 7 {
        -1
    } else {
        0
    }
}

/// Whether one can step from a tile to a place next to it. Deep water cannot be
/// entered, nor its corner cut.
pub open spec fn can_step(w: Ground, x: int, y: int, nx: int, ny: int) -> bool {
    &&& w.inside(x, y)
    &&& w.inside(nx, ny)
    &&& gap(x, nx) <= 1
    &&& gap(y, ny) <= 1
    &&& !(x == nx && y == ny)
    &&& w.tile(nx, ny).passable()
    &&& x != nx && y != ny ==> w.tile(x, ny).passable() && w.tile(nx, y).passable()
}

/// Whether two tiles are one step apart.
pub open spec fn linked(w: Ground, a: u32, b: u32) -> bool {
    is_tile(w, a) && is_tile(w, b) && can_step(w, col_of(w, a), row_of(w, a), col_of(w, b), row_of(w, b))
}

pub open spec fn link_cost(w: Ground, a: u32, b: u32) -> u64 {
    step_cost(w.tile(col_of(w, b), row_of(w, b)), col_of(w, a) != col_of(w, b) && row_of(w, a) != row_of(w, b)) as u64
}

/// The tile that a direction leads to, if it can be entered from here.
pub open spec fn neighbour(w: Ground, i: u32, k: int) -> Option<u32> {
    let x = col_of(w, i);
    let y = row_of(w, i);
    let nx = x + step_x(k);
    let ny = y + step_y(k);
    if can_step(w, x, y, nx, ny) {
        Some(tile_no(w, nx, ny))
    } else {
        None
    }
}

/// What a search knows of a tile: the cost so far and the tile it was reached from.
pub struct Reach {
    pub g: u64,
    pub from: u32,
}

/// Where a search stands.
#[verifier::ext_equal]
pub struct Search {
    pub best: Map<u32, Reach>,
    pub open: Set<Open>,
    pub expanded: nat,
    /// The tile expanded so far that is nearest the goal, and its estimate.
    pub closest: (u32, u64),
}

pub open spec fn improves(best: Map<u32, Reach>, v: u32, g: u64) -> bool {
    !best.contains_key(v) || g < best[v].g
}

/// A search after the first `k` directions from tile `i` have been tried.
pub open spec fn tried(w: Ground, st: Search, i: u32, goal: u32, k: int) -> Search
    decreases k,
{
    if k <= 0 {
        st
    } else {
        let before = tried(w, st, i, goal, k - 1);
        match neighbour(w, i, k - 1) {
            Some(v) => {
                let g = (st.best[i].g + link_cost(w, i, v)) as u64;
                if improves(before.best, v, g) {
                    Search {
                        best: before.best.insert(v, Reach { g, from: i }),
                        open: before.open.insert(Open { f: (g + estimate(w, v, goal)) as u64, idx: v }),
                        ..before
                    }
                } else {
                    before
                }
            },
            None => before,
        }
    }
}

/// A search after tile `i`, whose entry has left the open set, is expanded.
pub open spec fn expanded(w: Ground, st: Search, i: u32, goal: u32) -> Search {
    let h = estimate(w, i, goal);
    tried(
        w,
        Search {
            expanded: st.expanded + 1,
            closest: if h < st.closest.1 {
                (i, h)
            } else {
                st.closest
            },
            ..st
        },
        i,
        goal,
        8,
    )
}

pub open spec fn is_least(open: Set<Open>, e: Open) -> bool {
    open.contains(e) && forall|x: Open| open.contains(x) ==> !#[trigger] precedes(x, e)
}

pub open spec fn least_of(open: Set<Open>) -> Open {
    choose|e: Open| is_least(open, e)
}

/// How a search ends.
pub enum Ending {
    Found,
    Capped,
    Exhausted,
}

/// A search run to its end: the goal comes out of the open set, or the cap is
/// reached, or nothing is left to look at.
pub open spec fn run(w: Ground, st: Search, goal: u32, cap: nat) -> (Search, Ending)
    decreases cap + 1 - st.expanded,
{
    if !(exists|e: Open| is_least(st.open, e)) {
        (st, Ending::Exhausted)
    } else {
        let e = least_of(st.open);
        let rest = Search { open: st.open.remove(e), ..st };
        if e.idx == goal {
            (rest, Ending::Found)
        } else if st.expanded + 1 > cap {
            (rest, Ending::Capped)
        } else {
            proof {
                lemma_expanded_count(w, rest, e.idx, goal);
            }
            run(w, expanded(w, rest, e.idx, goal), goal, cap)
        }
    }
}

proof fn lemma_tried_count(w: Ground, st: Search, i: u32, goal: u32, k: int)
    ensures
        tried(w, st, i, goal, k).expanded == st.expanded,
        tried(w, st, i, goal, k).closest == st.closest,
    decreases k,
{
    if k > 0 {
        lemma_tried_count(w, st, i, goal, k - 1);
    }
}

pub proof fn lemma_expanded_count(w: Ground, st: Search, i: u32, goal: u32)
    ensures
        expanded(w, st, i, goal).expanded == st.expanded + 1,
{
    let h = estimate(w, i, goal);
    lemma_tried_count(
        w,
        Search {
            expanded: st.expanded + 1,
            closest: if h < st.closest.1 {
                (i, h)
            } else {
                st.closest
            },
            ..st
        },
        i,
        goal,
        8,
    );
}

pub open spec fn start_search(w: Ground, start: u32, goal: u32) -> Search {
    Search {
        best: Map::<u32, Reach>::empty().insert(start, Reach { g: 0, from: start }),
        open: Set::<Open>::empty().insert(Open { f: estimate(w, start, goal), idx: start }),
        expanded: 0,
        closest: (start, estimate(w, start, goal)),
    }
}

/// The tiles from the start, which is left out, to a tile, by where each was
/// reached from.
pub open spec fn trace(w: Ground, best: Map<u32, Reach>, start: u32, end: u32) -> Seq<(u32, u32)>
    decreases best[end].g,
{
    if end == start || !best.contains_key(end) || !best.contains_key(best[end].from) || best[best[end].from].g
        >= best[end].g {
        Seq::empty()
    } else {
        trace(w, best, start, best[end].from).push(place_of(w, end))
    }
}

/// The tile a finished search leads to, if it leads anywhere.
pub open spec fn end_of(done: (Search, Ending), start: u32, goal: u32) -> Option<u32> {
    match done.1 {
        Ending::Found => Some(goal),
        Ending::Capped => if done.0.closest.0 != start {
            Some(done.0.closest.0)
        } else {
            None
        },
        Ending::Exhausted => None,
    }
}

/// The route that a search finds, a function of the map, the two tiles and the
/// cap alone.
pub open spec fn searched(w: Ground, start: u32, goal: u32, cap: nat) -> Option<Seq<(u32, u32)>> {
    let done = run(w, start_search(w, start, goal), goal, cap);
    match end_of(done, start, goal) {
        Some(end) => Some(trace(w, done.0.best, start, end)),
        None => None,
    }
}

/// The route from one place to another.
pub open spec fn route_of(w: Ground, start: (u32, u32), goal: (u32, u32), cap: nat) -> Option<Seq<(u32, u32)>> {
    if start == goal {
        Some(Seq::empty())
    } else if !w.inside(goal.0 as int, goal.1 as int) || !w.tile(goal.0 as int, goal.1 as int).passable() {
        None
    } else {
        searched(
            w,
            tile_no(w, start.0 as int, start.1 as int),
            tile_no(w, goal.0 as int, goal.1 as int),
            cap,
        )
    }
}

/// What holds of a search at every step.
pub open spec fn search_inv(w: Ground, st: Search, start: u32, goal: u32) -> bool {
    &&& is_tile(w, start)
    &&& is_tile(w, goal)
    &&& st.best.contains_key(start) && st.best[start] == (Reach { g: 0, from: start })
    &&& forall|v: u32| #[trigger]
        st.best.contains_key(v) ==> {
            &&& is_tile(w, v)
            &&& st.best[v].g <= 800 * st.expanded
            &&& v != start ==> st.best.contains_key(st.best[v].from) && linked(w, st.best[v].from, v)
                && st.best[st.best[v].from].g + link_cost(w, st.best[v].from, v) <= st.best[v].g
        }
    &&& forall|e: Open| #[trigger]
        st.open.contains(e) ==> st.best.contains_key(e.idx) && e.f >= st.best[e.idx].g + estimate(w, e.idx, goal)
    &&& st.best.contains_key(st.closest.0)
}

pub proof fn lemma_estimate_bound(w: Ground, i: u32, goal: u32)
    requires
        is_map(w),
        is_tile(w, i),
        is_tile(w, goal),
    ensures
        estimate(w, i, goal) == octile(gap(col_of(w, i), col_of(w, goal)), gap(row_of(w, i), row_of(w, goal))),
        estimate(w, i, goal) <= 0x1_0000_0000 * 362,
{
    lemma_place(w, i);
    lemma_place(w, goal);
}

pub proof fn lemma_link_cost(w: Ground, a: u32, b: u32)
    requires
        linked(w, a, b),
    ensures
        256 <= link_cost(w, a, b) <= 796,
        col_of(w, a) != col_of(w, b) && row_of(w, a) != row_of(w, b) ==> link_cost(w, a, b) >= 362,
{
    lemma_step_cost_bounds(w.tile(col_of(w, b), row_of(w, b)));
}

pub proof fn lemma_neighbour(w: Ground, i: u32, k: int)
    requires
        is_map(w),
        is_tile(w, i),
    ensures
        neighbour(w, i, k) matches Some(v) ==> linked(w, i, v) && v != i,
{
    lemma_place(w, i);
    let nx = col_of(w, i) + step_x(k);
    let ny = row_of(w, i) + step_y(k);
    if can_step(w, col_of(w, i), row_of(w, i), nx, ny) {
        lemma_tile_no(w, nx, ny);
    }
}

/// Every step leads in one of the eight directions.
pub proof fn lemma_direction(w: Ground, a: u32, b: u32) -> (k: int)
    requires
        is_map(w),
        linked(w, a, b),
    ensures
        0 <= k < 8,
        neighbour(w, a, k) == Some(b),
{
    lemma_place(w, b);
    let dx = col_of(w, b) - col_of(w, a);
    let dy = row_of(w, b) - row_of(w, a);
    if dx == 1 && dy == 0 {
        0
    } else if dx == -1 && dy == 0 {
        1
    } else if dx == 0 && dy == 1 {
        2
    } else if dx == 0 && dy == -1 {
        3
    } else if dx == 1 && dy == 1 {
        4
    } else if dx == 1 && dy == -1 {
        5
    } else if dx == -1 && dy == 1 {
        6
    } else {
        7
    }
}

/// A search step that keeps the invariant while directions are tried.
proof fn lemma_tried_inv(w: Ground, st: Search, i: u32, start: u32, goal: u32, k: int)
    requires
        is_map(w),
        0 <= k <= 8,
        search_inv(w, st, start, goal),
        st.best.contains_key(i),
        st.best[i].g + 796 <= 800 * st.expanded,
        st.expanded <= 0x1_0000_0000,
    ensures
        search_inv(w, tried(w, st, i, goal, k), start, goal),
        tried(w, st, i, goal, k).best.contains_key(i),
        tried(w, st, i, goal, k).best[i] == st.best[i],
    decreases k,
{
    if k > 0 {
        lemma_tried_inv(w, st, i, start, goal, k - 1);
        lemma_tried_count(w, st, i, goal, k - 1);
        let before = tried(w, st, i, goal, k - 1);
        let after = tried(w, st, i, goal, k);
        lemma_neighbour(w, i, k - 1);
        if let Some(v) = neighbour(w, i, k - 1) {
            lemma_link_cost(w, i, v);
            lemma_estimate_bound(w, v, goal);
            let g = (st.best[i].g + link_cost(w, i, v)) as u64;
            if improves(before.best, v, g) {
                assert(v != start);
                assert forall|u: u32| #[trigger] after.best.contains_key(u) implies {
                    &&& is_tile(w, u)
                    &&& after.best[u].g <= 800 * after.expanded
                    &&& u != start ==> after.best.contains_key(after.best[u].from) && linked(
                        w,
                        after.best[u].from,
                        u,
                    ) && after.best[after.best[u].from].g + link_cost(w, after.best[u].from, u) <= after.best[u].g
                } by {
                    if u != v {
                        assert(before.best.contains_key(u));
                        if u != start {
                            let f = before.best[u].from;
                            assert(before.best.contains_key(f));
                        }
                    }
                }
                assert forall|e: Open| #[trigger] after.open.contains(e) implies after.best.contains_key(e.idx) && e.f
                    >= after.best[e.idx].g + estimate(w, e.idx, goal) by {
                    if before.open.contains(e) {
                        assert(before.best.contains_key(e.idx));
                    }
                }
            }
        }
    }
}

proof fn lemma_expanded_inv(w: Ground, st: Search, i: u32, start: u32, goal: u32)
    requires
        is_map(w),
        search_inv(w, st, start, goal),
        st.best.contains_key(i),
        st.expanded < 0x1_0000_0000,
    ensures
        search_inv(w, expanded(w, st, i, goal), start, goal),
{
    let h = estimate(w, i, goal);
    let next = Search {
        expanded: st.expanded + 1,
        closest: if h < st.closest.1 {
            (i, h)
        } else {
            st.closest
        },
        ..st
    };
    assert(search_inv(w, next, start, goal));
    lemma_tried_inv(w, next, i, start, goal, 8);
}

proof fn lemma_start_inv(w: Ground, start: u32, goal: u32)
    requires
        is_map(w),
        is_tile(w, start),
        is_tile(w, goal),
    ensures
        search_inv(w, start_search(w, start, goal), start, goal),
{
}

proof fn lemma_run_inv(w: Ground, st: Search, start: u32, goal: u32, cap: nat)
    requires
        is_map(w),
        search_inv(w, st, start, goal),
        cap <= 0x1_0000_0000,
    ensures
        search_inv(w, run(w, st, goal, cap).0, start, goal),
        run(w, st, goal, cap).1 == Ending::Found ==> run(w, st, goal, cap).0.best.contains_key(goal),
    decreases cap + 1 - st.expanded,
{
    if exists|e: Open| is_least(st.open, e) {
        let e = least_of(st.open);
        assert(is_least(st.open, e));
        let rest = Search { open: st.open.remove(e), ..st };
        assert(search_inv(w, rest, start, goal));
        if e.idx != goal && st.expanded + 1 <= cap {
            lemma_expanded_count(w, rest, e.idx, goal);
            lemma_expanded_inv(w, rest, e.idx, start, goal);
            lemma_run_inv(w, expanded(w, rest, e.idx, goal), start, goal, cap);
        }
    }
}

proof fn lemma_least_is_unique(open: Set<Open>, e: Open)
    requires
        is_least(open, e),
    ensures
        least_of(open) == e,
{
    let x = least_of(open);
    assert(is_least(open, x));
    assert(!precedes(x, e) && !precedes(e, x));
}

#[derive(Debug, Clone, Copy, PartialEq, Eq, Structural)]
pub struct PathStats {
    pub searches: u64,
    pub cache_hits: u64,
    pub nodes_expanded: u64,
    pub capped: u64,
}

pub struct Pathfinder {
    pub width: u32,
    pub height: u32,
    pub g: Vec<u64>,
    pub came_from: Vec<u32>,
    pub stamp: Vec<u32>,
    pub generation: u32,
    pub open: Heap,
    /// Bounded cache by start and goal. Eviction only decides whether a search
    /// is repeated, never what it returns.
    pub cache: HashMap<u64, Vec<(u32, u32)>>,
    pub cache_order: VecDeque<u64>,
    pub cache_capacity: usize,
    /// Cap on nodes expanded per search.
    pub node_cap: u32,
    pub stats: PathStats,
}

pub open spec fn cache_key(start: u32, goal: u32) -> u64 {
    (start * 0x1_0000_0000 + goal) as u64
}

/// What a search adds to the statistics.
pub open spec fn nodes_expanded_in(done: (Search, Ending)) -> nat {
    if done.1 == Ending::Capped {
        done.0.expanded + 1
    } else {
        done.0.expanded
    }
}

/// The arrays hold exactly what a search knows: an entry counts only under the
/// stamp of the running generation.
pub open spec fn holds(pf: &Pathfinder, best: Map<u32, Reach>) -> bool {
    &&& forall|i: u32|
        i < pf.stamp@.len() ==> (#[trigger] best.contains_key(i) <==> pf.stamp@[i as int] == pf.generation)
    &&& forall|i: u32| #[trigger]
        best.contains_key(i) ==> i < pf.stamp@.len() && pf.g@[i as int] == best[i].g && pf.came_from@[i as int]
            == best[i].from
}

impl Pathfinder {
    /// One entry per tile, none stamped by a generation to come.
    pub open spec fn wf(&self) -> bool {
        &&& self.g@.len() == self.width * self.height
        &&& self.came_from@.len() == self.g@.len()
        &&& self.stamp@.len() == self.g@.len()
        &&& forall|i: int| 0 <= i < self.stamp@.len() ==> (#[trigger] self.stamp@[i]) <= self.generation
        &&& self.open.wf()
    }

    pub open spec fn fits(&self, w: Ground) -> bool {
        is_map(w) && self.width == w.width && self.height == w.height
    }

    /// Whatever is cached is what a search would find.
    pub open spec fn cache_serves(&self, w: Ground) -> bool {
        forall|start: u32, goal: u32| #[trigger]
            self.cache@.contains_key(cache_key(start, goal)) ==> searched(w, start, goal, self.node_cap as nat) == Some(
                self.cache@[cache_key(start, goal)]@,
            )
    }

    pub fn new(world: &World) -> (r: Self)
        requires
            world.width * world.height <= usize::MAX,
        ensures
            r.wf(),
            r.width == world.width,
            r.height == world.height,
            r.node_cap == 6000,
            r.cache_capacity == 2048,
            r.cache@ == Map::<u64, Vec<(u32, u32)>>::empty(),
            r.stats == (PathStats { searches: 0, cache_hits: 0, nodes_expanded: 0, capped: 0 }),
    {
        let n: usize = world.width as usize * world.height as usize;
        let mut g: Vec<u64> = Vec::new();
        let mut came_from: Vec<u32> = Vec::new();
        let mut stamp: Vec<u32> = Vec::new();
        for i in 0..n
            invariant
                g@.len() == i,
                came_from@.len() == i,
                stamp@.len() == i,
                forall|j: int| 0 <= j < i ==> #[trigger] stamp@[j] == 0,
        {
            g.push(0);
            came_from.push(0);
            stamp.push(0);
        }
        Pathfinder {
            width: world.width,
            height: world.height,
            g,
            came_from,
            stamp,
            generation: 0,
            open: Heap::new(),
            cache: HashMap::new(),
            cache_order: VecDeque::new(),
            cache_capacity: 2048,
            node_cap: 6000,
            stats: PathStats { searches: 0, cache_hits: 0, nodes_expanded: 0, capped: 0 },
        }
    }

    /// The number of a tile.
    pub fn idx(&self, x: u32, y: u32) -> (i: u32)
        requires
            tile_index(self.width, x as int, y as int) <= u32::MAX,
        ensures
            i == tile_index(self.width, x as int, y as int),
    {
        proof {
            assert(0 <= y * self.width) by (nonlinear_arith)
                requires
                    y >= 0,
                    self.width >= 0,
            ;
        }
        y * self.width + x
    }

    /// The place of a tile.
    pub fn xy(&self, i: u32) -> (r: (u32, u32))
        requires
            self.width > 0,
        ensures
            r.0 == i as int % self.width as int,
            r.1 == i as int / self.width as int,
    {
        (i % self.width, i / self.width)
    }

    /// Admissible estimate: the cheapest conceivable remaining cost.
    pub fn heuristic(&self, i: u32, goal: u32) -> (h: u64)
        requires
            self.width > 0,
        ensures
            h == octile(
                gap(i as int % self.width as int, goal as int % self.width as int),
                gap(i as int / self.width as int, goal as int / self.width as int),
            ),
    {
        let (ax, ay) = self.xy(i);
        let (bx, by) = self.xy(goal);
        let dx = if ax < bx {
            bx - ax
        } else {
            ax - bx
        };
        let dy = if ay < by {
            by - ay
        } else {
            ay - by
        };
        let (lo, hi) = if dx < dy {
            (dx, dy)
        } else {
            (dy, dx)
        };
        let straight: u64 = (hi - lo) as u64 * 256;
        let across: u64 = lo as u64 * 362;
        straight + across
    }

    /// Invalidates the cache. To be called when terrain changes; resource
    /// depletion does not affect routes.
    pub fn clear_cache(&mut self)
        ensures
            final(self).cache@ == Map::<u64, Vec<(u32, u32)>>::empty(),
            final(self).cache_order@.len() == 0,
            *final(self) == (Pathfinder {
                cache: final(self).cache,
                cache_order: final(self).cache_order,
                ..*old(self)
            }),
    {
        self.cache.clear();
        self.cache_order.clear();
    }

    /// The tile that a direction leads to.
    fn step_from(&self, world: &World, i: u32, k: usize) -> (r: Option<(u32, bool)>)
        requires
            self.fits(world.ground()),
            is_tile(world.ground(), i),
            k < 8,
        ensures
            match r {
                Some(v) => neighbour(world.ground(), i, k as int) == Some(v.0) && v.1 == (col_of(world.ground(), i) != col_of(world.ground(), v.0)
                    && row_of(world.ground(), i) != row_of(world.ground(), v.0)),
                None => neighbour(world.ground(), i, k as int) is None,
            },
    {
        let (x, y) = self.xy(i);
        proof {
            lemma_place(world.ground(), i);
        }
        let dx: i64 = match k {
            0 | 4 | 5 => 1,
            1 | 6 | 7 => -1,
            _ => 0,
        };
        let dy: i64 = match k {
            2 | 4 | 6 => 1,
            3 | 5 | 7 => -1,
            _ => 0,
        };
        let nx = x as i64 + dx;
        let ny = y as i64 + dy;
        if !world.in_bounds(nx, ny) {
            return None;
        }
        let nx = nx as u32;
        let ny = ny as u32;
        proof {
            lemma_tile_index(world.width, world.height, nx as int, ny as int);
            lemma_tile_index(world.width, world.height, x as int, ny as int);
            lemma_tile_index(world.width, world.height, nx as int, y as int);
            lemma_tile_no(world.ground(), nx as int, ny as int);
        }
        if !world.at(nx, ny).passable() {
            return None;
        }
        let diagonal = k >= 4;
        if diagonal && (!world.at(x, ny).passable() || !world.at(nx, y).passable()) {
            return None;
        }
        Some((self.idx(nx, ny), diagonal))
    }

    /// Starts a new generation, so that every entry counts as unset.
    fn next_generation(&mut self)
        requires
            old(self).wf(),
        ensures
            final(self).wf(),
            forall|i: int|
                0 <= i < final(self).stamp@.len() ==> (#[trigger] final(self).stamp@[i]) != final(self).generation,
            *final(self) == (Pathfinder {
                stamp: final(self).stamp,
                generation: final(self).generation,
                ..*old(self)
            }),
    {
        if self.generation == u32::MAX {
            // The only moment the stamps need clearing.
            let n = self.stamp.len();
            let mut fresh: Vec<u32> = Vec::new();
            for i in 0..n
                invariant
                    fresh@.len() == i,
                    forall|j: int| 0 <= j < i ==> #[trigger] fresh@[j] == 0,
            {
                fresh.push(0);
            }
            self.stamp = fresh;
            self.generation = 1;
        } else {
            self.generation = self.generation + 1;
        }
    }

    /// Expands one tile: tries its eight directions.
    fn expand(&mut self, world: &World, idx: u32, goal_i: u32, Ghost(st): Ghost<Search>, Ghost(start): Ghost<u32>)
        requires
            old(self).wf(),
            old(self).fits(world.ground()),
            search_inv(world.ground(), st, start, goal_i),
            st.best.contains_key(idx),
            st.best[idx].g + 796 <= 800 * st.expanded,
            st.expanded <= 0x1_0000_0000,
            holds(&*old(self), st.best),
            old(self).open@ == st.open,
        ensures
            final(self).wf(),
            final(self).fits(world.ground()),
            holds(&*final(self), tried(world.ground(), st, idx, goal_i, 8).best),
            final(self).open@ == tried(world.ground(), st, idx, goal_i, 8).open,
            *final(self) == (Pathfinder {
                g: final(self).g,
                came_from: final(self).came_from,
                stamp: final(self).stamp,
                open: final(self).open,
                ..*old(self)
            }),
    {
        let g_here = self.g[idx as usize];
        let gen = self.generation;
        let mut k: usize = 0;
        while k < 8
            invariant
                k <= 8,
                self.wf(),
                self.fits(world.ground()),
                search_inv(world.ground(), st, start, goal_i),
                st.best.contains_key(idx),
                st.best[idx].g + 796 <= 800 * st.expanded,
                st.expanded <= 0x1_0000_0000,
                gen == self.generation,
                g_here == st.best[idx].g,
                holds(&*self, tried(world.ground(), st, idx, goal_i, k as int).best),
                self.open@ == tried(world.ground(), st, idx, goal_i, k as int).open,
                *self == (Pathfinder {
                    g: self.g,
                    came_from: self.came_from,
                    stamp: self.stamp,
                    open: self.open,
                    ..*old(self)
                }),
            decreases 8 - k,
        {
            let ghost now = tried(world.ground(), st, idx, goal_i, k as int);
            proof {
                lemma_tried_inv(world.ground(), st, idx, start, goal_i, k as int);
                lemma_neighbour(world.ground(), idx, k as int);
            }
            if let Some((ni, diagonal)) = self.step_from(world, idx, k) {
                let (nx, ny) = self.xy(ni);
                proof {
                    lemma_place(world.ground(), ni);
                    lemma_link_cost(world.ground(), idx, ni);
                    lemma_estimate_bound(world.ground(), ni, goal_i);
                }
                let tentative = g_here + step_cost(world.at(nx, ny), diagonal) as u64;
                assert(tentative == st.best[idx].g + link_cost(world.ground(), idx, ni));
                assert(self.stamp@.len() == world.width * world.height);
                let unset = self.stamp[ni as usize] != gen;
                assert(now.best.contains_key(ni) <==> !unset);
                if unset || tentative < self.g[ni as usize] {
                    assert(improves(now.best, ni, tentative));
                    let e = Open { f: tentative + self.heuristic(ni, goal_i), idx: ni };
                    proof {
                        assert(!now.open.contains(e)) by {
                            if now.open.contains(e) {
                                assert(now.best.contains_key(ni));
                            }
                        }
                    }
                    self.stamp[ni as usize] = gen;
                    self.g[ni as usize] = tentative;
                    self.came_from[ni as usize] = idx;
                    self.open.push(e);
                    proof {
                        let next = tried(world.ground(), st, idx, goal_i, k + 1);
                        assert(next.best == now.best.insert(ni, Reach { g: tentative, from: idx }));
                        assert forall|i: u32| i < self.stamp@.len() implies (#[trigger] next.best.contains_key(i)
                            <==> self.stamp@[i as int] == self.generation) by {
                            assert(now.best.contains_key(i) || !now.best.contains_key(i));
                        }
                        assert forall|i: u32| #[trigger] next.best.contains_key(i) implies i < self.stamp@.len()
                            && self.g@[i as int] == next.best[i].g && self.came_from@[i as int]
                            == next.best[i].from by {
                            if i != ni {
                                assert(now.best.contains_key(i));
                            }
                        }
                    }
                }
            }
            k = k + 1;
        }
    }

    /// The tiles from the start to a tile, by where each was reached from.
    fn trace_back(
        &self,
        world: &World,
        start_i: u32,
        end: u32,
        Ghost(st): Ghost<Search>,
        Ghost(goal): Ghost<u32>,
    ) -> (path: Vec<(u32, u32)>)
        requires
            self.wf(),
            self.fits(world.ground()),
            search_inv(world.ground(), st, start_i, goal),
            holds(self, st.best),
            st.best.contains_key(end),
        ensures
            path@ == trace(world.ground(), st.best, start_i, end),
    {
        let mut back: Vec<(u32, u32)> = Vec::new();
        let mut cur = end;
        while cur != start_i
            invariant
                self.wf(),
                self.fits(world.ground()),
                search_inv(world.ground(), st, start_i, goal),
                holds(self, st.best),
                st.best.contains_key(cur),
                trace(world.ground(), st.best, start_i, end) == trace(world.ground(), st.best, start_i, cur) + back@.reverse(),
            decreases st.best[cur].g,
        {
            let ghost from = st.best[cur].from;
            let ghost before = back@;
            proof {
                assert(st.best.contains_key(from));
                lemma_link_cost(world.ground(), from, cur);
                lemma_place(world.ground(), cur);
            }
            back.push(self.xy(cur));
            proof {
                let head = trace(world.ground(), st.best, start_i, from);
                assert(trace(world.ground(), st.best, start_i, cur) == head.push(place_of(world.ground(), cur)));
                assert(head.push(place_of(world.ground(), cur)) + before.reverse() == head + back@.reverse());
            }
            cur = self.came_from[cur as usize];
        }
        let mut path: Vec<(u32, u32)> = Vec::new();
        let mut k: usize = back.len();
        while k > 0
            invariant
                k <= back@.len(),
                path@ == back@.skip(k as int).reverse(),
            decreases k,
        {
            k = k - 1;
            path.push(back[k]);
            assert(path@ == back@.skip(k as int).reverse());
        }
        assert(back@.skip(0) == back@);
        path
    }

    /// What a search does to everything but the scratch.
    pub open spec fn after_search(&self, before: &Pathfinder, done: (Search, Ending)) -> bool {
        &&& self.cache == before.cache
        &&& self.cache_order == before.cache_order
        &&& self.cache_capacity == before.cache_capacity
        &&& self.node_cap == before.node_cap
        &&& self.stats == searched_stats(before.stats, done)
    }

    pub fn search(&mut self, world: &World, start: (u32, u32), goal: (u32, u32)) -> (r: Option<Vec<(u32, u32)>>)
        requires
            old(self).wf(),
            old(self).fits(world.ground()),
            world.inside(start.0 as int, start.1 as int),
            world.inside(goal.0 as int, goal.1 as int),
        ensures
            final(self).wf(),
            final(self).fits(world.ground()),
            ({
                let start_i = tile_no(world.ground(), start.0 as int, start.1 as int);
                let goal_i = tile_no(world.ground(), goal.0 as int, goal.1 as int);
                let cap = old(self).node_cap as nat;
                &&& final(self).after_search(
                    old(self),
                    run(world.ground(), start_search(world.ground(), start_i, goal_i), goal_i, cap),
                )
                &&& match r {
                    Some(p) => searched(world.ground(), start_i, goal_i, cap) == Some(p@),
                    None => searched(world.ground(), start_i, goal_i, cap) is None,
                }
            }),
    {
        let ghost old_stats = self.stats;
        self.stats.searches = self.stats.searches.saturating_add(1);
        self.next_generation();
        self.open.clear();
        proof {
            lemma_tile_no(world.ground(), start.0 as int, start.1 as int);
            lemma_tile_no(world.ground(), goal.0 as int, goal.1 as int);
        }
        let start_i = self.idx(start.0, start.1);
        let goal_i = self.idx(goal.0, goal.1);
        let cap = self.node_cap;
        let gen = self.generation;
        let ghost first = start_search(world.ground(), start_i, goal_i);
        let ghost done = run(world.ground(), first, goal_i, cap as nat);
        proof {
            lemma_start_inv(world.ground(), start_i, goal_i);
            lemma_estimate_bound(world.ground(), start_i, goal_i);
            assert(self.stamp@.len() == world.width * world.height);
        }
        let h0 = self.heuristic(start_i, goal_i);
        self.g[start_i as usize] = 0;
        self.came_from[start_i as usize] = start_i;
        self.stamp[start_i as usize] = gen;
        self.open.push(Open { f: h0, idx: start_i });
        let mut expanded_n: u64 = 0;
        let mut closest = (start_i, h0);
        let mut found = false;
        let mut capped = false;
        let ghost mut st = first;
        proof {
            assert(self.open@ == first.open);
            assert forall|i: u32| i < self.stamp@.len() implies (#[trigger] first.best.contains_key(i) <==> self.stamp@[
            i as int] == self.generation) by {}
            assert(holds(&*self, first.best));
        }
        loop
            invariant_except_break
                run(world.ground(), st, goal_i, cap as nat) == done,
                self.open@ == st.open,
                expanded_n == st.expanded,
                expanded_n <= cap,
                closest == st.closest,
                !found,
                !capped,
            invariant
                self.wf(),
                self.fits(world.ground()),
                cap == self.node_cap,
                cap == old(self).node_cap,
                self.cache == old(self).cache,
                self.cache_order == old(self).cache_order,
                self.cache_capacity == old(self).cache_capacity,
                self.stats == (PathStats { searches: bumped(old_stats.searches, 1), ..old_stats }),
                search_inv(world.ground(), st, start_i, goal_i),
                holds(&*self, st.best),
            ensures
                done.0.best == st.best,
                done.0.closest == closest,
                expanded_n == nodes_expanded_in(done),
                found <==> done.1 == Ending::Found,
                capped <==> done.1 == Ending::Capped,
                found ==> st.best.contains_key(goal_i),
                st.best.contains_key(closest.0),
            decreases cap + 1 - expanded_n,
        {
            match self.open.pop() {
                None => {
                    assert(!(exists|e: Open| is_least(st.open, e)));
                    break;
                },
                Some(e) => {
                    let idx = e.idx;
                    let ghost rest = Search { open: st.open.remove(e), ..st };
                    proof {
                        assert(is_least(st.open, e));
                        lemma_least_is_unique(st.open, e);
                        assert(search_inv(world.ground(), rest, start_i, goal_i));
                        assert(st.best.contains_key(idx));
                    }
                    if idx == goal_i {
                        found = true;
                        proof {
                            st = rest;
                        }
                        break;
                    }
                    expanded_n = expanded_n + 1;
                    if expanded_n > cap as u64 {
                        capped = true;
                        proof {
                            st = rest;
                        }
                        break;
                    }
                    let h = self.heuristic(idx, goal_i);
                    if h < closest.1 {
                        closest = (idx, h);
                    }
                    proof {
                        lemma_estimate_bound(world.ground(), idx, goal_i);
                        let next = Search { expanded: rest.expanded + 1, closest, ..rest };
                        assert(search_inv(world.ground(), next, start_i, goal_i));
                        lemma_expanded_inv(world.ground(), rest, idx, start_i, goal_i);
                        lemma_expanded_count(world.ground(), rest, idx, goal_i);
                        lemma_tried_count(world.ground(), next, idx, goal_i, 8);
                        st = next;
                    }
                    self.expand(world, idx, goal_i, Ghost(st), Ghost(start_i));
                    proof {
                        st = tried(world.ground(), st, idx, goal_i, 8);
                        assert(st == expanded(world.ground(), rest, idx, goal_i));
                    }
                },
            }
        }
        self.stats.nodes_expanded = self.stats.nodes_expanded.saturating_add(expanded_n);
        if capped {
            self.stats.capped = self.stats.capped.saturating_add(1);
        }
        let end = if found {
            goal_i
        } else if capped && closest.0 != start_i {
            closest.0
        } else {
            return None;
        };
        Some(self.trace_back(world, start_i, end, Ghost(st), Ghost(goal_i)))
    }

    /// A route from `start` to `goal`, or `None` if there is none. The start tile
    /// is left out so that the route can be consumed step by step.
    pub fn find(&mut self, world: &World, start: (u32, u32), goal: (u32, u32)) -> (r: Option<Vec<(u32, u32)>>)
        requires
            old(self).wf(),
            old(self).fits(world.ground()),
            old(self).cache_serves(world.ground()),
            world.inside(start.0 as int, start.1 as int),
        ensures
            final(self).wf(),
            final(self).fits(world.ground()),
            final(self).cache_serves(world.ground()),
            final(self).node_cap == old(self).node_cap,
            final(self).cache_capacity == old(self).cache_capacity,
            match r {
                Some(p) => route_of(world.ground(), start, goal, old(self).node_cap as nat) == Some(p@),
                None => route_of(world.ground(), start, goal, old(self).node_cap as nat) is None,
            },
            ({
                let refused = start == goal || !world.inside(goal.0 as int, goal.1 as int) || !world.tile(
                    goal.0 as int,
                    goal.1 as int,
                ).passable();
                let key = cache_key(
                    tile_no(world.ground(), start.0 as int, start.1 as int),
                    tile_no(world.ground(), goal.0 as int, goal.1 as int),
                );
                &&& refused ==> *final(self) == *old(self)
                &&& !refused && old(self).cache@.contains_key(key) ==> final(self).stats == (PathStats {
                    cache_hits: bumped(old(self).stats.cache_hits, 1),
                    ..old(self).stats
                })
                &&& !refused && old(self).cache@.contains_key(key) ==> final(self).cache == old(self).cache
                    && final(self).cache_order == old(self).cache_order
                &&& !refused && !old(self).cache@.contains_key(key) ==> {
                    let done = run(
                        world.ground(),
                        start_search(
                            world.ground(),
                            tile_no(world.ground(), start.0 as int, start.1 as int),
                            tile_no(world.ground(), goal.0 as int, goal.1 as int),
                        ),
                        tile_no(world.ground(), goal.0 as int, goal.1 as int),
                        old(self).node_cap as nat,
                    );
                    &&& final(self).stats == searched_stats(old(self).stats, done)
                    &&& final(self).cache_order@ == if r is Some {
                        with_room(old(self).cache_order@, old(self).cache_capacity as nat).push(key)
                    } else {
                        old(self).cache_order@
                    }
                    &&& match r {
                        Some(p) => {
                            &&& final(self).cache@.contains_key(key)
                            &&& final(self).cache@[key]@ == p@
                            &&& final(self).cache@ == without_oldest(
                                old(self).cache@,
                                old(self).cache_order@,
                                old(self).cache_capacity as nat,
                            ).insert(key, final(self).cache@[key])
                        },
                        None => final(self).cache@ == old(self).cache@,
                    }
                }
            }),
    {
        broadcast use vstd::std_specs::hash::group_hash_axioms;

        if start.0 == goal.0 && start.1 == goal.1 {
            let none: Vec<(u32, u32)> = Vec::new();
            assert(none@ == Seq::<(u32, u32)>::empty());
            return Some(none);
        }
        if !world.in_bounds(goal.0 as i64, goal.1 as i64) {
            return None;
        }
        proof {
            lemma_tile_index(world.width, world.height, goal.0 as int, goal.1 as int);
            lemma_tile_no(world.ground(), start.0 as int, start.1 as int);
            lemma_tile_no(world.ground(), goal.0 as int, goal.1 as int);
        }
        if !world.at(goal.0, goal.1).passable() {
            return None;
        }
        let start_i = self.idx(start.0, start.1);
        let goal_i = self.idx(goal.0, goal.1);
        let key: u64 = start_i as u64 * 0x1_0000_0000 + goal_i as u64;
        assert(key == cache_key(start_i, goal_i));
        if let Some(hit) = self.cache.get(&key) {
            assert(self.cache@.contains_key(cache_key(start_i, goal_i)));
            let path = copied(hit);
            self.stats.cache_hits = self.stats.cache_hits.saturating_add(1);
            return Some(path);
        }
        let path = self.search(world, start, goal);
        let ghost searched_cache = self.cache@;
        if let Some(p) = &path {
            let kept = copied(p);
            if self.cache_order.len() >= self.cache_capacity {
                if let Some(oldest) = self.cache_order.pop_front() {
                    self.cache.remove(&oldest);
                }
            }
            self.cache.insert(key, kept);
            self.cache_order.push_back(key);
            proof {
                assert forall|s: u32, g: u32| #[trigger] self.cache@.contains_key(cache_key(s, g)) implies searched(
                    world.ground(),
                    s,
                    g,
                    self.node_cap as nat,
                ) == Some(self.cache@[cache_key(s, g)]@) by {
                    if cache_key(s, g) == key {
                        assert(s == start_i && g == goal_i);
                    } else {
                        assert(searched_cache.contains_key(cache_key(s, g)));
                    }
                }
            }
        }
        path
    }
}

/// The counts after a search that was not spared.
pub open spec fn searched_stats(before: PathStats, done: (Search, Ending)) -> PathStats {
    PathStats {
        searches: bumped(before.searches, 1),
        nodes_expanded: bumped(before.nodes_expanded, nodes_expanded_in(done)),
        capped: if done.1 == Ending::Capped {
            bumped(before.capped, 1)
        } else {
            before.capped
        },
        ..before
    }
}

/// The routes that are kept once there is room for one more: the oldest gives way.
pub open spec fn with_room(kept: Seq<u64>, capacity: nat) -> Seq<u64> {
    if kept.len() > 0 && kept.len() >= capacity {
        kept.skip(1)
    } else {
        kept
    }
}

/// The routes themselves, with the oldest gone where it gave way.
pub open spec fn without_oldest(
    cache: Map<u64, Vec<(u32, u32)>>,
    kept: Seq<u64>,
    capacity: nat,
) -> Map<u64, Vec<(u32, u32)>> {
    if kept.len() > 0 && kept.len() >= capacity {
        cache.remove(kept[0])
    } else {
        cache
    }
}

/// A count after an addition; it stops at the largest there is.
pub open spec fn bumped(n: u64, by: nat) -> u64 {
    if n + by > u64::MAX {
        u64::MAX
    } else {
        (n + by) as u64
    }
}

fn copied(path: &Vec<(u32, u32)>) -> (r: Vec<(u32, u32)>)
    ensures
        r@ == path@,
{
    let mut r: Vec<(u32, u32)> = Vec::with_capacity(path.len());
    for i in 0..path.len()
        invariant
            r@ == path@.take(i as int),
    {
        r.push(path[i]);
        assert(r@ == path@.take(i + 1));
    }
    assert(path@.take(path@.len() as int) == path@);
    r
}

/// A walk over the map: every tile one step from the one before.
pub open spec fn is_walk(w: Ground, r: Seq<u32>) -> bool {
    &&& r.len() > 0
    &&& is_tile(w, r[0])
    &&& forall|i: int| 0 < i < r.len() ==> #[trigger] linked(w, r[i - 1], r[i])
}

/// What a walk costs.
pub open spec fn walk_cost(w: Ground, r: Seq<u32>) -> nat
    decreases r.len(),
{
    if r.len() <= 1 {
        0
    } else {
        walk_cost(w, r.drop_last()) + link_cost(w, r[r.len() - 2], r.last()) as nat
    }
}

/// The walk that a route describes, its start included.
pub open spec fn walk_of(w: Ground, start: u32, route: Seq<(u32, u32)>) -> Seq<u32> {
    seq![start] + Seq::new(route.len(), |i: int| tile_no(w, route[i].0 as int, route[i].1 as int))
}

/// Every neighbour of a tile is known at no more than the cost through it.
pub open spec fn is_settled(w: Ground, best: Map<u32, Reach>, u: u32) -> bool {
    forall|v: u32| #[trigger]
        linked(w, u, v) ==> best.contains_key(v) && best[v].g <= best[u].g + link_cost(w, u, v)
}

pub open spec fn entry_of(w: Ground, best: Map<u32, Reach>, u: u32, goal: u32) -> Open {
    Open { f: (best[u].g + estimate(w, u, goal)) as u64, idx: u }
}

/// Every known tile but one is still open at its present cost, or settled; the
/// goal is never settled.
pub open spec fn is_frontier(w: Ground, st: Search, goal: u32, but: Option<u32>) -> bool {
    forall|u: u32| #[trigger]
        st.best.contains_key(u) && Some(u) != but ==> st.open.contains(entry_of(w, st.best, u, goal)) || (u != goal
            && is_settled(w, st.best, u))
}

proof fn lemma_tried_frontier(w: Ground, st: Search, i: u32, start: u32, goal: u32, k: int)
    requires
        is_map(w),
        0 <= k <= 8,
        search_inv(w, st, start, goal),
        st.best.contains_key(i),
        st.best[i].g + 796 <= 800 * st.expanded,
        st.expanded <= 0x1_0000_0000,
        is_frontier(w, st, goal, Some(i)),
    ensures
        is_frontier(w, tried(w, st, i, goal, k), goal, Some(i)),
        forall|j: int|
            0 <= j < k ==> (#[trigger] neighbour(w, i, j) matches Some(v) ==> tried(
                w,
                st,
                i,
                goal,
                k,
            ).best.contains_key(v) && tried(w, st, i, goal, k).best[v].g <= st.best[i].g + link_cost(w, i, v)),
    decreases k,
{
    if k > 0 {
        lemma_tried_frontier(w, st, i, start, goal, k - 1);
        lemma_tried_inv(w, st, i, start, goal, k - 1);
        lemma_tried_inv(w, st, i, start, goal, k);
        lemma_neighbour(w, i, k - 1);
        let before = tried(w, st, i, goal, k - 1);
        let after = tried(w, st, i, goal, k);
        if let Some(v) = neighbour(w, i, k - 1) {
            lemma_link_cost(w, i, v);
            let g = (st.best[i].g + link_cost(w, i, v)) as u64;
            if improves(before.best, v, g) {
                assert forall|u: u32| #[trigger] after.best.contains_key(u) && Some(u) != Some(i) implies after.open.contains(
                    entry_of(w, after.best, u, goal),
                ) || (u != goal && is_settled(w, after.best, u)) by {
                    if u != v {
                        assert(before.best.contains_key(u));
                        if !before.open.contains(entry_of(w, before.best, u, goal)) {
                            assert(is_settled(w, before.best, u));
                            assert forall|x: u32| #[trigger] linked(w, u, x) implies after.best.contains_key(x)
                                && after.best[x].g <= after.best[u].g + link_cost(w, u, x) by {}
                        }
                    }
                }
            }
        }
    }
}

proof fn lemma_expanded_frontier(w: Ground, st: Search, i: u32, start: u32, goal: u32)
    requires
        is_map(w),
        search_inv(w, st, start, goal),
        st.best.contains_key(i),
        st.expanded < 0x1_0000_0000,
        i != goal,
        is_frontier(w, st, goal, Some(i)),
    ensures
        is_frontier(w, expanded(w, st, i, goal), goal, None),
{
    let h = estimate(w, i, goal);
    let next = Search {
        expanded: st.expanded + 1,
        closest: if h < st.closest.1 {
            (i, h)
        } else {
            st.closest
        },
        ..st
    };
    assert(search_inv(w, next, start, goal));
    assert(is_frontier(w, next, goal, Some(i)));
    lemma_tried_frontier(w, next, i, start, goal, 8);
    lemma_tried_inv(w, next, i, start, goal, 8);
    let after = tried(w, next, i, goal, 8);
    assert(is_settled(w, after.best, i)) by {
        assert forall|v: u32| #[trigger] linked(w, i, v) implies after.best.contains_key(v) && after.best[v].g
            <= after.best[i].g + link_cost(w, i, v) by {
            let k = lemma_direction(w, i, v);
            assert(neighbour(w, i, k) == Some(v));
        }
    }
}

/// Along any walk from the start, either the last tile is known at no more than
/// the cost of the walk, or some tile before it is open at no more than the cost
/// up to it.
proof fn lemma_walk_meets_frontier(w: Ground, st: Search, start: u32, goal: u32, r: Seq<u32>) -> (j: int)
    requires
        is_map(w),
        search_inv(w, st, start, goal),
        is_frontier(w, st, goal, None),
        is_walk(w, r),
        r[0] == start,
        forall|i: int| 0 <= i < r.len() - 1 ==> #[trigger] r[i] != goal,
    ensures
        0 <= j < r.len(),
        st.best.contains_key(r[j]),
        st.best[r[j]].g <= walk_cost(w, r.take(j + 1)),
        j < r.len() - 1 ==> st.open.contains(entry_of(w, st.best, r[j], goal)),
    decreases r.len(),
{
    if r.len() == 1 {
        assert(r.take(1) == r);
        0
    } else {
        let shorter = r.drop_last();
        assert forall|i: int| 0 < i < shorter.len() implies #[trigger] linked(w, shorter[i - 1], shorter[i]) by {
            assert(linked(w, r[i - 1], r[i]));
        }
        assert forall|i: int| 0 <= i < shorter.len() - 1 implies #[trigger] shorter[i] != goal by {
            assert(r[i] != goal);
        }
        let j = lemma_walk_meets_frontier(w, st, start, goal, shorter);
        assert(shorter.take(j + 1) == r.take(j + 1));
        assert(shorter[j] == r[j]);
        if j < shorter.len() - 1 {
            j
        } else {
            let prev = r[r.len() - 2];
            assert(prev == shorter[j]);
            assert(st.best.contains_key(prev));
            if st.open.contains(entry_of(w, st.best, prev, goal)) {
                j
            } else {
                let last = r[r.len() - 1];
                assert(linked(w, r[r.len() - 1 - 1], r[r.len() - 1]));
                assert(is_settled(w, st.best, prev));
                assert(linked(w, prev, last));
                assert(r.take(r.len() as int) == r);
                assert(r.take(j + 1) == shorter);
                r.len() - 1
            }
        }
    }
}

/// The estimate never overestimates a step.
proof fn lemma_estimate_is_consistent(w: Ground, a: u32, b: u32, goal: u32)
    requires
        is_map(w),
        linked(w, a, b),
        is_tile(w, goal),
    ensures
        estimate(w, a, goal) <= link_cost(w, a, b) + estimate(w, b, goal),
{
    lemma_estimate_bound(w, a, goal);
    lemma_estimate_bound(w, b, goal);
    lemma_link_cost(w, a, b);
}

/// What is left of a walk costs at least the estimate.
proof fn lemma_estimate_along(w: Ground, r: Seq<u32>, j: int, goal: u32)
    requires
        is_map(w),
        is_walk(w, r),
        is_tile(w, goal),
        0 <= j < r.len(),
    ensures
        walk_cost(w, r.take(j + 1)) + estimate(w, r[j], goal) <= walk_cost(w, r) + estimate(w, r.last(), goal),
    decreases r.len(),
{
    if j == r.len() - 1 {
        assert(r.take(j + 1) == r);
    } else {
        let shorter = r.drop_last();
        assert forall|i: int| 0 < i < shorter.len() implies #[trigger] linked(w, shorter[i - 1], shorter[i]) by {
            assert(linked(w, r[i - 1], r[i]));
        }
        lemma_estimate_along(w, shorter, j, goal);
        assert(shorter.take(j + 1) == r.take(j + 1));
        let last = r.len() - 1;
        assert(linked(w, r[last - 1], r[last]));
        lemma_estimate_is_consistent(w, r[last - 1], r[last], goal);
    }
}

/// The first arrival at the goal along a walk costs no more than the walk.
proof fn lemma_first_arrival(w: Ground, r: Seq<u32>, goal: u32) -> (s: Seq<u32>)
    requires
        is_walk(w, r),
        r.last() == goal,
    ensures
        is_walk(w, s),
        s[0] == r[0],
        s.last() == goal,
        walk_cost(w, s) <= walk_cost(w, r),
        forall|i: int| 0 <= i < s.len() - 1 ==> #[trigger] s[i] != goal,
    decreases r.len(),
{
    let shorter = r.drop_last();
    if exists|i: int| 0 <= i < r.len() - 1 && #[trigger] r[i] == goal {
        let i = choose|i: int| 0 <= i < r.len() - 1 && #[trigger] r[i] == goal;
        let t = r.take(i + 1);
        assert forall|k: int| 0 < k < t.len() implies #[trigger] linked(w, t[k - 1], t[k]) by {
            assert(linked(w, r[k - 1], r[k]));
        }
        lemma_prefix_costs_less(w, r, i + 1);
        lemma_first_arrival(w, t, goal)
    } else {
        r
    }
}

proof fn lemma_prefix_costs_less(w: Ground, r: Seq<u32>, n: int)
    requires
        1 <= n <= r.len(),
    ensures
        walk_cost(w, r.take(n)) <= walk_cost(w, r),
    decreases r.len(),
{
    if n == r.len() {
        assert(r.take(n) == r);
    } else {
        lemma_prefix_costs_less(w, r.drop_last(), n);
        assert(r.drop_last().take(n) == r.take(n));
    }
}

/// How a run ends, told of every walk to the goal.
proof fn lemma_run_is_right(w: Ground, st: Search, start: u32, goal: u32, cap: nat, r: Seq<u32>)
    requires
        is_map(w),
        search_inv(w, st, start, goal),
        is_frontier(w, st, goal, None),
        cap <= 0x1_0000_0000,
        is_walk(w, r),
        r[0] == start,
        r.last() == goal,
        start != goal,
        forall|i: int| 0 <= i < r.len() - 1 ==> #[trigger] r[i] != goal,
    ensures
        run(w, st, goal, cap).1 != Ending::Exhausted,
        run(w, st, goal, cap).1 == Ending::Found ==> run(w, st, goal, cap).0.best[goal].g <= walk_cost(w, r),
    decreases cap + 1 - st.expanded,
{
    let j = lemma_walk_meets_frontier(w, st, start, goal, r);
    if exists|e: Open| is_least(st.open, e) {
        let e = least_of(st.open);
        assert(is_least(st.open, e));
        let rest = Search { open: st.open.remove(e), ..st };
        assert(search_inv(w, rest, start, goal));
        if e.idx == goal {
            if j < r.len() - 1 {
                let mine = entry_of(w, st.best, r[j], goal);
                lemma_estimate_along(w, r, j, goal);
                lemma_estimate_bound(w, goal, goal);
                assert(estimate(w, goal, goal) == 0);
                assert(st.open.contains(mine));
                assert(!precedes(mine, e));
            } else {
                assert(r.take(j + 1) == r);
            }
        } else if st.expanded + 1 <= cap {
            assert(is_frontier(w, rest, goal, Some(e.idx))) by {
                assert forall|u: u32| #[trigger] rest.best.contains_key(u) && Some(u) != Some(e.idx) implies rest.open.contains(
                    entry_of(w, rest.best, u, goal),
                ) || (u != goal && is_settled(w, rest.best, u)) by {
                    assert(st.best.contains_key(u));
                }
            }
            lemma_expanded_count(w, rest, e.idx, goal);
            lemma_expanded_inv(w, rest, e.idx, start, goal);
            lemma_expanded_frontier(w, rest, e.idx, start, goal);
            lemma_run_is_right(w, expanded(w, rest, e.idx, goal), start, goal, cap, r);
        }
    } else {
        // An open entry or the goal itself, which is never settled, is in the open set.
        assert(st.best.contains_key(r[j]));
        let mine = entry_of(w, st.best, r[j], goal);
        if j == r.len() - 1 {
            assert(st.open.contains(mine));
        }
        assert(st.open.contains(mine));
        lemma_bounded_set_has_least(st.open, mine);
    }
}

/// A set of entries that has a member has a least one.
proof fn lemma_bounded_set_has_least(open: Set<Open>, e: Open) -> (l: Open)
    requires
        open.contains(e),
    ensures
        is_least(open, l),
    decreases e.f, e.idx,
{
    if exists|x: Open| open.contains(x) && precedes(x, e) {
        let x = choose|x: Open| open.contains(x) && precedes(x, e);
        lemma_bounded_set_has_least(open, x)
    } else {
        assert forall|x: Open| open.contains(x) implies !#[trigger] precedes(x, e) by {}
        e
    }
}

/// The trace of a known tile is a walk from the start to it, at no more than its
/// known cost.
proof fn lemma_trace(w: Ground, st: Search, start: u32, goal: u32, end: u32)
    requires
        is_map(w),
        search_inv(w, st, start, goal),
        st.best.contains_key(end),
    ensures
        is_walk(w, walk_of(w, start, trace(w, st.best, start, end))),
        walk_of(w, start, trace(w, st.best, start, end)).last() == end,
        walk_cost(w, walk_of(w, start, trace(w, st.best, start, end))) <= st.best[end].g,
    decreases st.best[end].g,
{
    let t = trace(w, st.best, start, end);
    let walk = walk_of(w, start, t);
    if end != start {
        let from = st.best[end].from;
        assert(st.best.contains_key(from));
        lemma_link_cost(w, from, end);
        lemma_trace(w, st, start, goal, from);
        let head = trace(w, st.best, start, from);
        let before = walk_of(w, start, head);
        assert(t == head.push(place_of(w, end)));
        lemma_place(w, end);
        assert(walk == before.push(end)) by {
            assert(walk.len() == before.len() + 1);
            assert forall|i: int| 0 <= i < walk.len() implies walk[i] == before.push(end)[i] by {
                if 0 < i < before.len() {
                    assert(t[i - 1] == head[i - 1]);
                }
            }
        }
        assert(walk.drop_last() == before);
        assert forall|i: int| 0 < i < walk.len() implies #[trigger] linked(w, walk[i - 1], walk[i]) by {
            if i < before.len() {
                assert(linked(w, before[i - 1], before[i]));
            }
        }
    }
}

/// A route that is found can be walked: from the start, one step after the
/// other, over nothing but what can be entered and without cutting a corner of
/// deep water. If the search was not cut short it ends at the goal.
pub proof fn law_routes_can_be_walked(w: Ground, start: u32, goal: u32, cap: nat)
    requires
        is_map(w),
        is_tile(w, start),
        is_tile(w, goal),
        cap <= 0x1_0000_0000,
    ensures
        searched(w, start, goal, cap) matches Some(route) ==> {
            let done = run(w, start_search(w, start, goal), goal, cap);
            &&& is_walk(w, walk_of(w, start, route))
            &&& done.1 == Ending::Found ==> walk_of(w, start, route).last() == goal
            &&& done.1 != Ending::Found ==> done.1 == Ending::Capped && walk_of(w, start, route).last()
                == done.0.closest.0
        },
{
    let first = start_search(w, start, goal);
    lemma_start_inv(w, start, goal);
    lemma_run_inv(w, first, start, goal, cap);
    let done = run(w, first, goal, cap);
    if let Some(end) = end_of(done, start, goal) {
        lemma_trace(w, done.0, start, goal, end);
    }
}

/// A route that reaches the goal is cheapest: no walk from the start to the goal
/// costs less.
pub proof fn law_routes_are_cheapest(w: Ground, start: u32, goal: u32, cap: nat, r: Seq<u32>)
    requires
        is_map(w),
        is_tile(w, start),
        is_tile(w, goal),
        start != goal,
        cap <= 0x1_0000_0000,
        run(w, start_search(w, start, goal), goal, cap).1 == Ending::Found,
        is_walk(w, r),
        r[0] == start,
        r.last() == goal,
    ensures
        searched(w, start, goal, cap) matches Some(route) && walk_cost(w, walk_of(w, start, route)) <= walk_cost(w, r),
{
    let first = start_search(w, start, goal);
    lemma_start_inv(w, start, goal);
    lemma_run_inv(w, first, start, goal, cap);
    let done = run(w, first, goal, cap);
    lemma_trace(w, done.0, start, goal, goal);
    let s = lemma_first_arrival(w, r, goal);
    lemma_estimate_bound(w, start, goal);
    assert(is_frontier(w, first, goal, None)) by {
        assert forall|u: u32| #[trigger] first.best.contains_key(u) && Some(u) != None::<u32> implies first.open.contains(
            entry_of(w, first.best, u, goal),
        ) || (u != goal && is_settled(w, first.best, u)) by {
            assert(entry_of(w, first.best, start, goal) == (Open { f: estimate(w, start, goal), idx: start }));
        }
    }
    lemma_run_is_right(w, first, start, goal, cap, s);
}

/// A search that runs out of map has shown that no walk leads to the goal.
pub proof fn law_exhausted_means_unreachable(w: Ground, start: u32, goal: u32, cap: nat, r: Seq<u32>)
    requires
        is_map(w),
        is_tile(w, start),
        is_tile(w, goal),
        start != goal,
        cap <= 0x1_0000_0000,
        run(w, start_search(w, start, goal), goal, cap).1 == Ending::Exhausted,
        is_walk(w, r),
        r[0] == start,
    ensures
        r.last() != goal,
{
    if r.last() == goal {
        let first = start_search(w, start, goal);
        lemma_start_inv(w, start, goal);
        let s = lemma_first_arrival(w, r, goal);
        lemma_estimate_bound(w, start, goal);
        assert(is_frontier(w, first, goal, None)) by {
            assert forall|u: u32| #[trigger] first.best.contains_key(u) && Some(u) != None::<u32> implies first.open.contains(
                entry_of(w, first.best, u, goal),
            ) || (u != goal && is_settled(w, first.best, u)) by {
                assert(entry_of(w, first.best, start, goal) == (Open { f: estimate(w, start, goal), idx: start }));
            }
        }
        lemma_run_is_right(w, first, start, goal, cap, s);
    }
}

/// Every tile of a path lies on the map.
pub open spec fn path_inside(w: Ground, path: Seq<(u32, u32)>) -> bool {
    forall|i: int| 0 <= i < path.len() ==> w.inside((#[trigger] path[i]).0 as int, path[i].1 as int)
}

proof fn lemma_trace_inside(w: Ground, best: Map<u32, Reach>, start: u32, end: u32)
    requires
        is_map(w),
        forall|v: u32| #[trigger] best.contains_key(v) ==> is_tile(w, v),
    ensures
        path_inside(w, trace(w, best, start, end)),
    decreases best[end].g,
{
    if end == start || !best.contains_key(end) || !best.contains_key(best[end].from) || best[best[end].from].g
        >= best[end].g {
    } else {
        lemma_trace_inside(w, best, start, best[end].from);
        lemma_place(w, end);
    }
}

/// A route stays on the map.
pub proof fn lemma_route_inside(w: Ground, start: (u32, u32), goal: (u32, u32), cap: nat)
    requires
        is_map(w),
        w.inside(start.0 as int, start.1 as int),
        cap <= 0x1_0000_0000,
    ensures
        route_of(w, start, goal, cap) matches Some(route) ==> path_inside(w, route),
{
    if start != goal && w.inside(goal.0 as int, goal.1 as int) {
        let (a, b) = (tile_no(w, start.0 as int, start.1 as int), tile_no(w, goal.0 as int, goal.1 as int));
        lemma_tile_no(w, start.0 as int, start.1 as int);
        lemma_tile_no(w, goal.0 as int, goal.1 as int);
        let first = start_search(w, a, b);
        lemma_start_inv(w, a, b);
        lemma_run_inv(w, first, a, b, cap);
        let done = run(w, first, b, cap);
        if let Some(end) = end_of(done, a, b) {
            lemma_trace_inside(w, done.0.best, a, end);
        }
    }
}

/// A step is to a neighbouring tile that can be stood on, and corners are not cut:
/// slantwise, both tiles beside the way must be passable too. Where one can step and
/// stood on passable ground, one can step back.
pub proof fn law_a_step_can_be_taken_back(w: Ground, x: int, y: int, nx: int, ny: int)
    requires
        can_step(w, x, y, nx, ny),
    ensures
        w.inside(nx, ny) && w.tile(nx, ny) != Terrain::DeepWater,
        -1 <= nx - x <= 1 && -1 <= ny - y <= 1 && (nx, ny) != (x, y),
        nx != x && ny != y ==> w.tile(x, ny) != Terrain::DeepWater && w.tile(nx, y) != Terrain::DeepWater,
        w.tile(x, y) != Terrain::DeepWater ==> can_step(w, nx, ny, x, y),
{
}

/// What a step costs goes by the ground it leads to: least on grass and soil, then
/// sand, then forest and hill, most in the shallows; and slantwise more.
pub proof fn law_what_a_step_costs(t: Terrain)
    requires
        t.passable(),
    ensures
        step_cost(Terrain::Grass, false) == 256 && step_cost(Terrain::Soil, false) == 256,
        step_cost(Terrain::Grass, true) == 362,
        step_cost(Terrain::Grass, false) < step_cost(Terrain::Sand, false),
        step_cost(Terrain::Sand, false) < step_cost(Terrain::Forest, false),
        step_cost(Terrain::Forest, false) == step_cost(Terrain::Hill, false),
        step_cost(Terrain::Hill, false) < step_cost(Terrain::ShallowWater, false),
        step_cost(t, false) < step_cost(t, true),
{
    lemma_base_costs();
}

/// Nothing else hinders a step: to a neighbouring tile of the map that is not deep
/// water one can always go, straight, or slantwise past two tiles that are not deep
/// water either.
pub proof fn law_nothing_else_hinders_a_step(w: Ground, x: int, y: int, nx: int, ny: int)
    requires
        w.inside(x, y),
        w.inside(nx, ny),
        -1 <= nx - x <= 1,
        -1 <= ny - y <= 1,
        (nx, ny) != (x, y),
        w.tile(nx, ny) != Terrain::DeepWater,
    ensures
        nx == x || ny == y ==> can_step(w, x, y, nx, ny),
        w.tile(x, ny) != Terrain::DeepWater && w.tile(nx, y) != Terrain::DeepWater ==> can_step(w, x, y, nx, ny),
{
}

/// Of the routes kept, the one kept longest is given up, and only where there is no
/// room for another; all the others stay, in their order.
pub proof fn law_the_oldest_route_gives_way(
    cache: Map<u64, Vec<(u32, u32)>>,
    kept: Seq<u64>,
    capacity: nat,
    key: u64,
)
    ensures
        kept.len() < capacity ==> with_room(kept, capacity) == kept && without_oldest(cache, kept, capacity) == cache,
        kept.len() >= capacity && kept.len() > 0 ==> seq![kept[0]] + with_room(kept, capacity) == kept
            && !without_oldest(cache, kept, capacity).contains_key(kept[0]),
        kept.len() == 0 || key != kept[0] ==> {
            &&& without_oldest(cache, kept, capacity).contains_key(key) == cache.contains_key(key)
            &&& cache.contains_key(key) ==> without_oldest(cache, kept, capacity)[key] == cache[key]
        },
        0 < capacity && kept.len() <= capacity ==> with_room(kept, capacity).push(key).len() <= capacity,
{
    if kept.len() > 0 {
        assert(seq![kept[0]] + kept.skip(1) =~= kept);
    }
}

/// A search is counted once, with every tile it looked at, and as given up exactly if
/// it was; it is no hit and changes no other count.
pub proof fn law_a_search_is_counted_once(before: PathStats, done: (Search, Ending))
    requires
        before.searches < u64::MAX,
        before.capped < u64::MAX,
        before.nodes_expanded + nodes_expanded_in(done) <= u64::MAX,
    ensures
        ({
            let after = searched_stats(before, done);
            &&& after.searches == before.searches + 1
            &&& after.nodes_expanded == before.nodes_expanded + nodes_expanded_in(done)
            &&& after.capped - before.capped == (if done.1 == Ending::Capped {
                1int
            } else {
                0int
            })
            &&& after.cache_hits == before.cache_hits
        }),
{
}

} // verus!
