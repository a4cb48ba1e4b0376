//! A coarse grid over the map: which of a list of things stand near a tile.

use crate::flood::lemma_back;
use crate::lists::{ascending, insert_ascending, lemma_those_below, lemma_those_below_hold, those_below};
use crate::world::{groups, lemma_group_of, lemma_tile_index, lemma_tile_index_injective, tile_index};
use vstd::prelude::*;

verus! {

pub open spec fn least(a: int, b: int) -> int {
    if a < b {
        a
    } else {
        b
    }
}

/// Cells of a fixed size, each listing by number what stands in it.
pub struct Grid {
    pub cell: u32,
    pub cols: u32,
    pub rows: u32,
    pub cells: Vec<Vec<u32>>,
}

/// A grid with its cells as sequences.
#[verifier::ext_equal]
pub struct GridV {
    pub cell: u32,
    pub cols: u32,
    pub rows: u32,
    pub cells: Seq<Seq<u32>>,
}

impl View for Grid {
    type V = GridV;

    open spec fn view(&self) -> GridV {
        GridV {
            cell: self.cell,
            cols: self.cols,
            rows: self.rows,
            cells: Seq::new(self.cells@.len(), |c: int| self.cells@[c]@),
        }
    }
}

/// Whether the square of a radius round a tile touches a cell of a grid.
pub open spec fn touches(cell: u32, cols: u32, rows: u32, x: u32, y: u32, radius: u32, cx: int, cy: int) -> bool {
    let x0 = if x < radius {
        0
    } else {
        (x - radius) / cell as int
    };
    let y0 = if y < radius {
        0
    } else {
        (y - radius) / cell as int
    };
    &&& x0 <= cx <= least((x + radius) / cell as int, cols - 1)
    &&& y0 <= cy <= least((y + radius) / cell as int, rows - 1)
}

/// The number of the cell a tile falls in; what lies past the edge counts to the
/// last one.
pub open spec fn cell_number(cell: u32, cols: u32, rows: u32, x: u32, y: u32) -> int {
    tile_index(cols, least(x as int / cell as int, cols - 1), least(y as int / cell as int, rows - 1))
}

impl GridV {
    pub open spec fn lists(self, cx: int, cy: int, i: u32) -> bool {
        0 <= cx < self.cols && 0 <= cy < self.rows && self.cells[tile_index(self.cols, cx, cy)].contains(i)
    }

    /// Whether some cell that the square of a radius touches lists a number.
    pub open spec fn within_reach(self, x: u32, y: u32, radius: u32, i: u32) -> bool {
        exists|cx: int, cy: int|
            touches(self.cell, self.cols, self.rows, x, y, radius, cx, cy) && #[trigger] self.lists(cx, cy, i)
    }
}

/// The grid of some things, each of which has a place or is left out.
pub open spec fn grid_over(cell: u32, cols: u32, rows: u32, places: Seq<Option<(u32, u32)>>) -> GridV {
    GridV {
        cell,
        cols,
        rows,
        cells: Seq::new(
            (cols * rows) as nat,
            |c: int| those_below(places.len() as int, placed_in(cell, cols, rows, places, c)),
        ),
    }
}

/// The grid over a map.
pub open spec fn map_grid(width: u32, height: u32, cell: u32, places: Seq<Option<(u32, u32)>>) -> GridV {
    grid_over(cell, groups(width, cell) as u32, groups(height, cell) as u32, places)
}

pub open spec fn placed_in(
    cell: u32,
    cols: u32,
    rows: u32,
    places: Seq<Option<(u32, u32)>>,
    c: int,
) -> spec_fn(u32) -> bool {
    |i: u32|
        places[i as int] is Some && cell_number(
            cell,
            cols,
            rows,
            places[i as int]->Some_0.0,
            places[i as int]->Some_0.1,
        ) == c
}

impl Grid {
    /// One list per cell, each ascending.
    pub open spec fn wf(&self) -> bool {
        &&& self.cell > 0
        &&& self.cols > 0
        &&& self.rows > 0
        &&& self.cells@.len() == self.cols * self.rows
        &&& forall|c: int| 0 <= c < self.cells@.len() ==> ascending(#[trigger] self.cells@[c]@)
    }

    pub open spec fn same_shape(&self, other: &Grid) -> bool {
        self.cell == other.cell && self.cols == other.cols && self.rows == other.rows
    }

    pub open spec fn spans(&self, width: u32, height: u32, cell: u32) -> bool {
        self.cell == cell && self.cols == groups(width, cell) && self.rows == groups(height, cell)
    }

    /// Whether a tile falls in a cell; what lies past the edge counts to the
    /// last one.
    pub open spec fn falls_in(&self, x: u32, y: u32, cx: int, cy: int) -> bool {
        &&& cx == least(x as int / self.cell as int, self.cols - 1)
        &&& cy == least(y as int / self.cell as int, self.rows - 1)
    }

    /// Whether a cell of the grid lists a number.
    pub open spec fn lists(&self, cx: int, cy: int, i: u32) -> bool {
        0 <= cx < self.cols && 0 <= cy < self.rows && self.cells@[tile_index(self.cols, cx, cy)]@.contains(i)
    }

    pub open spec fn all_below(&self, n: int) -> bool {
        forall|cx: int, cy: int, i: u32| #[trigger] self.lists(cx, cy, i) ==> i < n
    }

    /// What the cell of a tile lists.
    pub open spec fn listed_with(&self, x: u32, y: u32) -> Seq<u32> {
        self.cells@[tile_index(
            self.cols,
            least(x as int / self.cell as int, self.cols - 1),
            least(y as int / self.cell as int, self.rows - 1),
        )]@
    }

    /// Whether the square of a radius round a tile touches a cell.
    pub open spec fn reaches(&self, x: u32, y: u32, radius: u32, cx: int, cy: int) -> bool {
        touches(self.cell, self.cols, self.rows, x, y, radius, cx, cy)
    }

    /// Whether some cell that the square touches lists a number.
    pub open spec fn within_reach(&self, x: u32, y: u32, radius: u32, i: u32) -> bool {
        exists|cx: int, cy: int| self.reaches(x, y, radius, cx, cy) && #[trigger] self.lists(cx, cy, i)
    }

    /// What is within reach is so by the view as well.
    pub proof fn lemma_reach(&self, x: u32, y: u32, radius: u32, i: u32)
        requires
            self.wf(),
        ensures
            self@.within_reach(x, y, radius, i) == self.within_reach(x, y, radius, i),
    {
        assert forall|cx: int, cy: int| #[trigger] self.lists(cx, cy, i) == self@.lists(cx, cy, i) by {
            if 0 <= cx < self.cols && 0 <= cy < self.rows {
                lemma_tile_index(self.cols, self.rows, cx, cy);
            }
        }
        if self.within_reach(x, y, radius, i) {
            let (a, b) = choose|a: int, b: int| self.reaches(x, y, radius, a, b) && #[trigger] self.lists(a, b, i);
            assert(self@.lists(a, b, i));
        }
        if self@.within_reach(x, y, radius, i) {
            let (a, b) = choose|a: int, b: int|
                touches(self.cell, self.cols, self.rows, x, y, radius, a, b) && #[trigger] self@.lists(a, b, i);
            assert(self.lists(a, b, i) == self@.lists(a, b, i));
            assert(self.reaches(x, y, radius, a, b));
        }
    }

    /// A grid is settled by where the things stand that it lists.
    pub proof fn lemma_grid_over(&self, places: Seq<Option<(u32, u32)>>)
        requires
            self.wf(),
            places.len() <= u32::MAX,
            forall|cx: int, cy: int, i: u32| #[trigger]
                self.lists(cx, cy, i) <==> i < places.len() && places[i as int] is Some && self.falls_in(
                    places[i as int]->Some_0.0,
                    places[i as int]->Some_0.1,
                    cx,
                    cy,
                ),
        ensures
            self@ == grid_over(self.cell, self.cols, self.rows, places),
    {
        let (cell, cols, rows) = (self.cell, self.cols, self.rows);
        let whole = grid_over(cell, cols, rows, places);
        assert(self.cells@.len() == cols * rows);
        assert forall|c: int| 0 <= c < cols * rows implies #[trigger] self@.cells[c] == whole.cells[c] by {
            let listed = self.cells@[c]@;
            let p = placed_in(cell, cols, rows, places, c);
            lemma_back(cols as int, rows as int, c);
            let (cx, cy) = (c % cols as int, c / cols as int);
            assert(tile_index(cols, cx, cy) == c);
            assert forall|i: u32| #[trigger] listed.contains(i) <==> i < places.len() && p(i) by {
                assert(listed.contains(i) <==> self.lists(cx, cy, i));
                if i < places.len() && places[i as int] is Some {
                    let (x, y) = places[i as int]->Some_0;
                    lemma_quotient(x, cell);
                    lemma_quotient(y, cell);
                    let (qx, qy) = (least(x as int / cell as int, cols - 1), least(y as int / cell as int, rows - 1));
                    if p(i) {
                        lemma_tile_index_injective(cols, qx, qy, cx, cy);
                    }
                    assert(p(i) <==> self.falls_in(x, y, cx, cy));
                }
            }
            lemma_those_below(listed, places.len() as int, p);
        }
        assert(self@.cells =~= whole.cells);
    }

    pub proof fn lemma_within_reach_below(&self, x: u32, y: u32, radius: u32, i: u32, n: int)
        requires
            self.within_reach(x, y, radius, i),
            self.all_below(n),
        ensures
            i < n,
    {
        let (a, b) = choose|a: int, b: int| self.reaches(x, y, radius, a, b) && #[trigger] self.lists(a, b, i);
        assert(self.lists(a, b, i));
    }

    pub proof fn lemma_listed_with(&self, x: u32, y: u32, k: int)
        requires
            self.wf(),
            0 <= k < self.listed_with(x, y).len(),
        ensures
            self.lists(
                least(x as int / self.cell as int, self.cols - 1),
                least(y as int / self.cell as int, self.rows - 1),
                self.listed_with(x, y)[k],
            ),
    {
        lemma_quotient(x, self.cell);
        lemma_quotient(y, self.cell);
    }

    /// From a tile of the grid, the cell of anything in the square of the radius
    /// is reached.
    pub proof fn lemma_square_is_reached(&self, ax: u32, ay: u32, x: u32, y: u32, radius: u32) -> (c: (int, int))
        requires
            self.wf(),
            x / self.cell < self.cols,
            y / self.cell < self.rows,
            x - radius <= ax <= x + radius,
            y - radius <= ay <= y + radius,
        ensures
            self.reaches(x, y, radius, c.0, c.1),
            self.falls_in(ax, ay, c.0, c.1),
    {
        lemma_square_is_touched(self.cell, self.cols, self.rows, ax, ay, x, y, radius)
    }

    pub fn new(width: u32, height: u32, cell: u32) -> (r: Self)
        requires
            cell > 0,
            width > 0,
            height > 0,
            groups(width, cell) * groups(height, cell) <= u32::MAX,
        ensures
            r.wf(),
            r.spans(width, height, cell),
            forall|cx: int, cy: int, i: u32| !#[trigger] r.lists(cx, cy, i),
    {
        let cols = cells_across(width, cell);
        let rows = cells_across(height, cell);
        let total: u32 = cols * rows;
        let mut cells: Vec<Vec<u32>> = Vec::new();
        for i in 0..total
            invariant
                cells@.len() == i,
                forall|k: int| 0 <= k < i ==> #[trigger] cells@[k]@.len() == 0,
        {
            cells.push(Vec::new());
        }
        let r = Grid { cell, cols, rows, cells };
        proof {
            assert forall|cx: int, cy: int, i: u32| !#[trigger] r.lists(cx, cy, i) by {
                if 0 <= cx < r.cols && 0 <= cy < r.rows {
                    lemma_tile_index(r.cols, r.rows, cx, cy);
                }
            }
        }
        r
    }

    pub fn clear(&mut self)
        requires
            old(self).wf(),
        ensures
            final(self).wf(),
            final(self).same_shape(old(self)),
            forall|cx: int, cy: int, i: u32| !#[trigger] final(self).lists(cx, cy, i),
    {
        let total = self.cells.len();
        let mut fresh: Vec<Vec<u32>> = Vec::new();
        for c in 0..total
            invariant
                fresh@.len() == c,
                forall|k: int| 0 <= k < c ==> #[trigger] fresh@[k]@.len() == 0,
        {
            fresh.push(Vec::new());
        }
        self.cells = fresh;
        proof {
            assert forall|cx: int, cy: int, i: u32| !#[trigger] self.lists(cx, cy, i) by {
                if 0 <= cx < self.cols && 0 <= cy < self.rows {
                    lemma_tile_index(self.cols, self.rows, cx, cy);
                }
            }
        }
    }

    fn cell_at(&self, x: u32, y: u32) -> (c: usize)
        requires
            self.wf(),
        ensures
            c == tile_index(
                self.cols,
                least(x as int / self.cell as int, self.cols - 1),
                least(y as int / self.cell as int, self.rows - 1),
            ),
            c < self.cells@.len(),
    {
        let qx = x / self.cell;
        let qy = y / self.cell;
        let cx = if qx < self.cols - 1 {
            qx
        } else {
            self.cols - 1
        };
        let cy = if qy < self.rows - 1 {
            qy
        } else {
            self.rows - 1
        };
        proof {
            lemma_tile_index(self.cols, self.rows, cx as int, cy as int);
            assert(self.cells@.len() == self.cells.len());
            assert(0 <= cy * self.cols) by (nonlinear_arith)
                requires
                    cy >= 0,
                    self.cols >= 0,
            ;
        }
        cy as usize * self.cols as usize + cx as usize
    }

    /// The list of the cell a tile falls in.
    pub fn cell_with(&self, x: u32, y: u32) -> (r: &Vec<u32>)
        requires
            self.wf(),
        ensures
            r@ == self.listed_with(x, y),
    {
        &self.cells[self.cell_at(x, y)]
    }

    /// Lists a number, larger than any so far, in the cell of a tile.
    pub fn put(&mut self, x: u32, y: u32, i: u32)
        requires
            old(self).wf(),
            old(self).all_below(i as int),
        ensures
            final(self).wf(),
            final(self).same_shape(old(self)),
            final(self).all_below(i + 1),
            forall|cx: int, cy: int, j: u32| #[trigger]
                final(self).lists(cx, cy, j) <==> old(self).lists(cx, cy, j) || (j == i && old(self).falls_in(
                    x,
                    y,
                    cx,
                    cy,
                )),
    {
        let at = self.cell_at(x, y);
        let ghost before = *self;
        let ghost listed = self.cells@[at as int]@;
        let ghost cx0 = least(x as int / self.cell as int, self.cols - 1);
        let ghost cy0 = least(y as int / self.cell as int, self.rows - 1);
        proof {
            lemma_quotient(x, self.cell);
            lemma_quotient(y, self.cell);
        }
        self.cells[at].push(i);
        proof {
            let now = self.cells@[at as int]@;
            assert(now == listed.push(i));
            assert forall|j: u32| #[trigger] now.contains(j) <==> listed.contains(j) || j == i by {
                if listed.contains(j) {
                    let k = listed.index_of(j);
                    assert(now[k] == j);
                }
                assert(now[listed.len() as int] == i);
                if now.contains(j) && j != i {
                    let k = now.index_of(j);
                    assert(listed[k] == j);
                }
            }
            assert(ascending(listed));
            assert forall|a: int, b: int| 0 <= a < b < now.len() implies now[a] < now[b] by {
                if b == listed.len() {
                    assert(listed.contains(listed[a]));
                    assert(before.lists(cx0, cy0, listed[a]));
                }
            }
            assert forall|c: int| 0 <= c < self.cells@.len() implies ascending(#[trigger] self.cells@[c]@) by {
                if c != at {
                    assert(self.cells@[c] == before.cells@[c]);
                }
            }
            assert forall|cx: int, cy: int, j: u32| #[trigger] self.lists(cx, cy, j) <==> before.lists(cx, cy, j) || (j
                == i && before.falls_in(x, y, cx, cy)) by {
                if 0 <= cx < self.cols && 0 <= cy < self.rows {
                    lemma_tile_index(self.cols, self.rows, cx, cy);
                    if tile_index(self.cols, cx, cy) == at {
                        lemma_tile_index_injective(self.cols, cx, cy, cx0, cy0);
                    } else {
                        assert(self.cells@[tile_index(self.cols, cx, cy)] == before.cells@[tile_index(
                            self.cols,
                            cx,
                            cy,
                        )]);
                    }
                }
            }
        }
    }

    /// Everything listed in the cells that the square of a radius touches, in
    /// ascending order whatever the layout of the cells.
    pub fn gather(&self, x: u32, y: u32, radius: u32) -> (out: Vec<u32>)
        requires
            self.wf(),
        ensures
            ascending(out@),
            forall|i: u32| #[trigger] out@.contains(i) <==> self.within_reach(x, y, radius, i),
    {
        let mut out: Vec<u32> = Vec::new();
        let x0 = (if x < radius {
            0
        } else {
            x - radius
        }) / self.cell;
        let y0 = (if y < radius {
            0
        } else {
            y - radius
        }) / self.cell;
        let xr: u64 = (x as u64 + radius as u64) / self.cell as u64;
        let yr: u64 = (y as u64 + radius as u64) / self.cell as u64;
        let x1: u32 = if xr < (self.cols - 1) as u64 {
            xr as u32
        } else {
            self.cols - 1
        };
        let y1: u32 = if yr < (self.rows - 1) as u64 {
            yr as u32
        } else {
            self.rows - 1
        };
        proof {
            assert(forall|cx: int, cy: int| self.reaches(x, y, radius, cx, cy) <==> x0 <= cx <= x1 && y0 <= cy <= y1);
        }
        let mut cy: u32 = y0;
        while cy <= y1
            invariant
                self.wf(),
                y1 < self.rows,
                x1 < self.cols,
                y0 <= cy,
                cy <= y1 + 1 || cy == y0,
                ascending(out@),
                forall|i: u32|
                    #[trigger] out@.contains(i) <==> exists|a: int, b: int|
                        x0 <= a <= x1 && y0 <= b < cy && #[trigger] self.lists(a, b, i),
            decreases self.rows - cy,
        {
            let mut cx: u32 = x0;
            while cx <= x1
                invariant
                    self.wf(),
                    y0 <= cy <= y1 < self.rows,
                    x1 < self.cols,
                    x0 <= cx,
                    cx <= x1 + 1 || cx == x0,
                    ascending(out@),
                    forall|i: u32|
                        #[trigger] out@.contains(i) <==> exists|a: int, b: int|
                            x0 <= a <= x1 && y0 <= b && (b < cy || (b == cy && a < cx)) && #[trigger] self.lists(
                                a,
                                b,
                                i,
                            ),
                decreases self.cols - cx,
            {
                proof {
                    lemma_tile_index(self.cols, self.rows, cx as int, cy as int);
                    assert(self.cells@.len() == self.cells.len());
                    assert(0 <= cy * self.cols) by (nonlinear_arith)
                        requires
                            cy >= 0,
                            self.cols >= 0,
                    ;
                }
                let at = cy as usize * self.cols as usize + cx as usize;
                let ghost listed = self.cells@[at as int]@;
                let ghost before = out@;
                let mut k: usize = 0;
                while k < self.cells[at].len()
                    invariant
                        at < self.cells@.len(),
                        listed == self.cells@[at as int]@,
                        k <= listed.len(),
                        ascending(out@),
                        forall|i: u32|
                            #[trigger] out@.contains(i) <==> before.contains(i) || listed.take(k as int).contains(i),
                    decreases listed.len() - k,
                {
                    let i = self.cells[at][k];
                    proof {
                        let now = listed.take(k + 1);
                        let prior = listed.take(k as int);
                        assert forall|j: u32| now.contains(j) <==> prior.contains(j) || j == i by {
                            if prior.contains(j) {
                                let m = prior.index_of(j);
                                assert(now[m] == j);
                            }
                            assert(now[k as int] == i);
                            if now.contains(j) && j != i {
                                let m = now.index_of(j);
                                assert(prior[m] == j);
                            }
                        }
                    }
                    insert_ascending(&mut out, i);
                    k = k + 1;
                }
                proof {
                    assert(listed.take(k as int) == listed);
                    assert forall|i: u32| #[trigger] out@.contains(i) <==> exists|a: int, b: int|
                        x0 <= a <= x1 && y0 <= b && (b < cy || (b == cy && a < cx + 1)) && #[trigger] self.lists(
                            a,
                            b,
                            i,
                        ) by {
                        if before.contains(i) {
                            let (a, b) = choose|a: int, b: int|
                                x0 <= a <= x1 && y0 <= b && (b < cy || (b == cy && a < cx)) && #[trigger] self.lists(
                                    a,
                                    b,
                                    i,
                                );
                            assert(self.lists(a, b, i));
                        }
                        if listed.contains(i) {
                            assert(self.lists(cx as int, cy as int, i));
                        }
                    }
                }
                cx = cx + 1;
            }
            proof {
                assert forall|i: u32| #[trigger] out@.contains(i) <==> exists|a: int, b: int|
                    x0 <= a <= x1 && y0 <= b < cy + 1 && #[trigger] self.lists(a, b, i) by {}
            }
            cy = cy + 1;
        }
        proof {
            assert forall|i: u32| #[trigger] out@.contains(i) <==> self.within_reach(x, y, radius, i) by {}
        }
        out
    }
}

/// From a tile of a grid, the cell of anything in the square of the radius is
/// touched.
pub proof fn lemma_square_is_touched(
    cell: u32,
    cols: u32,
    rows: u32,
    ax: u32,
    ay: u32,
    x: u32,
    y: u32,
    radius: u32,
) -> (c: (int, int))
    requires
        cell > 0,
        x / cell < cols,
        y / cell < rows,
        x - radius <= ax <= x + radius,
        y - radius <= ay <= y + radius,
    ensures
        touches(cell, cols, rows, x, y, radius, c.0, c.1),
        c.0 == least(ax as int / cell as int, cols - 1),
        c.1 == least(ay as int / cell as int, rows - 1),
        0 <= c.0 < cols,
        0 <= c.1 < rows,
{
    let size = cell as int;
    let cx = least(ax as int / size, cols - 1);
    let cy = least(ay as int / size, rows - 1);
    vstd::arithmetic::div_mod::lemma_div_is_ordered(ax as int, x + radius, size);
    vstd::arithmetic::div_mod::lemma_div_is_ordered(ay as int, y + radius, size);
    lemma_quotient(ax, cell);
    lemma_quotient(ay, cell);
    if x >= radius {
        vstd::arithmetic::div_mod::lemma_div_is_ordered(x - radius, ax as int, size);
        vstd::arithmetic::div_mod::lemma_div_is_ordered(x - radius, x as int, size);
    }
    if y >= radius {
        vstd::arithmetic::div_mod::lemma_div_is_ordered(y - radius, ay as int, size);
        vstd::arithmetic::div_mod::lemma_div_is_ordered(y - radius, y as int, size);
    }
    (cx, cy)
}

/// A grid over some things has everything in the square of a radius round a tile of
/// it within reach, and nothing that has no place.
pub proof fn lemma_grid_over_reaches(
    cell: u32,
    cols: u32,
    rows: u32,
    places: Seq<Option<(u32, u32)>>,
    x: u32,
    y: u32,
    radius: u32,
    i: u32,
)
    requires
        cell > 0,
        x / cell < cols,
        y / cell < rows,
        i < places.len() <= u32::MAX,
    ensures
        grid_over(cell, cols, rows, places).within_reach(x, y, radius, i) ==> places[i as int] is Some,
        places[i as int] is Some && x - radius <= places[i as int]->Some_0.0 <= x + radius && y - radius
            <= places[i as int]->Some_0.1 <= y + radius ==> grid_over(cell, cols, rows, places).within_reach(
            x,
            y,
            radius,
            i,
        ),
{
    let g = grid_over(cell, cols, rows, places);
    assert forall|cx: int, cy: int| 0 <= cx < cols && 0 <= cy < rows implies (#[trigger] g.lists(cx, cy, i)
        <==> placed_in(cell, cols, rows, places, tile_index(cols, cx, cy))(i)) by {
        lemma_tile_index(cols, rows, cx, cy);
        lemma_those_below_hold(places.len() as int, placed_in(cell, cols, rows, places, tile_index(cols, cx, cy)), i);
    }
    if g.within_reach(x, y, radius, i) {
        let (a, b) = choose|a: int, b: int| touches(cell, cols, rows, x, y, radius, a, b) && #[trigger] g.lists(a, b, i);
        assert(g.lists(a, b, i));
    }
    if let Some((ax, ay)) = places[i as int] {
        if x - radius <= ax <= x + radius && y - radius <= ay <= y + radius {
            let (cx, cy) = lemma_square_is_touched(cell, cols, rows, ax, ay, x, y, radius);
            assert(g.lists(cx, cy, i));
        }
    }
}

proof fn lemma_quotient(x: u32, cell: u32)
    requires
        cell > 0,
    ensures
        0 <= x as int / cell as int,
{
    vstd::arithmetic::div_mod::lemma_div_is_ordered(0, x as int, cell as int);
    vstd::arithmetic::div_mod::lemma_div_basics(cell as int);
}

fn cells_across(len: u32, cell: u32) -> (r: u32)
    requires
        len > 0,
        cell > 0,
    ensures
        r == groups(len, cell),
        r > 0,
{
    let r: u64 = (len as u64 + cell as u64 - 1) / cell as u64;
    proof {
        lemma_group_of(0, len, cell);
        assert(r <= len) by (nonlinear_arith)
            requires
                r == (len + cell - 1) / cell as int,
                cell >= 1,
                len >= 0,
        ;
    }
    r as u32
}

} // verus!
