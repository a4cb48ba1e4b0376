//! Floods over a grid of tiles: how far the nearest source is and which one,
//! and the connected bodies of a kind of tile.
//!
//! Tiles are named by their place in the row-major list.

use vstd::arithmetic::div_mod::{lemma_fundamental_div_mod, lemma_fundamental_div_mod_converse};
use vstd::prelude::*;
use vstd::set_lib::{lemma_int_range, lemma_len_subset, set_int_range};

verus! {

/// Two tiles that share an edge.
pub open spec fn adjacent(w: int, i: int, j: int) -> bool {
    let dx = i % w - j % w;
    let dy = i / w - j / w;
    (dy == 0 && (dx == 1 || dx == -1)) || (dx == 0 && (dy == 1 || dy == -1))
}

/// A tile that can be got to from another in so many steps, each onto an open
/// tile.
pub open spec fn reached(w: int, open: Seq<bool>, s: int, i: int, n: nat) -> bool
    decreases n,
{
    if n == 0 {
        i == s
    } else {
        let m = (n - 1) as nat;
        reached(w, open, s, i, m) || (open[i] && exists|j: int|
            0 <= j < open.len() && #[trigger] adjacent(w, j, i) && reached(w, open, s, j, m))
    }
}

/// A tile that some source reaches in so many steps.
pub open spec fn within(w: int, open: Seq<bool>, source: Seq<bool>, i: int, n: nat) -> bool {
    exists|s: int| 0 <= s < source.len() && source[s] && #[trigger] reached(w, open, s, i, n)
}

/// The distance to the nearest source, and the first source in row order that
/// is that near.
pub open spec fn is_nearest(w: int, open: Seq<bool>, source: Seq<bool>, i: int, d: nat, s: int) -> bool {
    &&& 0 <= s < source.len()
    &&& source[s]
    &&& reached(w, open, s, i, d)
    &&& forall|n: nat| n < d ==> !#[trigger] within(w, open, source, i, n)
    &&& forall|r: int| 0 <= r < s && source[r] ==> !#[trigger] reached(w, open, r, i, d)
}

/// What a flood leaves at every tile. `u32::MAX` stands for a tile that no
/// source reaches.
pub struct Field {
    pub dist: Vec<u32>,
    pub from: Vec<u32>,
}

impl Field {
    pub open spec fn is_flood(&self, w: int, open: Seq<bool>, source: Seq<bool>) -> bool {
        &&& self.dist@.len() == open.len()
        &&& self.from@.len() == open.len()
        &&& forall|i: int|
            0 <= i < open.len() ==> {
                if #[trigger] self.dist@[i] == u32::MAX {
                    self.from@[i] == u32::MAX && forall|n: nat| !#[trigger] within(w, open, source, i, n)
                } else {
                    is_nearest(w, open, source, i, self.dist@[i] as nat, self.from@[i] as int)
                }
            }
    }
}

/// The fewest steps from a source, or `u32::MAX` where none leads to the tile.
pub open spec fn distance_to(w: int, open: Seq<bool>, source: Seq<bool>, i: int) -> nat {
    if exists|n: nat| #[trigger] within(w, open, source, i, n) {
        choose|d: nat|
            #[trigger] within(w, open, source, i, d) && forall|n: nat|
                n < d ==> !#[trigger] within(w, open, source, i, n)
    } else {
        u32::MAX as nat
    }
}

/// A flood holds the fewest steps.
pub proof fn lemma_flood_measures(f: &Field, w: int, open: Seq<bool>, source: Seq<bool>, i: int)
    requires
        f.is_flood(w, open, source),
        0 <= i < open.len(),
    ensures
        f.dist@[i] == distance_to(w, open, source, i),
{
    let d = f.dist@[i];
    if d != u32::MAX {
        assert(is_nearest(w, open, source, i, d as nat, f.from@[i] as int));
        assert(within(w, open, source, i, d as nat));
        let e = distance_to(w, open, source, i);
        assert(within(w, open, source, i, e) && forall|n: nat| n < e ==> !#[trigger] within(w, open, source, i, n)) by {
            assert(within(w, open, source, i, d as nat) && forall|n: nat|
                n < d ==> !#[trigger] within(w, open, source, i, n));
        }
    }
}

/// A distance is within a bound exactly if so many steps suffice.
pub proof fn lemma_distance_within(f: &Field, w: int, open: Seq<bool>, source: Seq<bool>, i: int, n: nat)
    requires
        f.is_flood(w, open, source),
        0 <= i < open.len(),
        n < u32::MAX,
    ensures
        f.dist@[i] <= n <==> within(w, open, source, i, n),
{
    let d = f.dist@[i];
    if d != u32::MAX {
        assert(is_nearest(w, open, source, i, d as nat, f.from@[i] as int));
        assert(within(w, open, source, i, d as nat));
        if d <= n {
            lemma_within_longer(w, open, source, i, d as nat, n);
        }
    }
}

/// The place of a tile, and its column and row again.
pub proof fn lemma_at(w: int, h: int, x: int, y: int)
    requires
        0 <= x < w,
        0 <= y < h,
    ensures
        0 <= y * w <= y * w + x < w * h,
        (y * w + x) % w == x,
        (y * w + x) / w == y,
{
    lemma_fundamental_div_mod_converse(y * w + x, w, y, x);
    assert(0 <= y * w && y * w + w <= w * h) by (nonlinear_arith)
        requires
            0 <= y,
            y + 1 <= h,
            w >= 0,
    ;
}

pub proof fn lemma_back(w: int, h: int, i: int)
    requires
        0 <= i < w * h,
        0 <= w,
        0 <= h,
    ensures
        0 <= i % w < w,
        0 <= i / w < h,
        i == (i / w) * w + i % w,
{
    assert(w > 0) by (nonlinear_arith)
        requires
            w >= 0,
            0 < w * h,
    ;
    lemma_fundamental_div_mod(i, w);
    let (q, r) = (i / w, i % w);
    assert(0 <= q < h && i == q * w + r) by (nonlinear_arith)
        requires
            i == w * q + r,
            0 <= r < w,
            0 <= i < w * h,
    ;
}

/// The tiles that share an edge with one: east, west, south, north.
fn neighbours(w: u32, h: u32, i: u32) -> (out: Vec<u32>)
    requires
        i < w * h <= u32::MAX,
    ensures
        forall|j: u32| #[trigger] out@.contains(j) <==> j < w * h && adjacent(w as int, i as int, j as int),
{
    let ghost n = w * h;
    proof {
        lemma_back(w as int, h as int, i as int);
    }
    let (x, y) = (i % w, i / w);
    let mut out: Vec<u32> = Vec::new();
    if x + 1 < w {
        proof {
            lemma_at(w as int, h as int, x + 1, y as int);
        }
        out.push(i + 1);
    }
    let ghost a = out@;
    if x > 0 {
        proof {
            lemma_at(w as int, h as int, x - 1, y as int);
        }
        out.push(i - 1);
    }
    let ghost b = out@;
    proof {
        assert((y + 1) * w == y * w + w && (y - 1) * w == y * w - w) by (nonlinear_arith);
    }
    if y + 1 < h {
        proof {
            lemma_at(w as int, h as int, x as int, y + 1);
        }
        out.push(i + w);
    }
    let ghost c = out@;
    if y > 0 {
        proof {
            lemma_at(w as int, h as int, x as int, y - 1);
        }
        out.push(i - w);
    }
    proof {
        let (xi, yi) = (x as int, y as int);
        assert forall|j: u32| #[trigger] out@.contains(j) implies j < n && adjacent(w as int, i as int, j as int) by {
            let k = out@.index_of(j);
            if k < a.len() {
                assert(out@[k] == a[k]);
            } else if k < b.len() {
                assert(out@[k] == b[k]);
            } else if k < c.len() {
                assert(out@[k] == c[k]);
            }
        }
        assert forall|j: u32| j < n && adjacent(w as int, i as int, j as int) implies #[trigger] out@.contains(j) by {
            lemma_back(w as int, h as int, j as int);
            let (xj, yj) = (j as int % w as int, j as int / w as int);
            if yj == yi {
                if xj == xi + 1 {
                    assert(a[0] == j);
                    assert(out@[0] == j);
                } else {
                    assert(xj == xi - 1);
                    assert(b[a.len() as int] == j);
                    assert(out@[a.len() as int] == j);
                }
            } else if yj == yi + 1 {
                assert(j == i + w);
                assert(c[b.len() as int] == j);
                assert(out@[b.len() as int] == j);
            } else {
                assert(yj == yi - 1);
                assert(j == i - w);
                assert(out@[c.len() as int] == j);
            }
        }
    }
    out
}

/// More steps reach no less.
proof fn lemma_reached_longer(w: int, open: Seq<bool>, s: int, i: int, m: nat, n: nat)
    requires
        m <= n,
        reached(w, open, s, i, m),
    ensures
        reached(w, open, s, i, n),
    decreases n,
{
    if m < n {
        lemma_reached_longer(w, open, s, i, m, (n - 1) as nat);
    }
}

proof fn lemma_within_longer(w: int, open: Seq<bool>, source: Seq<bool>, i: int, m: nat, n: nat)
    requires
        m <= n,
        within(w, open, source, i, m),
    ensures
        within(w, open, source, i, n),
{
    let s = choose|s: int| 0 <= s < source.len() && source[s] && #[trigger] reached(w, open, s, i, m);
    lemma_reached_longer(w, open, s, i, m, n);
}

/// A tile that the distance `d` does not reach and one step more does is
/// entered from a tile at exactly that distance.
proof fn lemma_entered(w: int, open: Seq<bool>, source: Seq<bool>, i: int, s: int, d: nat) -> (j: int)
    requires
        0 <= s < source.len(),
        source[s],
        reached(w, open, s, i, d + 1),
        !within(w, open, source, i, d),
    ensures
        open[i],
        0 <= j < open.len(),
        adjacent(w, j, i),
        reached(w, open, s, j, d),
        d > 0 ==> !within(w, open, source, j, (d - 1) as nat),
{
    assert(!reached(w, open, s, i, d));
    let j = choose|j: int| 0 <= j < open.len() && #[trigger] adjacent(w, j, i) && reached(w, open, s, j, d);
    if d > 0 && within(w, open, source, j, (d - 1) as nat) {
        let m = (d - 1) as nat;
        let r = choose|r: int| 0 <= r < source.len() && source[r] && #[trigger] reached(w, open, r, j, m);
        assert(reached(w, open, r, i, d));
    }
    j
}

/// A list without repetition of numbers below a bound is no longer than the bound.
proof fn lemma_no_longer(q: Seq<u32>, n: nat)
    requires
        q.no_duplicates(),
        forall|k: int| 0 <= k < q.len() ==> (#[trigger] q[k]) < n,
    ensures
        q.len() <= n,
{
    let s = q.map_values(|v: u32| v as int);
    assert(s.no_duplicates()) by {
        assert forall|a: int, b: int| 0 <= a < s.len() && 0 <= b < s.len() && a != b implies s[a] != s[b] by {
            assert(q[a] != q[b]);
        }
    }
    s.unique_seq_to_set();
    lemma_int_range(0, n as int);
    assert(s.to_set().subset_of(set_int_range(0, n as int))) by {
        assert forall|v: int| s.to_set().contains(v) implies set_int_range(0, n as int).contains(v) by {
            assert(s.contains(v));
            let k = s.index_of(v);
            assert(s[k] == q[k]);
        }
    }
    lemma_len_subset(s.to_set(), set_int_range(0, n as int));
}

/// The state of a flood while the tiles at distance `d` are being left: those
/// listed from `lo` up to `hi` stand at that distance, and the list goes on
/// with the tiles entered from them.
spec fn flooding(
    w: int,
    open: Seq<bool>,
    source: Seq<bool>,
    dist: Seq<u32>,
    from: Seq<u32>,
    queue: Seq<u32>,
    d: nat,
    lo: int,
    hi: int,
) -> bool {
    &&& dist.len() == open.len()
    &&& from.len() == open.len()
    &&& source.len() == open.len()
    &&& open.len() <= u32::MAX
    &&& 0 <= lo <= hi <= queue.len()
    &&& d <= lo
    &&& d < u32::MAX
    &&& queue.no_duplicates()
    &&& forall|k: int| 0 <= k < queue.len() ==> (#[trigger] queue[k]) < open.len()
    &&& forall|k: int| 0 <= k < queue.len() ==> dist[(#[trigger] queue[k]) as int] != u32::MAX
    &&& forall|k: int| 0 <= k < hi ==> dist[(#[trigger] queue[k]) as int] <= d
    &&& forall|k: int| lo <= k < hi ==> dist[(#[trigger] queue[k]) as int] == d
    &&& forall|k: int| hi <= k < queue.len() ==> dist[(#[trigger] queue[k]) as int] == d + 1
    &&& forall|i: int| 0 <= i < open.len() && #[trigger] dist[i] == d ==> queue.subrange(lo, hi).contains(i as u32)
    &&& forall|i: int| 0 <= i < open.len() && (#[trigger] dist[i]) > d ==> !within(w, open, source, i, d)
    &&& forall|i: int|
        0 <= i < open.len() && (#[trigger] dist[i]) <= d ==> is_nearest(
            w,
            open,
            source,
            i,
            dist[i] as nat,
            from[i] as int,
        )
    &&& forall|i: int| 0 <= i < open.len() && #[trigger] dist[i] == u32::MAX ==> from[i] == u32::MAX
    &&& forall|i: int|
        0 <= i < open.len() && (#[trigger] dist[i]) != u32::MAX ==> dist[i] <= d + 1 && queue.contains(i as u32)
    &&& forall|a: int, b: int|
        lo <= a < b < hi ==> from[(#[trigger] queue[a]) as int] <= from[(#[trigger] queue[b]) as int]
    &&& forall|a: int, b: int|
        hi <= a < b < queue.len() ==> from[(#[trigger] queue[a]) as int] <= from[(#[trigger] queue[b]) as int]
}

/// What is known of the tiles entered so far, by the moves tried: each was
/// entered from a tile that no other move to it is nearer an earlier source than.
spec fn entered(
    w: int,
    open: Seq<bool>,
    source: Seq<bool>,
    dist: Seq<u32>,
    from: Seq<u32>,
    d: nat,
    tried: Set<(int, int)>,
) -> bool {
    &&& forall|j: int, i: int| #[trigger] tried.contains((j, i)) ==> 0 <= j < open.len() && dist[j] == d
    &&& forall|i: int|
        0 <= i < open.len() && dist[i] > d ==> {
            if #[trigger] dist[i] != u32::MAX {
                &&& 0 <= from[i] < source.len()
                &&& source[from[i] as int]
                &&& reached(w, open, from[i] as int, i, d + 1)
                &&& forall|j: int| #[trigger] tried.contains((j, i)) ==> from[i] <= from[j]
            } else {
                forall|j: int| #[trigger] tried.contains((j, i)) ==> !open[i]
            }
        }
}

/// Every move from a tile at a distance has been tried.
spec fn all_tried(w: int, dist: Seq<u32>, d: nat, tried: Set<(int, int)>) -> bool {
    forall|j: int, i: int|
        0 <= j < dist.len() && 0 <= i < dist.len() && dist[j] == d && adjacent(w, j, i) ==> #[trigger] tried.contains(
            (j, i),
        )
}

/// Every tile that the flood has come to is settled, and it comes to no other.
spec fn settled(w: int, open: Seq<bool>, source: Seq<bool>, dist: Seq<u32>, from: Seq<u32>) -> bool {
    &&& dist.len() == open.len()
    &&& from.len() == open.len()
    &&& forall|i: int|
        0 <= i < open.len() ==> {
            if #[trigger] dist[i] == u32::MAX {
                from[i] == u32::MAX && forall|n: nat| !#[trigger] within(w, open, source, i, n)
            } else {
                is_nearest(w, open, source, i, dist[i] as nat, from[i] as int)
            }
        }
}

/// A tile that the flood has come to is listed.
proof fn lemma_listed(
    w: int,
    open: Seq<bool>,
    source: Seq<bool>,
    dist: Seq<u32>,
    from: Seq<u32>,
    queue: Seq<u32>,
    d: nat,
    lo: int,
    hi: int,
    i: int,
)
    requires
        flooding(w, open, source, dist, from, queue, d, lo, hi),
        0 <= i < open.len(),
        dist[i] != u32::MAX,
    ensures
        queue.contains(i as u32),
{
}

/// A tile that a source reaches in `d` steps and none reaches sooner stands at
/// that distance.
proof fn lemma_at_level(
    w: int,
    open: Seq<bool>,
    source: Seq<bool>,
    dist: Seq<u32>,
    from: Seq<u32>,
    queue: Seq<u32>,
    d: nat,
    lo: int,
    hi: int,
    s: int,
    j: int,
)
    requires
        flooding(w, open, source, dist, from, queue, d, lo, hi),
        0 <= s < source.len(),
        source[s],
        0 <= j < open.len(),
        reached(w, open, s, j, d),
        d > 0 ==> !within(w, open, source, j, (d - 1) as nat),
    ensures
        dist[j] == d,
{
    assert(within(w, open, source, j, d));
    if dist[j] < d {
        let m = dist[j] as nat;
        assert(is_nearest(w, open, source, j, m, from[j] as int));
        assert(within(w, open, source, j, m));
        lemma_within_longer(w, open, source, j, m, (d - 1) as nat);
    }
}

/// A tile beyond the next distance is not within it, once every move has been tried.
proof fn lemma_beyond(
    w: int,
    open: Seq<bool>,
    source: Seq<bool>,
    dist: Seq<u32>,
    from: Seq<u32>,
    queue: Seq<u32>,
    d: nat,
    lo: int,
    hi: int,
    tried: Set<(int, int)>,
    i: int,
)
    requires
        flooding(w, open, source, dist, from, queue, d, lo, hi),
        entered(w, open, source, dist, from, d, tried),
        all_tried(w, dist, d, tried),
        0 <= i < open.len(),
        dist[i] > d + 1,
    ensures
        !within(w, open, source, i, d + 1),
{
    if within(w, open, source, i, d + 1) {
        let s = choose|s: int| 0 <= s < source.len() && source[s] && #[trigger] reached(w, open, s, i, d + 1);
        let j = lemma_entered(w, open, source, i, s, d);
        lemma_at_level(w, open, source, dist, from, queue, d, lo, hi, s, j);
        assert(tried.contains((j, i)));
        assert(dist[i] == u32::MAX);
    }
}

/// When every tile at a distance has been left, the next distance is settled.
proof fn lemma_next_level(
    w: int,
    open: Seq<bool>,
    source: Seq<bool>,
    dist: Seq<u32>,
    from: Seq<u32>,
    queue: Seq<u32>,
    d: nat,
    lo: int,
    hi: int,
    tried: Set<(int, int)>,
)
    requires
        flooding(w, open, source, dist, from, queue, d, lo, hi),
        entered(w, open, source, dist, from, d, tried),
        all_tried(w, dist, d, tried),
        lo < hi,
        d + 1 < u32::MAX,
    ensures
        flooding(w, open, source, dist, from, queue, d + 1, hi, queue.len() as int),
{
    let e = d + 1;
    assert forall|i: int| 0 <= i < open.len() && (#[trigger] dist[i]) > e implies !within(w, open, source, i, e) by {
        lemma_beyond(w, open, source, dist, from, queue, d, lo, hi, tried, i);
    }
    assert forall|i: int| 0 <= i < open.len() && (#[trigger] dist[i]) <= e implies is_nearest(
        w,
        open,
        source,
        i,
        dist[i] as nat,
        from[i] as int,
    ) by {
        if dist[i] == e {
            assert(dist[i] > d);
            assert forall|n: nat| n < e implies !#[trigger] within(w, open, source, i, n) by {
                if within(w, open, source, i, n) {
                    lemma_within_longer(w, open, source, i, n, d);
                }
            }
            assert forall|r: int| 0 <= r < from[i] && source[r] implies !#[trigger] reached(w, open, r, i, e) by {
                if reached(w, open, r, i, e) {
                    let j = lemma_entered(w, open, source, i, r, d);
                    lemma_at_level(w, open, source, dist, from, queue, d, lo, hi, r, j);
                    assert(tried.contains((j, i)));
                    assert(from[i] <= from[j]);
                    assert(is_nearest(w, open, source, j, d, from[j] as int));
                }
            }
        }
    }
    assert forall|i: int| 0 <= i < open.len() && #[trigger] dist[i] == e implies queue.subrange(
        hi,
        queue.len() as int,
    ).contains(i as u32) by {
        let k = queue.index_of(i as u32);
        assert(queue[k] == i);
        assert(k >= hi);
        assert(queue.subrange(hi, queue.len() as int)[k - hi] == i as u32);
    }
    assert forall|k: int| 0 <= k < queue.len() implies dist[(#[trigger] queue[k]) as int] <= e by {
        assert(k < hi ==> dist[queue[k] as int] <= d);
    }
}

/// When leaving the tiles at a distance has entered no other, the flood is over.
proof fn lemma_over(
    w: int,
    open: Seq<bool>,
    source: Seq<bool>,
    dist: Seq<u32>,
    from: Seq<u32>,
    queue: Seq<u32>,
    d: nat,
    lo: int,
    hi: int,
    tried: Set<(int, int)>,
)
    requires
        flooding(w, open, source, dist, from, queue, d, lo, hi),
        entered(w, open, source, dist, from, d, tried),
        all_tried(w, dist, d, tried),
        hi == queue.len(),
    ensures
        settled(w, open, source, dist, from),
{
    assert forall|i: int| 0 <= i < open.len() implies #[trigger] dist[i] == u32::MAX || dist[i] <= d by {
        if dist[i] != u32::MAX {
            let k = queue.index_of(i as u32);
            assert(queue[k] == i);
        }
    }
    assert forall|i: int| 0 <= i < open.len() && #[trigger] dist[i] == u32::MAX implies from[i] == u32::MAX && forall|
        n: nat,
    | !#[trigger] within(w, open, source, i, n) by {
        assert forall|n: nat| !#[trigger] within(w, open, source, i, n) by {
            lemma_never(w, open, source, dist, from, queue, d, lo, hi, tried, i, n);
        }
    }
}

proof fn lemma_never(
    w: int,
    open: Seq<bool>,
    source: Seq<bool>,
    dist: Seq<u32>,
    from: Seq<u32>,
    queue: Seq<u32>,
    d: nat,
    lo: int,
    hi: int,
    tried: Set<(int, int)>,
    i: int,
    n: nat,
)
    requires
        flooding(w, open, source, dist, from, queue, d, lo, hi),
        entered(w, open, source, dist, from, d, tried),
        all_tried(w, dist, d, tried),
        forall|v: int| 0 <= v < open.len() ==> #[trigger] dist[v] == u32::MAX || dist[v] <= d,
        0 <= i < open.len(),
        dist[i] == u32::MAX,
    ensures
        !within(w, open, source, i, n),
    decreases n,
{
    if within(w, open, source, i, n) {
        if n <= d {
            lemma_within_longer(w, open, source, i, n, d);
        } else {
            let m = (n - 1) as nat;
            lemma_never(w, open, source, dist, from, queue, d, lo, hi, tried, i, m);
            let s = choose|s: int| 0 <= s < source.len() && source[s] && #[trigger] reached(w, open, s, i, n);
            assert(!reached(w, open, s, i, m));
            let j = choose|j: int| 0 <= j < open.len() && #[trigger] adjacent(w, j, i) && reached(w, open, s, j, m);
            assert(within(w, open, source, j, m));
            if dist[j] == u32::MAX {
                lemma_never(w, open, source, dist, from, queue, d, lo, hi, tried, j, m);
            } else if dist[j] == d {
                assert(tried.contains((j, i)));
            } else {
                assert(is_nearest(w, open, source, j, dist[j] as nat, from[j] as int));
                assert(reached(w, open, from[j] as int, i, (dist[j] + 1) as nat));
                assert(within(w, open, source, i, (dist[j] + 1) as nat));
                lemma_within_longer(w, open, source, i, (dist[j] + 1) as nat, d);
            }
        }
    }
}

/// A tile newly entered.
proof fn lemma_step(
    w: int,
    open: Seq<bool>,
    source: Seq<bool>,
    dist: Seq<u32>,
    from: Seq<u32>,
    queue: Seq<u32>,
    d: nat,
    lo: int,
    hi: int,
    tried: Set<(int, int)>,
    at: u32,
    i: u32,
)
    requires
        flooding(w, open, source, dist, from, queue, d, lo, hi),
        entered(w, open, source, dist, from, d, tried),
        at < open.len(),
        i < open.len(),
        dist[at as int] == d,
        adjacent(w, at as int, i as int),
        queue.len() > hi ==> from[queue[queue.len() - 1] as int] <= from[at as int],
        open[i as int],
        dist[i as int] == u32::MAX,
        d + 1 < u32::MAX,
    ensures
        flooding(
            w,
            open,
            source,
            dist.update(i as int, (d + 1) as u32),
            from.update(i as int, from[at as int]),
            queue.push(i),
            d,
            lo,
            hi,
        ),
        entered(
            w,
            open,
            source,
            dist.update(i as int, (d + 1) as u32),
            from.update(i as int, from[at as int]),
            d,
            tried.insert((at as int, i as int)),
        ),
{
    let dist2 = dist.update(i as int, (d + 1) as u32);
    let from2 = from.update(i as int, from[at as int]);
    let queue2 = queue.push(i);
    let tried2 = tried.insert((at as int, i as int));
    assert(is_nearest(w, open, source, at as int, d, from[at as int] as int));
    assert(reached(w, open, from[at as int] as int, i as int, d + 1));
    assert forall|k: int| 0 <= k < queue.len() implies (#[trigger] queue2[k]) != i by {
        assert(dist[queue[k] as int] != u32::MAX);
    }
    assert(queue2.no_duplicates());
    assert forall|v: int| 0 <= v < open.len() && #[trigger] dist2[v] == d implies queue2.subrange(lo, hi).contains(
        v as u32,
    ) by {
        assert(dist[v] == d);
        assert(queue2.subrange(lo, hi) == queue.subrange(lo, hi));
    }
    assert forall|v: int| 0 <= v < open.len() && (#[trigger] dist2[v]) > d implies !within(w, open, source, v, d) by {
        assert(dist[v] > d);
    }
    assert forall|v: int| 0 <= v < open.len() && (#[trigger] dist2[v]) <= d implies is_nearest(
        w,
        open,
        source,
        v,
        dist2[v] as nat,
        from2[v] as int,
    ) by {
        assert(dist[v] <= d);
    }
    assert forall|v: int| 0 <= v < open.len() && (#[trigger] dist2[v]) != u32::MAX implies dist2[v] <= d + 1
        && queue2.contains(v as u32) by {
        if v == i {
            assert(queue2[queue.len() as int] == i);
        } else {
            assert(dist[v] != u32::MAX);
            let k = queue.index_of(v as u32);
            assert(queue2[k] == v as u32);
        }
    }
    assert forall|v: int| 0 <= v < open.len() && #[trigger] dist2[v] == u32::MAX implies from2[v] == u32::MAX by {
        assert(dist[v] == u32::MAX);
    }
    assert forall|a: int, b: int| lo <= a < b < hi implies from2[(#[trigger] queue2[a]) as int]
        <= from2[(#[trigger] queue2[b]) as int] by {
        assert(from[queue[a] as int] <= from[queue[b] as int]);
    }
    assert forall|a: int, b: int| hi <= a < b < queue2.len() implies from2[(#[trigger] queue2[a]) as int]
        <= from2[(#[trigger] queue2[b]) as int] by {
        if b < queue.len() {
            assert(from[queue[a] as int] <= from[queue[b] as int]);
        } else if a < queue.len() - 1 {
            assert(from[queue[a] as int] <= from[queue[queue.len() - 1] as int]);
        }
    }
    assert forall|v: int| 0 <= v < open.len() && dist2[v] > d implies {
        if #[trigger] dist2[v] != u32::MAX {
            &&& 0 <= from2[v] < source.len()
            &&& source[from2[v] as int]
            &&& reached(w, open, from2[v] as int, v, d + 1)
            &&& forall|j: int| #[trigger] tried2.contains((j, v)) ==> from2[v] <= from2[j]
        } else {
            forall|j: int| #[trigger] tried2.contains((j, v)) ==> !open[v]
        }
    } by {
        assert(dist[v] > d);
        if v == i {
            assert forall|j: int| #[trigger] tried2.contains((j, v)) implies from2[v] <= from2[j] by {
                if j != at {
                    assert(tried.contains((j, v)));
                }
            }
        } else {
            assert forall|j: int| #[trigger] tried2.contains((j, v)) implies tried.contains((j, v)) && j != i by {
                assert(tried.contains((j, v)));
            }
        }
    }
}

/// A move that enters nothing.
proof fn lemma_no_step(
    w: int,
    open: Seq<bool>,
    source: Seq<bool>,
    dist: Seq<u32>,
    from: Seq<u32>,
    queue: Seq<u32>,
    d: nat,
    lo: int,
    hi: int,
    tried: Set<(int, int)>,
    at: u32,
    i: u32,
)
    requires
        flooding(w, open, source, dist, from, queue, d, lo, hi),
        entered(w, open, source, dist, from, d, tried),
        at < open.len(),
        i < open.len(),
        dist[at as int] == d,
        queue.len() > hi ==> from[queue[queue.len() - 1] as int] <= from[at as int],
        !open[i as int] || dist[i as int] != u32::MAX,
    ensures
        entered(w, open, source, dist, from, d, tried.insert((at as int, i as int))),
{
    let tried2 = tried.insert((at as int, i as int));
    assert forall|v: int| 0 <= v < open.len() && dist[v] > d implies {
        if #[trigger] dist[v] != u32::MAX {
            &&& 0 <= from[v] < source.len()
            &&& source[from[v] as int]
            &&& reached(w, open, from[v] as int, v, d + 1)
            &&& forall|j: int| #[trigger] tried2.contains((j, v)) ==> from[v] <= from[j]
        } else {
            forall|j: int| #[trigger] tried2.contains((j, v)) ==> !open[v]
        }
    } by {
        if dist[v] != u32::MAX {
            assert forall|j: int| #[trigger] tried2.contains((j, v)) implies from[v] <= from[j] by {
                if tried.contains((j, v)) {
                } else {
                    assert(dist[v] != u32::MAX);
                    let k = queue.index_of(v as u32);
                    assert(queue[k] == v);
                    assert(k >= hi);
                    if k < queue.len() - 1 {
                        assert(from[queue[k] as int] <= from[queue[queue.len() - 1] as int]);
                    }
                }
            }
        } else {
            assert forall|j: int| #[trigger] tried2.contains((j, v)) implies !open[v] by {
                if tried.contains((j, v)) {
                }
            }
        }
    }
}

/// The sources, each at no distance from itself.
fn sources(open: &Vec<bool>, source: &Vec<bool>, Ghost(w): Ghost<int>) -> (r: (Vec<u32>, Vec<u32>, Vec<u32>))
    requires
        open@.len() == source@.len(),
        open@.len() <= u32::MAX,
    ensures
        flooding(w, open@, source@, r.0@, r.1@, r.2@, 0, 0, r.2@.len() as int),
{
    let n: usize = open.len();
    let mut dist: Vec<u32> = Vec::new();
    let mut from: Vec<u32> = Vec::new();
    let mut queue: Vec<u32> = Vec::new();
    for i in 0..n
        invariant
            n == open@.len() == source@.len(),
            n <= u32::MAX,
            dist@.len() == i,
            from@.len() == i,
            forall|k: int| 0 <= k < i ==> #[trigger] dist@[k] == if source@[k] {
                0u32
            } else {
                u32::MAX
            },
            forall|k: int| 0 <= k < i ==> #[trigger] from@[k] == if source@[k] {
                k as u32
            } else {
                u32::MAX
            },
            forall|k: int| 0 <= k < queue@.len() ==> (#[trigger] queue@[k]) < i && source@[queue@[k] as int],
            forall|a: int, b: int| 0 <= a < b < queue@.len() ==> (#[trigger] queue@[a]) < (#[trigger] queue@[b]),
            forall|k: int| 0 <= k < i && #[trigger] source@[k] ==> queue@.contains(k as u32),
    {
        let ghost before = queue@;
        if source[i] {
            dist.push(0);
            from.push(i as u32);
            queue.push(i as u32);
        } else {
            dist.push(u32::MAX);
            from.push(u32::MAX);
        }
        proof {
            assert forall|k: int| 0 <= k < i + 1 && #[trigger] source@[k] implies queue@.contains(k as u32) by {
                if k < i {
                    assert(before.contains(k as u32));
                    let m = before.index_of(k as u32);
                    assert(queue@[m] == k as u32);
                } else {
                    assert(queue@[queue@.len() - 1] == k as u32);
                }
            }
        }
    }
    proof {
        let (o, s) = (open@, source@);
        let hi = queue@.len() as int;
        assert(queue@.subrange(0, hi) == queue@);
        assert forall|i: int| 0 <= i < n && (#[trigger] dist@[i]) <= 0 implies is_nearest(
            w,
            o,
            s,
            i,
            dist@[i] as nat,
            from@[i] as int,
        ) by {
            assert(source@[i]);
            assert(reached(w, o, i, i, 0));
        }
        assert forall|i: int| 0 <= i < n && (#[trigger] dist@[i]) != u32::MAX implies queue@.contains(i as u32) by {
            assert(source@[i]);
        }
        assert forall|a: int, b: int| 0 <= a < b < hi implies from@[(#[trigger] queue@[a]) as int]
            <= from@[(#[trigger] queue@[b]) as int] by {
            assert(queue@[a] < queue@[b]);
        }
    }
    (dist, from, queue)
}

/// How far every tile is from the nearest source and which source that is, by
/// travel over open tiles. A source need not be open itself.
pub fn flood(w: u32, h: u32, open: &Vec<bool>, source: &Vec<bool>) -> (f: Field)
    requires
        open@.len() == w * h,
        source@.len() == w * h,
        w * h <= u32::MAX,
    ensures
        f.is_flood(w as int, open@, source@),
{
    let n: usize = open.len();
    let (mut dist, mut from, mut queue) = sources(open, source, Ghost(w as int));
    let mut d: u32 = 0;
    let mut lo: usize = 0;
    let mut hi: usize = queue.len();
    let ghost (wi, o, s) = (w as int, open@, source@);
    proof {
        lemma_no_longer(queue@, n as nat);
        if hi == 0 {
            assert(all_tried(wi, dist@, 0, Set::empty())) by {
                assert forall|j: int| 0 <= j < n && #[trigger] dist@[j] == 0 implies false by {
                    assert(queue@.subrange(0, 0).contains(j as u32));
                }
            }
            assert(entered(wi, o, s, dist@, from@, 0, Set::empty())) by {
                assert forall|i: int| 0 <= i < n implies #[trigger] dist@[i] == u32::MAX by {
                    if dist@[i] != u32::MAX {
                        lemma_listed(wi, o, s, dist@, from@, queue@, 0, 0, 0, i);
                    }
                }
            }
            lemma_over(wi, o, s, dist@, from@, queue@, 0, 0, 0, Set::empty());
        }
    }
    while lo < hi
        invariant
            n == open@.len() == w * h,
            n <= u32::MAX,
            wi == w,
            o == open@,
            s == source@,
            hi == queue@.len(),
            lo <= hi,
            lo < hi ==> flooding(wi, o, s, dist@, from@, queue@, d as nat, lo as int, hi as int),
            lo >= hi ==> settled(wi, o, s, dist@, from@),
            hi <= n,
        decreases n - lo,
    {
        let ghost mut tried: Set<(int, int)> = Set::empty();
        proof {
            assert(entered(wi, o, s, dist@, from@, d as nat, tried)) by {
                assert forall|i: int| 0 <= i < n && dist@[i] > d implies #[trigger] dist@[i] == u32::MAX by {
                    if dist@[i] != u32::MAX {
                        assert(queue@.contains(i as u32));
                        let m = queue@.index_of(i as u32);
                        assert(dist@[queue@[m] as int] <= d);
                    }
                }
            }
        }
        for k in lo..hi
            invariant
                n == open@.len() == w * h,
                n <= u32::MAX,
                wi == w,
                o == open@,
                s == source@,
                lo < hi <= queue@.len(),
                flooding(wi, o, s, dist@, from@, queue@, d as nat, lo as int, hi as int),
                entered(wi, o, s, dist@, from@, d as nat, tried),
                forall|m: int, i: int|
                    #![trigger queue@[m], tried.contains((queue@[m] as int, i))]
                    lo <= m < k && 0 <= i < n && adjacent(wi, queue@[m] as int, i) ==> tried.contains(
                        (queue@[m] as int, i),
                    ),
                queue@.len() > hi ==> k > lo && from@[queue@[queue@.len() - 1] as int] <= from@[queue@[k - 1] as int],
        {
            let at = queue[k];
            let src = from[at as usize];
            let around = neighbours(w, h, at);
            let ghost (tried0, queue0) = (tried, queue@);
            assert(queue@.len() > hi ==> from@[queue@[k - 1] as int] <= from@[queue@[k as int] as int]);
            for t in 0..around.len()
                invariant
                    n == open@.len() == w * h,
                    n <= u32::MAX,
                    wi == w,
                    o == open@,
                    s == source@,
                    lo <= k < hi <= queue0.len() <= queue@.len(),
                    queue0 == queue@.take(queue0.len() as int),
                    at < n,
                    queue@[k as int] == at,
                    src == from@[at as int],
                    dist@[at as int] == d,
                    forall|j: u32| #[trigger] around@.contains(j) <==> j < w * h && adjacent(wi, at as int, j as int),
                    flooding(wi, o, s, dist@, from@, queue@, d as nat, lo as int, hi as int),
                    entered(wi, o, s, dist@, from@, d as nat, tried),
                    tried0.subset_of(tried),
                    forall|m: int| 0 <= m < t ==> tried.contains((at as int, (#[trigger] around@[m]) as int)),
                    queue@.len() > hi ==> from@[queue@[queue@.len() - 1] as int] <= src,
            {
                let i = around[t];
                let ghost (dist0, from0, queue1) = (dist@, from@, queue@);
                assert(around@.contains(i));
                if open[i as usize] && dist[i as usize] == u32::MAX {
                    proof {
                        assert forall|m: int| 0 <= m < queue@.len() implies (#[trigger] queue@.push(i)[m]) != i by {
                            assert(dist@[queue@[m] as int] != u32::MAX);
                        }
                        lemma_no_longer(queue@.push(i), n as nat);
                        lemma_step(
                            wi,
                            o,
                            s,
                            dist@,
                            from@,
                            queue@,
                            d as nat,
                            lo as int,
                            hi as int,
                            tried,
                            at,
                            i,
                        );
                    }
                    dist.set(i as usize, d + 1);
                    from.set(i as usize, src);
                    queue.push(i);
                } else {
                    proof {
                        lemma_no_step(
                            wi,
                            o,
                            s,
                            dist@,
                            from@,
                            queue@,
                            d as nat,
                            lo as int,
                            hi as int,
                            tried,
                            at,
                            i,
                        );
                    }
                }
                proof {
                    tried = tried.insert((at as int, i as int));
                }
            }
            proof {
                assert forall|m: int, i: int|
                    #![trigger queue@[m], tried.contains((queue@[m] as int, i))]
                    lo <= m < k + 1 && 0 <= i < n && adjacent(wi, queue@[m] as int, i) implies tried.contains(
                    (queue@[m] as int, i),
                ) by {
                    if m < k {
                        assert(queue0[m] == queue@[m]);
                        assert(tried0.contains((queue0[m] as int, i)));
                    } else {
                        assert(around@.contains(i as u32));
                        let q = around@.index_of(i as u32);
                        assert(tried.contains((at as int, around@[q] as int)));
                    }
                }
            }
        }
        proof {
            assert(all_tried(wi, dist@, d as nat, tried)) by {
                assert forall|j: int, i: int|
                    0 <= j < n && 0 <= i < n && dist@[j] == d && adjacent(wi, j, i) implies #[trigger] tried.contains(
                    (j, i),
                ) by {
                    let level = queue@.subrange(lo as int, hi as int);
                    assert(level.contains(j as u32));
                    let m = level.index_of(j as u32);
                    assert(queue@[lo + m] == j);
                }
            }
            lemma_no_longer(queue@, n as nat);
            if queue@.len() == hi {
                lemma_over(wi, o, s, dist@, from@, queue@, d as nat, lo as int, hi as int, tried);
            } else {
                lemma_next_level(wi, o, s, dist@, from@, queue@, d as nat, lo as int, hi as int, tried);
            }
        }
        lo = hi;
        hi = queue.len();
        if lo < hi {
            d = d + 1;
        }
    }
    Field { dist, from }
}

/// A tile that can be got to from another over open tiles.
pub open spec fn connected(w: int, open: Seq<bool>, s: int, i: int) -> bool {
    exists|n: nat| #[trigger] reached(w, open, s, i, n)
}

/// The open tiles that hang together with one.
pub open spec fn body_of(w: int, open: Seq<bool>, s: int) -> Set<int> {
    Set::new(|i: int| 0 <= i < open.len() && connected(w, open, s, i))
}

/// The first tile of its body in row order.
pub open spec fn opens_body(w: int, open: Seq<bool>, i: int) -> bool {
    open[i] && forall|j: int| 0 <= j < i && #[trigger] open[j] ==> !connected(w, open, j, i)
}

/// How many bodies of at least a size have their first tile among the first `n`.
pub open spec fn bodies(w: int, open: Seq<bool>, least: nat, n: int) -> nat
    decreases n,
{
    if n <= 0 {
        0
    } else {
        bodies(w, open, least, n - 1) + if opens_body(w, open, n - 1) && body_of(w, open, n - 1).len() >= least {
            1nat
        } else {
            0nat
        }
    }
}

/// A set of tiles that holds the open neighbours of each of its own.
spec fn closed_off(w: int, open: Seq<bool>, seen: Seq<bool>) -> bool {
    forall|j: int, i: int|
        0 <= j < open.len() && 0 <= i < open.len() && seen[j] && open[i] && #[trigger] adjacent(w, j, i) ==> seen[i]
}

/// Nothing that a closed-off set leaves out is got to from outside it.
proof fn lemma_stays_outside(w: int, open: Seq<bool>, seen: Seq<bool>, s: int, i: int, n: nat)
    requires
        closed_off(w, open, seen),
        seen.len() == open.len(),
        0 <= s < open.len(),
        0 <= i < open.len(),
        open[s],
        !seen[s],
        reached(w, open, s, i, n),
    ensures
        !seen[i],
        open[i],
    decreases n,
{
    if n > 0 {
        let m = (n - 1) as nat;
        if reached(w, open, s, i, m) {
            lemma_stays_outside(w, open, seen, s, i, m);
        } else {
            let j = choose|j: int| 0 <= j < open.len() && #[trigger] adjacent(w, j, i) && reached(w, open, s, j, m);
            lemma_stays_outside(w, open, seen, s, j, m);
            assert(adjacent(w, i, j));
        }
    }
}

/// A set of tiles that holds one and is closed off holds all that is got to from it.
proof fn lemma_holds_body(w: int, open: Seq<bool>, seen: Seq<bool>, s: int, i: int, n: nat)
    requires
        closed_off(w, open, seen),
        seen.len() == open.len(),
        0 <= s < open.len(),
        0 <= i < open.len(),
        seen[s],
        reached(w, open, s, i, n),
    ensures
        seen[i],
    decreases n,
{
    if n > 0 {
        let m = (n - 1) as nat;
        if reached(w, open, s, i, m) {
            lemma_holds_body(w, open, seen, s, i, m);
        } else {
            let j = choose|j: int| 0 <= j < open.len() && #[trigger] adjacent(w, j, i) && reached(w, open, s, j, m);
            lemma_holds_body(w, open, seen, s, j, m);
        }
    }
}

/// Marks the body of a tile and gives its size.
fn mark_body(w: u32, h: u32, open: &Vec<bool>, seen: &mut Vec<bool>, start: u32) -> (size: usize)
    requires
        open@.len() == w * h,
        w * h <= u32::MAX,
        old(seen)@.len() == open@.len(),
        closed_off(w as int, open@, old(seen)@),
        start < open@.len(),
        open@[start as int],
        !old(seen)@[start as int],
    ensures
        final(seen)@.len() == open@.len(),
        closed_off(w as int, open@, final(seen)@),
        forall|i: int|
            0 <= i < open@.len() ==> #[trigger] final(seen)@[i] == (old(seen)@[i] || connected(
                w as int,
                open@,
                start as int,
                i,
            )),
        size == body_of(w as int, open@, start as int).len(),
{
    let ghost (wi, o, before) = (w as int, open@, seen@);
    let n: usize = open.len();
    let mut queue: Vec<u32> = Vec::new();
    queue.push(start);
    seen.set(start as usize, true);
    let mut k: usize = 0;
    proof {
        assert(reached(wi, o, start as int, start as int, 0));
        lemma_no_longer(queue@, n as nat);
        assert(queue@[0] == start);
        assert forall|i: int| 0 <= i < n implies #[trigger] seen@[i] == (before[i] || queue@.contains(i as u32)) by {
            if queue@.contains(i as u32) {
                assert(queue@[0] == i as u32);
            }
        }
    }
    while k < queue.len()
        invariant
            n == open@.len() == w * h,
            n <= u32::MAX,
            wi == w,
            o == open@,
            before.len() == n,
            seen@.len() == n,
            start < n,
            k <= queue@.len() <= n,
            queue@.no_duplicates(),
            queue@.contains(start),
            forall|m: int|
                0 <= m < queue@.len() ==> (#[trigger] queue@[m]) < n && seen@[queue@[m] as int] && connected(
                    wi,
                    o,
                    start as int,
                    queue@[m] as int,
                ),
            forall|i: int| 0 <= i < n ==> #[trigger] seen@[i] == (before[i] || queue@.contains(i as u32)),
            forall|m: int, i: int|
                #![trigger adjacent(wi, queue@[m] as int, i)]
                0 <= m < k && 0 <= i < n && o[i] && adjacent(wi, queue@[m] as int, i) ==> seen@[i],
        decreases n - k,
    {
        let at = queue[k];
        let around = neighbours(w, h, at);
        let ghost queue0 = queue@;
        let ghost seen0 = seen@;
        for t in 0..around.len()
            invariant
                n == open@.len() == w * h,
                n <= u32::MAX,
                wi == w,
                o == open@,
                before.len() == n,
                seen@.len() == n,
                seen0.len() == n,
                start < n,
                k < queue0.len() <= queue@.len() <= n,
                queue0 == queue@.take(queue0.len() as int),
                queue@[k as int] == at,
                at < n,
                queue@.no_duplicates(),
                queue@.contains(start),
                connected(wi, o, start as int, at as int),
                forall|j: u32| #[trigger] around@.contains(j) <==> j < w * h && adjacent(wi, at as int, j as int),
                forall|m: int|
                    0 <= m < queue@.len() ==> (#[trigger] queue@[m]) < n && seen@[queue@[m] as int] && connected(
                        wi,
                        o,
                        start as int,
                        queue@[m] as int,
                    ),
                forall|i: int| 0 <= i < n ==> #[trigger] seen@[i] == (before[i] || queue@.contains(i as u32)),
                forall|i: int| 0 <= i < n && #[trigger] seen0[i] ==> seen@[i],
                forall|m: int|
                    0 <= m < t ==> around@[m] < n && (o[around@[m] as int] ==> seen@[(#[trigger] around@[m]) as int]),
        {
            let i = around[t];
            assert(around@.contains(i));
            if !seen[i as usize] && open[i as usize] {
                let ghost queue1 = queue@;
                proof {
                    let m = choose|m: nat| #[trigger] reached(wi, o, start as int, at as int, m);
                    assert(reached(wi, o, start as int, i as int, m + 1));
                    assert forall|q: int| 0 <= q < queue@.len() implies (#[trigger] queue@[q]) != i by {
                    }
                    lemma_no_longer(queue@.push(i), n as nat);
                }
                seen.set(i as usize, true);
                queue.push(i);
                proof {
                    assert forall|v: int| 0 <= v < n implies #[trigger] seen@[v] == (before[v] || queue@.contains(
                        v as u32,
                    )) by {
                        if v == i {
                            assert(queue@[queue1.len() as int] == i);
                        } else if queue1.contains(v as u32) {
                            let q = queue1.index_of(v as u32);
                            assert(queue@[q] == v as u32);
                        } else if queue@.contains(v as u32) {
                            let q = queue@.index_of(v as u32);
                            assert(queue1[q] == v as u32);
                        }
                    }
                    let q = queue1.index_of(start);
                    assert(queue@[q] == start);
                }
            }
        }
        proof {
            assert forall|m: int, i: int|
                #![trigger adjacent(wi, queue@[m] as int, i)]
                0 <= m < k + 1 && 0 <= i < n && o[i] && adjacent(wi, queue@[m] as int, i) implies seen@[i] by {
                if m < k {
                    assert(queue0[m] == queue@[m]);
                    assert(adjacent(wi, queue0[m] as int, i));
                    assert(seen0[i]);
                } else {
                    assert(around@.contains(i as u32));
                    let q = around@.index_of(i as u32);
                    assert(around@[q] == i);
                }
            }
        }
        k = k + 1;
    }
    proof {
        let body = body_of(wi, o, start as int);
        assert forall|i: int| 0 <= i < n && connected(wi, o, start as int, i) implies !before[i] by {
            let m = choose|m: nat| #[trigger] reached(wi, o, start as int, i, m);
            lemma_stays_outside(wi, o, before, start as int, i, m);
        }
        assert(closed_off(wi, o, seen@)) by {
            assert forall|j: int, i: int|
                0 <= j < o.len() && 0 <= i < o.len() && seen@[j] && o[i] && #[trigger] adjacent(wi, j, i) implies seen@[i] by {
                if queue@.contains(j as u32) {
                    let m = queue@.index_of(j as u32);
                    assert(adjacent(wi, queue@[m] as int, i));
                }
            }
        }
        assert forall|i: int| 0 <= i < n && connected(wi, o, start as int, i) implies queue@.contains(i as u32) by {
            let m = choose|m: nat| #[trigger] reached(wi, o, start as int, i, m);
            lemma_holds_body(wi, o, seen@, start as int, i, m);
        }
        let listed = queue@.map_values(|v: u32| v as int);
        assert(listed.no_duplicates()) by {
            assert forall|a: int, b: int| 0 <= a < listed.len() && 0 <= b < listed.len() && a != b implies listed[a]
                != listed[b] by {
                assert(queue@[a] != queue@[b]);
            }
        }
        listed.unique_seq_to_set();
        assert(listed.to_set() =~= body) by {
            assert forall|i: int| listed.to_set().contains(i) <==> body.contains(i) by {
                if listed.contains(i) {
                    let q = listed.index_of(i);
                    assert(queue@[q] == i);
                }
                if body.contains(i) {
                    let q = queue@.index_of(i as u32);
                    assert(listed[q] == i);
                }
            }
        }
    }
    queue.len()
}

/// How many bodies of open tiles there are of at least a size.
pub fn count_bodies(w: u32, h: u32, open: &Vec<bool>, least: usize) -> (count: usize)
    requires
        open@.len() == w * h,
        w * h <= u32::MAX,
    ensures
        count == bodies(w as int, open@, least as nat, open@.len() as int),
{
    let ghost (wi, o) = (w as int, open@);
    let n: usize = open.len();
    let mut seen: Vec<bool> = Vec::new();
    for i in 0..n
        invariant
            seen@.len() == i,
            forall|k: int| 0 <= k < i ==> !#[trigger] seen@[k],
    {
        seen.push(false);
    }
    let mut count: usize = 0;
    for i in 0..n
        invariant
            n == open@.len() == w * h,
            n <= u32::MAX,
            wi == w,
            o == open@,
            seen@.len() == n,
            closed_off(wi, o, seen@),
            forall|v: int|
                0 <= v < n ==> #[trigger] seen@[v] == exists|j: int|
                    0 <= j < i && #[trigger] o[j] && connected(wi, o, j, v),
            count == bodies(wi, o, least as nat, i as int),
            count <= i,
    {
        let ghost before = seen@;
        if open[i] && !seen[i] {
            let size = mark_body(w, h, open, &mut seen, i as u32);
            if size >= least {
                count = count + 1;
            }
        }
        proof {
            assert(opens_body(wi, o, i as int) == (o[i as int] && !before[i as int])) by {
                assert(before[i as int] == exists|j: int| 0 <= j < i && #[trigger] o[j] && connected(wi, o, j, i as int));
            }
            assert forall|v: int| 0 <= v < n implies #[trigger] seen@[v] == exists|j: int|
                0 <= j < i + 1 && #[trigger] o[j] && connected(wi, o, j, v) by {
                assert(before[v] == exists|j: int| 0 <= j < i && #[trigger] o[j] && connected(wi, o, j, v));
                if before[v] {
                    let j = choose|j: int| 0 <= j < i && #[trigger] o[j] && connected(wi, o, j, v);
                    assert(0 <= j < i + 1 && o[j] && connected(wi, o, j, v));
                }
                if o[i as int] && connected(wi, o, i as int, v) && before[i as int] {
                    let m = choose|m: nat| #[trigger] reached(wi, o, i as int, v, m);
                    lemma_holds_body(wi, o, before, i as int, v, m);
                }
            }
        }
    }
    count
}

/// Rows and columns between two tiles.
pub open spec fn apart(w: int, i: int, j: int) -> nat {
    let dx = i % w - j % w;
    let dy = i / w - j / w;
    ((if dx < 0 {
        -dx
    } else {
        dx
    }) + (if dy < 0 {
        -dy
    } else {
        dy
    })) as nat
}

/// Where every tile is open, a tile is reached in so many steps exactly if it
/// is no more rows and columns away.
pub proof fn law_open_ground_is_walked_straight(w: int, h: int, open: Seq<bool>, s: int, i: int, n: nat)
    requires
        0 <= w,
        0 <= h,
        open.len() == w * h,
        forall|k: int| 0 <= k < open.len() ==> #[trigger] open[k],
        0 <= s < open.len(),
        0 <= i < open.len(),
    ensures
        reached(w, open, s, i, n) <==> apart(w, s, i) <= n,
    decreases n,
{
    lemma_back(w, h, s);
    lemma_back(w, h, i);
    if n > 0 {
        let m = (n - 1) as nat;
        law_open_ground_is_walked_straight(w, h, open, s, i, m);
        if reached(w, open, s, i, n) && !reached(w, open, s, i, m) {
            let j = choose|j: int| 0 <= j < open.len() && #[trigger] adjacent(w, j, i) && reached(w, open, s, j, m);
            law_open_ground_is_walked_straight(w, h, open, s, j, m);
        }
        if apart(w, s, i) == n {
            let (xs, ys, xi, yi) = (s % w, s / w, i % w, i / w);
            let (x, y) = if xi < xs {
                (xi + 1, yi)
            } else if xi > xs {
                (xi - 1, yi)
            } else if yi < ys {
                (xi, yi + 1)
            } else {
                (xi, yi - 1)
            };
            lemma_at(w, h, x, y);
            let j = y * w + x;
            law_open_ground_is_walked_straight(w, h, open, s, j, m);
            assert(adjacent(w, j, i));
            assert(open[i]);
        }
    }
}

} // verus!
