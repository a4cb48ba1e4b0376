//! Seeded world generation.
//!
//! A world is a function of its seed and the configuration: everything draws
//! from one stream in a fixed order.

use crate::chance::Stream;
use crate::config::WorldConfig;
use crate::flood::{
    bodies, count_bodies, distance_to, flood, lemma_back, lemma_distance_within, lemma_flood_measures, within,
};
use crate::lists::{first_where, lemma_first_where_is, those_below};
use crate::noise::{fine_cells, fits, octaves, octaves_of, wrapped_sum};
use crate::num::{num, of_int, Num, NOTHING, ONE};
use crate::terrain::Terrain;
use crate::text::{integer, integer_text};
use crate::world::{lemma_tile_index, tile_index, Founder, NodeKind, ResourceNode, World};
use vstd::prelude::*;
use vstd::string::*;

verus! {

/// How far from fresh water a tile may be and still be farmable. Soil is
/// deliberately scarce and contested.
pub const SOIL_WATER_REACH: u32 = 6;

/// A start is viable only if founders can reach water within this many tiles of
/// travel.
pub const VIABLE_WATER_DIST: u32 = 22;

/// The same for forage.
pub const VIABLE_FORAGE_DIST: u32 = 26;

/// Distinct fresh-water bodies a world must have to be worth playing.
pub const MIN_WATER_BODIES: usize = 3;

/// Fewer tiles than this are a puddle.
pub const MIN_WATER_BODY_TILES: usize = 40;

/// Beyond this, distance to soil no longer counts against a start.
pub const SOIL_DISTANCE_CAP: u32 = 60;

/// How many seeds are tried before the last one is taken as it is.
pub const ATTEMPTS: u32 = 24;

/// Places tried for each founder: twelve at each of twenty-four radii.
pub const PLACES_TRIED: u32 = 288;

/// 0.34
pub const DEEP_BELOW: u32 = 0x3EAE_147B;

/// 0.41
pub const SHALLOW_BELOW: u32 = 0x3ED1_EB85;

/// 0.435
pub const SAND_BELOW: u32 = 0x3EDE_B852;

/// 0.755
pub const HILL_ABOVE: u32 = 0x3F41_47AE;

/// 0.6
pub const FOREST_ABOVE: u32 = 0x3F19_999A;

/// 0.47
pub const SOIL_ABOVE: u32 = 0x3EF0_A3D7;

/// 0.53
pub const SOIL_BELOW: u32 = 0x3F07_AE14;

/// 0.25
pub const QUARTER: u32 = 0x3E80_0000;

/// 0.75
pub const THREE_QUARTERS: u32 = 0x3F40_0000;

/// 40.0
pub const WOOD_FULL: u32 = 0x4220_0000;

/// 12.0
pub const FORAGE_FULL: u32 = 0x4140_0000;

/// 24.0
pub const WHEAT_FULL: u32 = 0x41C0_0000;

/// 6.0
pub const SHEEP_FULL: u32 = 0x40C0_0000;

/// What sets the seed of the moisture apart.
pub const MOISTURE_OFFSET: u64 = 90210;

/// What sets the seed of everything placed on the ground apart.
pub const PLACING_OFFSET: u64 = 555;

/// The biome of an elevation and a moisture. Hills stay scarce.
pub open spec fn biome_spec(e: Num, m: Num) -> Terrain {
    if e.lt(num(DEEP_BELOW)) {
        Terrain::DeepWater
    } else if e.lt(num(SHALLOW_BELOW)) {
        Terrain::ShallowWater
    } else if e.lt(num(SAND_BELOW)) {
        Terrain::Sand
    } else if e.gt(num(HILL_ABOVE)) {
        Terrain::Hill
    } else if m.gt(num(FOREST_ABOVE)) {
        Terrain::Forest
    } else if m.gt(num(SOIL_ABOVE)) && e.lt(num(SOIL_BELOW)) {
        Terrain::Soil
    } else {
        Terrain::Grass
    }
}

#[verifier::when_used_as_spec(biome_spec)]
pub fn biome(e: Num, m: Num) -> (t: Terrain)
    ensures
        t == biome_spec(e, m),
{
    if e.lt(num(DEEP_BELOW)) {
        Terrain::DeepWater
    } else if e.lt(num(SHALLOW_BELOW)) {
        Terrain::ShallowWater
    } else if e.lt(num(SAND_BELOW)) {
        Terrain::Sand
    } else if e.gt(num(HILL_ABOVE)) {
        Terrain::Hill
    } else if m.gt(num(FOREST_ABOVE)) {
        Terrain::Forest
    } else if m.gt(num(SOIL_ABOVE)) && e.lt(num(SOIL_BELOW)) {
        Terrain::Soil
    } else {
        Terrain::Grass
    }
}

/// The ground before farmable land is held to the water.
pub open spec fn raw_tiles(w: int, h: int, seed: u64) -> Seq<Terrain> {
    let elev = octaves_of(w, h, seed);
    let moist = octaves_of(w, h, wrapped_sum(seed, MOISTURE_OFFSET));
    Seq::new((w * h) as nat, |i: int| biome(elev[i], moist[i]))
}

/// Where one can travel.
pub open spec fn passable_of(tiles: Seq<Terrain>) -> Seq<bool> {
    Seq::new(tiles.len(), |i: int| tiles[i].passable())
}

/// Where one can drink.
pub open spec fn fresh_of(tiles: Seq<Terrain>) -> Seq<bool> {
    Seq::new(tiles.len(), |i: int| tiles[i].is_fresh_water())
}

pub open spec fn soil_of(tiles: Seq<Terrain>) -> Seq<bool> {
    Seq::new(tiles.len(), |i: int| tiles[i] == Terrain::Soil)
}

/// A tile from which fresh water is within reach.
pub open spec fn watered(w: int, tiles: Seq<Terrain>, i: int) -> bool {
    within(w, passable_of(tiles), fresh_of(tiles), i, SOIL_WATER_REACH as nat)
}

/// Soil out of reach of water is grass.
pub open spec fn restricted(w: int, tiles: Seq<Terrain>) -> Seq<Terrain> {
    Seq::new(
        tiles.len(),
        |i: int|
            if tiles[i] == Terrain::Soil && !watered(w, tiles, i) {
                Terrain::Grass
            } else {
                tiles[i]
            },
    )
}

/// The ground of a seed.
pub open spec fn tiles_of(w: int, h: int, seed: u64) -> Seq<Terrain> {
    restricted(w, raw_tiles(w, h, seed))
}

fn passable_mask(tiles: &Vec<Terrain>) -> (out: Vec<bool>)
    ensures
        out@ == passable_of(tiles@),
{
    let mut out: Vec<bool> = Vec::new();
    for i in 0..tiles.len()
        invariant
            out@.len() == i,
            forall|k: int| 0 <= k < i ==> #[trigger] out@[k] == tiles@[k].passable(),
    {
        out.push(tiles[i].passable());
    }
    assert(out@ == passable_of(tiles@));
    out
}

fn fresh_mask(tiles: &Vec<Terrain>) -> (out: Vec<bool>)
    ensures
        out@ == fresh_of(tiles@),
{
    let mut out: Vec<bool> = Vec::new();
    for i in 0..tiles.len()
        invariant
            out@.len() == i,
            forall|k: int| 0 <= k < i ==> #[trigger] out@[k] == tiles@[k].is_fresh_water(),
    {
        out.push(tiles[i].is_fresh_water());
    }
    assert(out@ == fresh_of(tiles@));
    out
}

fn soil_mask(tiles: &Vec<Terrain>) -> (out: Vec<bool>)
    ensures
        out@ == soil_of(tiles@),
{
    let mut out: Vec<bool> = Vec::new();
    for i in 0..tiles.len()
        invariant
            out@.len() == i,
            forall|k: int| 0 <= k < i ==> #[trigger] out@[k] == (tiles@[k] == Terrain::Soil),
    {
        out.push(tiles[i] == Terrain::Soil);
    }
    assert(out@ == soil_of(tiles@));
    out
}

/// The fewest steps of travel from the tiles of a mask to every tile.
pub open spec fn distances(w: int, tiles: Seq<Terrain>, source: Seq<bool>) -> Seq<u32> {
    Seq::new(tiles.len(), |i: int| distance_to(w, passable_of(tiles), source, i) as u32)
}

/// Distance in tiles to the nearest tile of a mask, by travel over land and
/// shallows; `u32::MAX` where unreachable. Used for both soil placement and the
/// viability check, so they agree on what "within reach" means.
pub fn distance_field(world: &World, source: &Vec<bool>) -> (dist: Vec<u32>)
    requires
        world.wf(),
        world.tiles@.len() <= u32::MAX,
        source@.len() == world.tiles@.len(),
    ensures
        dist@ == distances(world.width as int, world.tiles@, source@),
        forall|i: int, n: nat|
            #![trigger dist@[i], within(world.width as int, passable_of(world.tiles@), source@, i, n)]
            0 <= i < dist@.len() && n < u32::MAX ==> (dist@[i] <= n <==> within(
                world.width as int,
                passable_of(world.tiles@),
                source@,
                i,
                n,
            )),
{
    let open = passable_mask(&world.tiles);
    let f = flood(world.width, world.height, &open, source);
    proof {
        let (w, o) = (world.width as int, open@);
        assert forall|i: int| 0 <= i < world.tiles@.len() implies f.dist@[i] == #[trigger] distances(
            w,
            world.tiles@,
            source@,
        )[i] by {
            lemma_flood_measures(&f, w, o, source@, i);
        }
        assert(f.dist@ == distances(w, world.tiles@, source@));
        assert forall|i: int, n: nat|
            #![trigger f.dist@[i], within(w, o, source@, i, n)]
            0 <= i < f.dist@.len() && n < u32::MAX implies (f.dist@[i] <= n <==> within(w, o, source@, i, n)) by {
            lemma_distance_within(&f, w, o, source@, i, n);
        }
    }
    f.dist
}

/// Farmable land must border water, which is what makes farming a contested
/// position rather than a default.
fn restrict_soil_to_water(world: &mut World)
    requires
        old(world).wf(),
        old(world).tiles@.len() <= u32::MAX,
    ensures
        final(world).tiles@ == restricted(old(world).width as int, old(world).tiles@),
        *final(world) == (World { tiles: final(world).tiles, ..*old(world) }),
{
    let fresh = fresh_mask(&world.tiles);
    let near_water = distance_field(world, &fresh);
    let ghost before = world.tiles@;
    let ghost w = world.width as int;
    let n: usize = world.tiles.len();
    for i in 0..n
        invariant
            n == before.len() == world.tiles@.len(),
            near_water@.len() == before.len(),
            *world == (World { tiles: world.tiles, ..*old(world) }),
            w == world.width,
            forall|k: int, n: nat|
                #![trigger near_water@[k], within(w, passable_of(before), fresh_of(before), k, n)]
                0 <= k < near_water@.len() && n < u32::MAX ==> (near_water@[k] <= n <==> within(
                    w,
                    passable_of(before),
                    fresh_of(before),
                    k,
                    n,
                )),
            forall|k: int| 0 <= k < i ==> #[trigger] world.tiles@[k] == restricted(w, before)[k],
            forall|k: int| i <= k < before.len() ==> #[trigger] world.tiles@[k] == before[k],
    {
        assert(near_water@[i as int] <= SOIL_WATER_REACH <==> watered(w, before, i as int));
        if world.tiles[i] == Terrain::Soil && near_water[i] > SOIL_WATER_REACH {
            world.tiles.set(i, Terrain::Grass);
        }
    }
    assert(world.tiles@ == restricted(w, before));
}

pub open spec fn has_terrain(tiles: Seq<Terrain>, t: Terrain) -> spec_fn(u32) -> bool {
    |i: u32| tiles[i as int] == t
}

/// The tiles of one terrain, in row order.
pub open spec fn pool_of(tiles: Seq<Terrain>, t: Terrain) -> Seq<u32> {
    those_below(tiles.len() as int, has_terrain(tiles, t))
}

fn pool(tiles: &Vec<Terrain>, t: Terrain) -> (out: Vec<u32>)
    requires
        tiles@.len() <= u32::MAX,
    ensures
        out@ == pool_of(tiles@, t),
        forall|k: int| 0 <= k < out@.len() ==> (#[trigger] out@[k]) < tiles@.len() && tiles@[out@[k] as int] == t,
{
    let ghost p = has_terrain(tiles@, t);
    let mut out: Vec<u32> = Vec::new();
    for i in 0..tiles.len()
        invariant
            tiles@.len() <= u32::MAX,
            p == has_terrain(tiles@, t),
            out@ == those_below(i as int, p),
            forall|k: int| 0 <= k < out@.len() ==> (#[trigger] out@[k]) < tiles@.len() && tiles@[out@[k] as int] == t,
    {
        if tiles[i] == t {
            out.push(i as u32);
        }
    }
    out
}

/// How many nodes a fraction of a pool comes to.
pub open spec fn share_of(len: nat, density: Num) -> nat {
    (of_int(len as int) * density).truncated(usize::MAX as nat)
}

/// A node of a kind on a tile, between a quarter and wholly full.
pub open spec fn node_on(kind: NodeKind, w: u32, tile: u32, max: Num, regen: Num, fill: Num) -> ResourceNode {
    ResourceNode {
        kind,
        x: (tile % w) as u32,
        y: (tile / w) as u32,
        quantity: max * (num(QUARTER) + fill * num(THREE_QUARTERS)),
        max_quantity: max,
        regen_rate: regen,
    }
}

/// Nodes scattered over a pool, and the stream after it.
pub open spec fn scattered(
    kind: NodeKind,
    w: u32,
    pool: Seq<u32>,
    max: Num,
    regen: Num,
    n: nat,
    rng: Stream,
) -> (Seq<ResourceNode>, Stream)
    decreases n,
{
    if n == 0 {
        (Seq::empty(), rng)
    } else {
        let (before, s) = scattered(kind, w, pool, max, regen, (n - 1) as nat, rng);
        let t = s.indexed(pool.len());
        (
            before.push(node_on(kind, w, pool[s.index_here(pool.len()) as int], max, regen, t.unit_here())),
            t.stepped(),
        )
    }
}

fn scatter(
    kind: NodeKind,
    w: u32,
    pool: &Vec<u32>,
    density: Num,
    max: Num,
    regen: Num,
    out: &mut Vec<ResourceNode>,
    rng: &mut Stream,
    Ghost(h): Ghost<u32>,
    Ghost(tiles): Ghost<Seq<Terrain>>,
)
    requires
        w > 0,
        pool@.len() > 0,
        tiles.len() == w * h,
        forall|k: int|
            0 <= k < pool@.len() ==> (#[trigger] pool@[k]) < tiles.len() && tiles[pool@[k] as int] == suits(kind),
        all_well_placed(w, h, tiles, old(out)@),
    ensures
        ({
            let (nodes, s) = scattered(kind, w, pool@, max, regen, share_of(pool@.len(), density), *old(rng));
            final(out)@ == old(out)@ + nodes && *final(rng) == s
        }),
        all_well_placed(w, h, tiles, final(out)@),
{
    let n = (Num::from_u64(pool.len() as u64) * density).to_usize();
    let ghost start = *rng;
    let ghost before = out@;
    assert(before + Seq::<ResourceNode>::empty() == before);
    for i in 0..n
        invariant
            w > 0,
            pool@.len() > 0,
            tiles.len() == w * h,
            forall|k: int|
                0 <= k < pool@.len() ==> (#[trigger] pool@[k]) < tiles.len() && tiles[pool@[k] as int] == suits(kind),
            all_well_placed(w, h, tiles, out@),
            out@ == before + scattered(kind, w, pool@, max, regen, i as nat, start).0,
            *rng == scattered(kind, w, pool@, max, regen, i as nat, start).1,
    {
        let ghost so_far = scattered(kind, w, pool@, max, regen, i as nat, start).0;
        let tile = pool[rng.index(pool.len())];
        proof {
            lemma_back(w as int, h as int, tile as int);
        }
        let q = num(QUARTER) + rng.unit() * num(THREE_QUARTERS);
        let node = ResourceNode {
            kind,
            x: tile % w,
            y: tile / w,
            quantity: max * q,
            max_quantity: max,
            regen_rate: regen,
        };
        out.push(node);
        assert((before + so_far).push(node) == before + so_far.push(node));
    }
}

/// A sheep standing on a tile.
pub open spec fn sheep_on_spec(x: u32, y: u32) -> ResourceNode {
    ResourceNode {
        kind: NodeKind::Sheep,
        x,
        y,
        quantity: num(ONE),
        max_quantity: num(SHEEP_FULL),
        regen_rate: num(NOTHING),
    }
}

#[verifier::when_used_as_spec(sheep_on_spec)]
pub fn sheep_on(x: u32, y: u32) -> (n: ResourceNode)
    ensures
        n == sheep_on_spec(x, y),
{
    ResourceNode {
        kind: NodeKind::Sheep,
        x,
        y,
        quantity: num(ONE),
        max_quantity: num(SHEEP_FULL),
        regen_rate: num(NOTHING),
    }
}

/// A tile of a map, where there is one.
pub open spec fn tile_at(w: u32, h: u32, tiles: Seq<Terrain>, x: int, y: int) -> Option<Terrain> {
    if 0 <= x < w && 0 <= y < h {
        Some(tiles[tile_index(w, x, y)])
    } else {
        None
    }
}

/// The sheep of one flock: as many tries around its place, each that falls on
/// grass a sheep.
pub open spec fn flock(w: u32, h: u32, tiles: Seq<Terrain>, home: u32, n: nat, rng: Stream) -> (Seq<ResourceNode>, Stream)
    decreases n,
{
    if n == 0 {
        (Seq::empty(), rng)
    } else {
        let (before, s) = flock(w, h, tiles, home, (n - 1) as nat, rng);
        let x = home % w + s.range_here(-3, 3);
        let t = s.ranged(-3, 3);
        let y = home / w + t.range_here(-3, 3);
        (
            if tile_at(w, h, tiles, x, y) == Some(Terrain::Grass) {
                before.push(sheep_on(x as u32, y as u32))
            } else {
                before
            },
            t.ranged(-3, 3),
        )
    }
}

/// Several flocks, one after the other.
pub open spec fn flocks(w: u32, h: u32, tiles: Seq<Terrain>, grass: Seq<u32>, n: nat, rng: Stream) -> (Seq<
    ResourceNode,
>, Stream)
    decreases n,
{
    if n == 0 {
        (Seq::empty(), rng)
    } else {
        let (before, s) = flocks(w, h, tiles, grass, (n - 1) as nat, rng);
        let home = grass[s.index_here(grass.len()) as int];
        let t = s.indexed(grass.len());
        let (more, u) = flock(w, h, tiles, home, t.small_range_here(3, 6) as nat, t.small_ranged(3, 6));
        (before + more, u)
    }
}

/// The nodes of a map, kind by kind, each on terrain that suits it, and the
/// stream after them.
pub open spec fn nodes_of(cfg: &WorldConfig, tiles: Seq<Terrain>, rng: Stream) -> (Seq<ResourceNode>, Stream) {
    let (w, h) = (cfg.map.width, cfg.map.height);
    let r = cfg.resources;
    let forest = pool_of(tiles, Terrain::Forest);
    let soil = pool_of(tiles, Terrain::Soil);
    let grass = pool_of(tiles, Terrain::Grass);
    let (a, s) = if forest.len() > 0 {
        let (wood, s1) = scattered(
            NodeKind::Wood,
            w,
            forest,
            num(WOOD_FULL),
            r.wood_regen_per_tick,
            share_of(forest.len(), r.wood_density),
            rng,
        );
        let (forage, s2) = scattered(
            NodeKind::Forage,
            w,
            forest,
            num(FORAGE_FULL),
            r.forage_regen_per_tick,
            share_of(forest.len(), r.forage_density),
            s1,
        );
        (wood + forage, s2)
    } else {
        (Seq::empty(), rng)
    };
    let (b, t) = if soil.len() > 0 && cfg.features.wheat {
        let (wheat, t1) = scattered(
            NodeKind::Wheat,
            w,
            soil,
            num(WHEAT_FULL),
            num(NOTHING),
            share_of(soil.len(), r.soil_density),
            s,
        );
        (a + wheat, t1)
    } else {
        (a, s)
    };
    if cfg.features.sheep && grass.len() > 0 {
        let (sheep, u) = flocks(w, h, tiles, grass, r.sheep_flocks as nat, t);
        (b + sheep, u)
    } else {
        (b, t)
    }
}

/// The terrain that a kind of node is found on.
pub open spec fn suits(kind: NodeKind) -> Terrain {
    match kind {
        NodeKind::Wood | NodeKind::Forage => Terrain::Forest,
        NodeKind::Wheat => Terrain::Soil,
        NodeKind::Sheep => Terrain::Grass,
    }
}

/// A node on the map, on terrain that suits it.
pub open spec fn well_placed(w: u32, h: u32, tiles: Seq<Terrain>, n: ResourceNode) -> bool {
    tile_at(w, h, tiles, n.x as int, n.y as int) == Some(suits(n.kind))
}

pub open spec fn all_well_placed(w: u32, h: u32, tiles: Seq<Terrain>, nodes: Seq<ResourceNode>) -> bool {
    forall|k: int| 0 <= k < nodes.len() ==> well_placed(w, h, tiles, #[trigger] nodes[k])
}

/// One flock. Sheep come in flocks, not as a per-tile sprinkle: the point of a
/// flock is that it is somewhere in particular.
fn place_flock(world: &World, home: u32, n: i32, nodes: &mut Vec<ResourceNode>, rng: &mut Stream)
    requires
        world.wf(),
        world.width > 0,
        0 <= n,
        all_well_placed(world.width, world.height, world.tiles@, old(nodes)@),
    ensures
        all_well_placed(world.width, world.height, world.tiles@, final(nodes)@),
        ({
            let (sheep, s) = flock(world.width, world.height, world.tiles@, home, n as nat, *old(rng));
            final(nodes)@ == old(nodes)@ + sheep && *final(rng) == s
        }),
{
    let ghost start = *rng;
    let ghost before = nodes@;
    let ghost (w, h, tiles) = (world.width, world.height, world.tiles@);
    assert(before + Seq::<ResourceNode>::empty() == before);
    let (hx, hy) = (home % world.width, home / world.width);
    for i in 0..n
        invariant
            world.wf(),
            w == world.width,
            h == world.height,
            tiles == world.tiles@,
            hx == home % w,
            hy == home / w,
            all_well_placed(w, h, tiles, nodes@),
            nodes@ == before + flock(w, h, tiles, home, i as nat, start).0,
            *rng == flock(w, h, tiles, home, i as nat, start).1,
    {
        let ghost so_far = flock(w, h, tiles, home, i as nat, start).0;
        let dx = rng.range(-3, 3);
        let dy = rng.range(-3, 3);
        let (x, y) = (hx as i64 + dx, hy as i64 + dy);
        if world.in_bounds(x, y) {
            proof {
                lemma_tile_index(w, h, x as int, y as int);
            }
            if world.at(x as u32, y as u32) == Terrain::Grass {
                let sheep = sheep_on(x as u32, y as u32);
                nodes.push(sheep);
                assert((before + so_far).push(sheep) == before + so_far.push(sheep));
            }
        }
    }
}

/// Resource nodes on terrain that suits them. Eligible tiles are collected per
/// kind first, so a density means "this fraction of the terrain that suits it".
fn place_nodes(world: &mut World, config: &WorldConfig, rng: &mut Stream)
    requires
        old(world).wf(),
        old(world).width == config.map.width,
        old(world).height == config.map.height,
        old(world).tiles@.len() <= u32::MAX,
    ensures
        (final(world).nodes@, *final(rng)) == nodes_of(config, old(world).tiles@, *old(rng)),
        all_well_placed(old(world).width, old(world).height, old(world).tiles@, final(world).nodes@),
        *final(world) == (World { nodes: final(world).nodes, ..*old(world) }),
{
    let r = &config.resources;
    let forest = pool(&world.tiles, Terrain::Forest);
    let soil = pool(&world.tiles, Terrain::Soil);
    let grass = pool(&world.tiles, Terrain::Grass);
    let w = world.width;
    let mut nodes: Vec<ResourceNode> = Vec::new();
    let ghost tiles = world.tiles@;
    proof {
        if w == 0 {
            assert(w * world.height == 0) by (nonlinear_arith)
                requires
                    w == 0,
            ;
        }
        if forest@.len() > 0 {
            assert(forest@[0] < tiles.len());
        }
        if soil@.len() > 0 {
            assert(soil@[0] < tiles.len());
        }
        if grass@.len() > 0 {
            assert(grass@[0] < tiles.len());
        }
    }
    if forest.len() > 0 {
        scatter(
            NodeKind::Wood,
            w,
            &forest,
            r.wood_density,
            num(WOOD_FULL),
            r.wood_regen_per_tick,
            &mut nodes,
            rng,
            Ghost(world.height),
            Ghost(tiles),
        );
        assert(Seq::<ResourceNode>::empty() + nodes@ == nodes@);
        scatter(
            NodeKind::Forage,
            w,
            &forest,
            r.forage_density,
            num(FORAGE_FULL),
            r.forage_regen_per_tick,
            &mut nodes,
            rng,
            Ghost(world.height),
            Ghost(tiles),
        );
    }
    if soil.len() > 0 && config.features.wheat {
        scatter(
            NodeKind::Wheat,
            w,
            &soil,
            r.soil_density,
            num(WHEAT_FULL),
            num(NOTHING),
            &mut nodes,
            rng,
            Ghost(world.height),
            Ghost(tiles),
        );
    }
    if config.features.sheep && grass.len() > 0 {
        let ghost start = *rng;
        let ghost before = nodes@;
        assert(before + Seq::<ResourceNode>::empty() == before);
        for i in 0..r.sheep_flocks
            invariant
                world.wf(),
                w > 0,
                w == world.width,
                tiles == world.tiles@,
                grass@.len() > 0,
                all_well_placed(w, world.height, tiles, nodes@),
                nodes@ == before + flocks(w, world.height, tiles, grass@, i as nat, start).0,
                *rng == flocks(w, world.height, tiles, grass@, i as nat, start).1,
        {
            let ghost so_far = flocks(w, world.height, tiles, grass@, i as nat, start).0;
            let home = grass[rng.index(grass.len())];
            let size = rng.small_range(3, 6);
            let ghost s = *rng;
            place_flock(world, home, size, &mut nodes, rng);
            proof {
                let more = flock(w, world.height, tiles, home, size as nat, s).0;
                assert((before + so_far) + more == before + (so_far + more));
            }
        }
    }
    world.nodes = nodes;
}

/// Where there is forage.
pub open spec fn forage_of(w: u32, tiles: Seq<Terrain>, nodes: Seq<ResourceNode>) -> Seq<bool> {
    Seq::new(tiles.len(), |i: int| bears_forage(w, nodes, i))
}

/// A tile with a forage node on it.
pub open spec fn bears_forage(w: u32, nodes: Seq<ResourceNode>, i: int) -> bool {
    exists|k: int|
        0 <= k < nodes.len() && (#[trigger] nodes[k]).kind == NodeKind::Forage && i == tile_index(
            w,
            nodes[k].x as int,
            nodes[k].y as int,
        )
}

/// Every node stands on the map.
pub open spec fn nodes_inside(w: u32, h: u32, nodes: Seq<ResourceNode>) -> bool {
    forall|k: int| 0 <= k < nodes.len() ==> (#[trigger] nodes[k]).x < w && nodes[k].y < h
}

fn forage_mask(world: &World) -> (out: Vec<bool>)
    requires
        world.wf(),
        nodes_inside(world.width, world.height, world.nodes@),
    ensures
        out@ == forage_of(world.width, world.tiles@, world.nodes@),
{
    let n: usize = world.tiles.len();
    let ghost (w, nodes) = (world.width, world.nodes@);
    let mut out: Vec<bool> = Vec::new();
    for i in 0..n
        invariant
            out@.len() == i,
            forall|k: int| 0 <= k < i ==> !#[trigger] out@[k],
    {
        out.push(false);
    }
    assert forall|i: int| 0 <= i < n implies #[trigger] out@[i] == bears_forage(w, nodes.take(0), i) by {
    }
    for k in 0..world.nodes.len()
        invariant
            world.wf(),
            n == world.tiles@.len(),
            w == world.width,
            nodes == world.nodes@,
            nodes_inside(w, world.height, nodes),
            out@.len() == n,
            forall|i: int| 0 <= i < n ==> #[trigger] out@[i] == bears_forage(w, nodes.take(k as int), i),
    {
        let node = world.nodes[k];
        let ghost before = out@;
        proof {
            assert(nodes[k as int].x < w);
            lemma_tile_index(w, world.height, node.x as int, node.y as int);
        }
        if node.kind == NodeKind::Forage {
            let at = world.idx(node.x, node.y);
            out.set(at, true);
        }
        proof {
            let (a, b) = (nodes.take(k as int), nodes.take(k + 1));
            assert forall|i: int| 0 <= i < n implies #[trigger] out@[i] == bears_forage(w, b, i) by {
                assert(before[i] == bears_forage(w, a, i));
                if bears_forage(w, a, i) {
                    let m = choose|m: int|
                        0 <= m < a.len() && (#[trigger] a[m]).kind == NodeKind::Forage && i == tile_index(
                            w,
                            a[m].x as int,
                            a[m].y as int,
                        );
                    assert(b[m] == a[m]);
                }
                assert(b[k as int] == node);
                if bears_forage(w, b, i) && !bears_forage(w, a, i) {
                    let m = choose|m: int|
                        0 <= m < b.len() && (#[trigger] b[m]).kind == NodeKind::Forage && i == tile_index(
                            w,
                            b[m].x as int,
                            b[m].y as int,
                        );
                    if m < k {
                        assert(a[m] == b[m]);
                    }
                }
            }
        }
    }
    proof {
        assert(nodes.take(nodes.len() as int) == nodes);
        assert(out@ == forage_of(w, world.tiles@, nodes));
    }
    out
}

/// A tile where a start would survive, with how hard it would be: water matters
/// most, then forage, then soil within reach.
pub open spec fn start_score(water: Seq<u32>, forage: Seq<u32>, soil: Seq<u32>, tiles: Seq<Terrain>, i: int) -> Option<
    int,
> {
    if !tiles[i].passable() || tiles[i].is_water() || water[i] > VIABLE_WATER_DIST || forage[i] > VIABLE_FORAGE_DIST {
        None
    } else {
        Some(
            water[i] * 3 + forage[i] * 2 + if soil[i] < SOIL_DISTANCE_CAP {
                soil[i] as int
            } else {
                SOIL_DISTANCE_CAP as int
            },
        )
    }
}

/// The best start among the first `n` tiles: the lowest score, the first in row
/// order among equals.
pub open spec fn best_start(
    water: Seq<u32>,
    forage: Seq<u32>,
    soil: Seq<u32>,
    tiles: Seq<Terrain>,
    n: int,
) -> Option<(int, int)>
    decreases n,
{
    if n <= 0 {
        None
    } else {
        let before = best_start(water, forage, soil, tiles, n - 1);
        match start_score(water, forage, soil, tiles, n - 1) {
            Some(score) => match before {
                Some(b) if b.0 <= score => before,
                _ => Some((score, n - 1)),
            },
            None => before,
        }
    }
}

/// The hearth that founders are dropped around.
pub open spec fn hearth_of(w: u32, tiles: Seq<Terrain>, nodes: Seq<ResourceNode>) -> Option<int> {
    let water = distances(w as int, tiles, fresh_of(tiles));
    let forage = distances(w as int, tiles, forage_of(w, tiles, nodes));
    let soil = distances(w as int, tiles, soil_of(tiles));
    match best_start(water, forage, soil, tiles, tiles.len() as int) {
        Some(b) => Some(b.1),
        None => None,
    }
}

/// Land that can be stood on.
pub open spec fn is_dry_land(t: Terrain) -> bool {
    t.passable() && !t.is_water()
}

/// A place for one founder: tries spiral outward from the hearth, the first on
/// dry land is taken. Also the stream after it.
pub open spec fn place_near(
    w: u32,
    h: u32,
    tiles: Seq<Terrain>,
    hx: int,
    hy: int,
    tried: nat,
    rng: Stream,
) -> (Option<(u32, u32)>, Stream)
    decreases PLACES_TRIED - tried,
{
    if tried >= PLACES_TRIED {
        (None, rng)
    } else {
        let reach = (tried / 12 + 1) as int;
        let x = hx + rng.range_here(-reach, reach);
        let s = rng.ranged(-reach, reach);
        let y = hy + s.range_here(-reach, reach);
        let t = s.ranged(-reach, reach);
        match tile_at(w, h, tiles, x, y) {
            Some(ground) if is_dry_land(ground) => (Some((x as u32, y as u32)), t),
            _ => place_near(w, h, tiles, hx, hy, tried + 1, t),
        }
    }
}

/// The founders placed one after the other; a founder for whom no place is found
/// is left out. Every second one is female, the first included.
pub open spec fn founders_near(
    w: u32,
    h: u32,
    tiles: Seq<Terrain>,
    hearth: int,
    n: nat,
    rng: Stream,
) -> (Seq<Founder>, Stream)
    decreases n,
{
    if n == 0 {
        (Seq::empty(), rng)
    } else {
        let (before, s) = founders_near(w, h, tiles, hearth, (n - 1) as nat, rng);
        let (place, t) = place_near(w, h, tiles, hearth % w as int, hearth / w as int, 0, s);
        (
            match place {
                Some(at) => before.push(Founder { x: at.0, y: at.1, female: (n - 1) % 2 == 0 }),
                None => before,
            },
            t,
        )
    }
}

/// The founders of a map, and the stream after them.
pub open spec fn founders_of(
    cfg: &WorldConfig,
    tiles: Seq<Terrain>,
    nodes: Seq<ResourceNode>,
    rng: Stream,
) -> Seq<Founder> {
    match hearth_of(cfg.map.width, tiles, nodes) {
        Some(hearth) => founders_near(
            cfg.map.width,
            cfg.map.height,
            tiles,
            hearth,
            cfg.map.founder_count as nat,
            rng,
        ).0,
        None => Seq::empty(),
    }
}

/// Within the widest reach of a hearth.
pub open spec fn close_to(x: u32, y: u32, hx: int, hy: int) -> bool {
    hx - 24 <= x <= hx + 24 && hy - 24 <= y <= hy + 24
}

/// Founders within reach of each other: scattered across a whole map they would
/// never meet.
pub open spec fn clustered(founders: Seq<Founder>) -> bool {
    forall|i: int, j: int|
        0 <= i < founders.len() && 0 <= j < founders.len() ==> (#[trigger] founders[i]).x <= (#[trigger] founders[j]).x
            + 48 && founders[i].y <= founders[j].y + 48
}

fn settle(world: &World, hx: u32, hy: u32, rng: &mut Stream) -> (place: Option<(u32, u32)>)
    requires
        world.wf(),
    ensures
        (place, *final(rng)) == place_near(
            world.width,
            world.height,
            world.tiles@,
            hx as int,
            hy as int,
            0,
            *old(rng),
        ),
        place matches Some(at) ==> close_to(at.0, at.1, hx as int, hy as int),
{
    let ghost (w, h, tiles) = (world.width, world.height, world.tiles@);
    let ghost whole = place_near(w, h, tiles, hx as int, hy as int, 0, *rng);
    let mut tried: u32 = 0;
    while tried < PLACES_TRIED
        invariant
            world.wf(),
            w == world.width,
            h == world.height,
            tiles == world.tiles@,
            tried <= PLACES_TRIED,
            whole == place_near(w, h, tiles, hx as int, hy as int, 0, *old(rng)),
            whole == place_near(w, h, tiles, hx as int, hy as int, tried as nat, *rng),
        decreases PLACES_TRIED - tried,
    {
        let reach = (tried / 12 + 1) as i64;
        let dx = rng.range(-reach, reach);
        let dy = rng.range(-reach, reach);
        let (x, y) = (hx as i64 + dx, hy as i64 + dy);
        if world.in_bounds(x, y) {
            proof {
                lemma_tile_index(w, h, x as int, y as int);
            }
            let t = world.at(x as u32, y as u32);
            if t.passable() && !t.is_water() {
                assert(tile_at(w, h, tiles, x as int, y as int) == Some(t));
                return Some((x as u32, y as u32));
            }
        }
        tried = tried + 1;
    }
    None
}

/// The tile where a start is most survivable.
fn choose_hearth(world: &World) -> (hearth: Option<u32>)
    requires
        world.wf(),
        world.tiles@.len() <= u32::MAX,
        nodes_inside(world.width, world.height, world.nodes@),
    ensures
        match hearth {
            Some(i) => i < world.tiles@.len() && hearth_of(world.width, world.tiles@, world.nodes@) == Some(i as int),
            None => hearth_of(world.width, world.tiles@, world.nodes@) is None,
        },
{
    let fresh = fresh_mask(&world.tiles);
    let water = distance_field(world, &fresh);
    let bushes = forage_mask(world);
    let forage = distance_field(world, &bushes);
    let fields = soil_mask(&world.tiles);
    let soil = distance_field(world, &fields);
    let mut best: Option<(u32, u32)> = None;
    let n: usize = world.tiles.len();
    let ghost tiles = world.tiles@;
    for i in 0..n
        invariant
            tiles == world.tiles@,
            n == tiles.len(),
            n <= u32::MAX,
            water@.len() == n,
            forage@.len() == n,
            soil@.len() == n,
            match best {
                Some(b) => best_start(water@, forage@, soil@, tiles, i as int) == Some((b.0 as int, b.1 as int)) && b.1
                    < n,
                None => best_start(water@, forage@, soil@, tiles, i as int) is None,
            },
    {
        let t = world.tiles[i];
        if t.passable() && !t.is_water() && water[i] <= VIABLE_WATER_DIST && forage[i] <= VIABLE_FORAGE_DIST {
            let ds = if soil[i] < SOIL_DISTANCE_CAP {
                soil[i]
            } else {
                SOIL_DISTANCE_CAP
            };
            let score: u32 = water[i] * 3 + forage[i] * 2 + ds;
            let better = match best {
                Some(b) => score < b.0,
                None => true,
            };
            if better {
                best = Some((score, i as u32));
            }
        }
    }
    match best {
        Some(b) => Some(b.1),
        None => None,
    }
}

/// Scores every candidate tile by how survivable a start there is, then drops
/// the founders around the best one. Placement is clustered on purpose: founders
/// scattered across a whole map would never meet.
fn place_founders(world: &mut World, config: &WorldConfig, rng: &mut Stream)
    requires
        old(world).wf(),
        old(world).width == config.map.width,
        old(world).height == config.map.height,
        old(world).tiles@.len() <= u32::MAX,
        old(world).founders@.len() == 0,
        nodes_inside(old(world).width, old(world).height, old(world).nodes@),
    ensures
        final(world).founders@ == founders_of(config, old(world).tiles@, old(world).nodes@, *old(rng)),
        clustered(final(world).founders@),
        *final(world) == (World { founders: final(world).founders, ..*old(world) }),
{
    let Some(hearth) = choose_hearth(world) else {
        assert(world.founders@ == Seq::<Founder>::empty());
        return ;
    };
    let w = world.width;
    let h = world.height;
    proof {
        lemma_back(w as int, h as int, hearth as int);
    }
    let (hx, hy) = (hearth % w, hearth / w);
    let ghost start = *rng;
    let ghost tiles = world.tiles@;
    let mut founders: Vec<Founder> = Vec::new();
    for k in 0..config.map.founder_count
        invariant
            world.wf(),
            w == world.width,
            h == world.height,
            tiles == world.tiles@,
            hx == hearth as int % w as int,
            hy == hearth as int / w as int,
            founders@ == founders_near(w, h, tiles, hearth as int, k as nat, start).0,
            forall|i: int|
                0 <= i < founders@.len() ==> close_to((#[trigger] founders@[i]).x, founders@[i].y, hx as int, hy as int),
            *rng == founders_near(w, h, tiles, hearth as int, k as nat, start).1,
    {
        if let Some((x, y)) = settle(world, hx, hy, rng) {
            founders.push(Founder { x, y, female: k % 2 == 0 });
        }
    }
    world.founders = founders;
}

/// Why a world is not worth playing.
#[derive(Debug, Clone, Copy, PartialEq, Eq, Structural)]
pub enum Unviable {
    NoFounders,
    FewFounders { placed: usize },
    FewWaterBodies { bodies: usize },
    NoForage,
    NoSoil,
    FarFromWater { x: u32, y: u32, dist: u32 },
}

impl Unviable {
    pub open spec fn text(self) -> Seq<char> {
        match self {
            Unviable::NoFounders => "no viable founder placement"@,
            Unviable::FewFounders { placed } => "only "@ + integer_text(placed as int) + " founders placed"@,
            Unviable::FewWaterBodies { bodies } => "only "@ + integer_text(bodies as int)
                + " distinct fresh water bodies"@,
            Unviable::NoForage => "no forage nodes"@,
            Unviable::NoSoil => "no farmable soil"@,
            Unviable::FarFromWater { x, y, dist } => "founder at "@ + integer_text(x as int) + ","@ + integer_text(
                y as int,
            ) + " is "@ + integer_text(dist as int) + " tiles from water"@,
        }
    }

    pub fn message(self) -> (s: String)
        requires
            self matches Unviable::FewWaterBodies { bodies } ==> bodies <= i64::MAX,
            self matches Unviable::FewFounders { placed } ==> placed <= i64::MAX,
        ensures
            s@ == self.text(),
    {
        match self {
            Unviable::NoFounders => "no viable founder placement".to_owned(),
            Unviable::FewFounders { placed } => {
                let mut s = "only ".to_owned();
                let n = integer(placed as i64);
                s.append(n.as_str());
                s.append(" founders placed");
                s
            },
            Unviable::FewWaterBodies { bodies } => {
                let mut s = "only ".to_owned();
                let n = integer(bodies as i64);
                s.append(n.as_str());
                s.append(" distinct fresh water bodies");
                s
            },
            Unviable::NoForage => "no forage nodes".to_owned(),
            Unviable::NoSoil => "no farmable soil".to_owned(),
            Unviable::FarFromWater { x, y, dist } => {
                let mut s = "founder at ".to_owned();
                let n = integer(x as i64);
                s.append(n.as_str());
                s.append(",");
                let n = integer(y as i64);
                s.append(n.as_str());
                s.append(" is ");
                let n = integer(dist as i64);
                s.append(n.as_str());
                s.append(" tiles from water");
                s
            },
        }
    }
}

/// How many bodies of fresh water there are, puddles left out.
pub open spec fn water_bodies(w: u32, tiles: Seq<Terrain>) -> nat {
    bodies(w as int, fresh_of(tiles), MIN_WATER_BODY_TILES as nat, tiles.len() as int)
}

/// How far a founder has to go for water.
pub open spec fn water_from(w: u32, tiles: Seq<Terrain>, f: Founder) -> u32 {
    distances(w as int, tiles, fresh_of(tiles))[tile_index(w, f.x as int, f.y as int)]
}

/// The first founder who has too far to go.
pub open spec fn stranded(w: u32, tiles: Seq<Terrain>) -> spec_fn(Founder) -> bool {
    |f: Founder| water_from(w, tiles, f) > VIABLE_WATER_DIST
}

pub open spec fn has_forage(nodes: Seq<ResourceNode>) -> bool {
    exists|k: int| 0 <= k < nodes.len() && (#[trigger] nodes[k]).kind == NodeKind::Forage
}

/// What is wrong with a world, the first thing that is.
pub open spec fn verdict(
    w: u32,
    tiles: Seq<Terrain>,
    nodes: Seq<ResourceNode>,
    founders: Seq<Founder>,
) -> Result<(), Unviable> {
    let far = first_where(founders, stranded(w, tiles));
    if founders.len() == 0 {
        Err(Unviable::NoFounders)
    } else if founders.len() < 2 {
        Err(Unviable::FewFounders { placed: founders.len() as usize })
    } else if water_bodies(w, tiles) < MIN_WATER_BODIES {
        Err(Unviable::FewWaterBodies { bodies: water_bodies(w, tiles) as usize })
    } else if !has_forage(nodes) {
        Err(Unviable::NoForage)
    } else if !tiles.contains(Terrain::Soil) {
        Err(Unviable::NoSoil)
    } else if far < founders.len() {
        let f = founders[far];
        Err(Unviable::FarFromWater { x: f.x, y: f.y, dist: water_from(w, tiles, f) })
    } else {
        Ok(())
    }
}

/// Every founder stands on the map.
pub open spec fn founders_inside(w: u32, h: u32, founders: Seq<Founder>) -> bool {
    forall|k: int| 0 <= k < founders.len() ==> (#[trigger] founders[k]).x < w && founders[k].y < h
}

/// Distinct bodies of shallow water, ignoring puddles.
pub fn count_water_bodies(world: &World) -> (n: usize)
    requires
        world.wf(),
        world.tiles@.len() <= u32::MAX,
    ensures
        n == water_bodies(world.width, world.tiles@),
{
    let fresh = fresh_mask(&world.tiles);
    count_bodies(world.width, world.height, &fresh, MIN_WATER_BODY_TILES)
}

fn any_forage(nodes: &Vec<ResourceNode>) -> (r: bool)
    ensures
        r == has_forage(nodes@),
{
    for k in 0..nodes.len()
        invariant
            forall|j: int| 0 <= j < k ==> (#[trigger] nodes@[j]).kind != NodeKind::Forage,
    {
        if nodes[k].kind == NodeKind::Forage {
            assert(nodes@[k as int].kind == NodeKind::Forage);
            return true;
        }
    }
    false
}

fn any_soil(tiles: &Vec<Terrain>) -> (r: bool)
    ensures
        r == tiles@.contains(Terrain::Soil),
{
    for k in 0..tiles.len()
        invariant
            forall|j: int| 0 <= j < k ==> #[trigger] tiles@[j] != Terrain::Soil,
    {
        if tiles[k] == Terrain::Soil {
            assert(tiles@[k as int] == Terrain::Soil);
            return true;
        }
    }
    false
}

/// Rejects worlds the founders cannot survive from the first tick.
pub fn check_viability(world: &World) -> (r: Result<(), Unviable>)
    requires
        world.wf(),
        world.tiles@.len() <= u32::MAX,
        founders_inside(world.width, world.height, world.founders@),
    ensures
        r == verdict(world.width, world.tiles@, world.nodes@, world.founders@),
{
    if world.founders.len() == 0 {
        return Err(Unviable::NoFounders);
    }
    if world.founders.len() < 2 {
        return Err(Unviable::FewFounders { placed: world.founders.len() });
    }
    let bodies = count_water_bodies(world);
    if bodies < MIN_WATER_BODIES {
        return Err(Unviable::FewWaterBodies { bodies });
    }
    let fresh = fresh_mask(&world.tiles);
    let water = distance_field(world, &fresh);
    if !any_forage(&world.nodes) {
        return Err(Unviable::NoForage);
    }
    if !any_soil(&world.tiles) {
        return Err(Unviable::NoSoil);
    }
    let ghost (w, tiles, founders) = (world.width, world.tiles@, world.founders@);
    let ghost p = stranded(w, tiles);
    for k in 0..world.founders.len()
        invariant
            world.wf(),
            w == world.width,
            tiles == world.tiles@,
            founders == world.founders@,
            founders_inside(w, world.height, founders),
            water@ == distances(w as int, tiles, fresh_of(tiles)),
            founders.len() >= 2,
            water_bodies(w, tiles) >= MIN_WATER_BODIES,
            has_forage(world.nodes@),
            tiles.contains(Terrain::Soil),
            p == stranded(w, tiles),
            forall|j: int| 0 <= j < k ==> !p(#[trigger] founders[j]),
    {
        let f = world.founders[k];
        proof {
            assert(founders[k as int].x < w);
            lemma_tile_index(w, world.height, f.x as int, f.y as int);
            assert(world.tiles@.len() == world.tiles.len());
        }
        let i = world.idx(f.x, f.y);
        if water[i] > VIABLE_WATER_DIST {
            proof {
                lemma_first_where_is(founders, p, k as int);
            }
            return Err(Unviable::FarFromWater { x: f.x, y: f.y, dist: water[i] });
        }
    }
    proof {
        lemma_first_where_is(founders, p, founders.len() as int);
    }
    Ok(())
}

/// The world that a seed and a configuration stand for.
pub open spec fn is_generated(world: &World, seed: u64, cfg: &WorldConfig) -> bool {
    &&& world.width == cfg.map.width
    &&& world.height == cfg.map.height
    &&& world.chunk_size == cfg.map.chunk_size
    &&& world.seed == seed
    &&& world.tiles@ == ground_of(seed, cfg)
    &&& world.nodes@ == growth_of(seed, cfg).0
    &&& world.founders@ == people_of(seed, cfg)
}

#[verifier::opaque]
pub open spec fn ground_of(seed: u64, cfg: &WorldConfig) -> Seq<Terrain> {
    tiles_of(cfg.map.width as int, cfg.map.height as int, seed)
}

/// The nodes of a seed, and the stream after them.
#[verifier::opaque]
pub open spec fn growth_of(seed: u64, cfg: &WorldConfig) -> (Seq<ResourceNode>, Stream) {
    nodes_of(cfg, ground_of(seed, cfg), (Stream { seed: wrapped_sum(seed, PLACING_OFFSET), pos: 0 }))
}

/// The founders of a seed.
#[verifier::opaque]
pub open spec fn people_of(seed: u64, cfg: &WorldConfig) -> Seq<Founder> {
    founders_of(cfg, ground_of(seed, cfg), growth_of(seed, cfg).0, growth_of(seed, cfg).1)
}

/// Whether the world of a seed is worth playing.
pub open spec fn seed_verdict(seed: u64, cfg: &WorldConfig) -> Result<(), Unviable> {
    verdict(cfg.map.width, ground_of(seed, cfg), growth_of(seed, cfg).0, people_of(seed, cfg))
}

/// A map that can be held in memory.
pub open spec fn map_fits(cfg: &WorldConfig) -> bool {
    let (w, h) = (cfg.map.width as int, cfg.map.height as int);
    fits(w, h, fine_cells(w)) && w * h <= u32::MAX
}

/// Whether a map of the size that is asked for can be held in memory.
pub fn can_generate(cfg: &WorldConfig) -> (r: bool)
    ensures
        r == map_fits(cfg),
{
    let w = cfg.map.width;
    let h = cfg.map.height;
    if w >= 0x100_0000 || h >= 0x100_0000 {
        return false;
    }
    let spread: u64 = w as u64 * 20 / 256;
    let cells: u64 = if spread > 4 {
        spread
    } else {
        4
    };
    assert(cells == fine_cells(w as int));
    assert(w * h <= 0xff_ffff * 0xff_ffff) by (nonlinear_arith)
        requires
            0 <= w <= 0xff_ffff,
            0 <= h <= 0xff_ffff,
    ;
    let tiles: u64 = w as u64 * h as u64;
    assert((cells + 2) * (cells + 2) <= 0x80_0001 * 0x80_0001) by (nonlinear_arith)
        requires
            0 <= cells <= 0x7f_ffff,
    ;
    let corners: u64 = (cells + 2) * (cells + 2);
    tiles <= u32::MAX as u64 && corners <= usize::MAX as u64
}

proof fn lemma_founders_inside(w: u32, h: u32, tiles: Seq<Terrain>, hearth: int, n: nat, rng: Stream)
    ensures
        forall|k: int|
            0 <= k < founders_near(w, h, tiles, hearth, n, rng).0.len() ==> {
                let f = #[trigger] founders_near(w, h, tiles, hearth, n, rng).0[k];
                tile_at(w, h, tiles, f.x as int, f.y as int) matches Some(t) && is_dry_land(t)
            },
    decreases n,
{
    if n > 0 {
        lemma_founders_inside(w, h, tiles, hearth, (n - 1) as nat, rng);
        let (before, s) = founders_near(w, h, tiles, hearth, (n - 1) as nat, rng);
        lemma_place_is_dry(w, h, tiles, hearth % w as int, hearth / w as int, 0, s);
        let all = founders_near(w, h, tiles, hearth, n, rng).0;
        assert forall|k: int| 0 <= k < all.len() implies {
            let f = #[trigger] all[k];
            tile_at(w, h, tiles, f.x as int, f.y as int) matches Some(t) && is_dry_land(t)
        } by {
            if k < before.len() {
                assert(all[k] == before[k]);
            }
        }
    }
}

proof fn lemma_place_is_dry(w: u32, h: u32, tiles: Seq<Terrain>, hx: int, hy: int, tried: nat, rng: Stream)
    ensures
        place_near(w, h, tiles, hx, hy, tried, rng).0 matches Some(at) ==> tile_at(
            w,
            h,
            tiles,
            at.0 as int,
            at.1 as int,
        ) matches Some(t) && is_dry_land(t),
    decreases PLACES_TRIED - tried,
{
    if tried < PLACES_TRIED {
        let reach = (tried / 12 + 1) as int;
        let s = rng.ranged(-reach, reach);
        let t = s.ranged(-reach, reach);
        lemma_place_is_dry(w, h, tiles, hx, hy, tried + 1, t);
    }
}

/// Founders land on passable, dry ground of the map.
pub proof fn law_founders_stand_on_dry_land(
    cfg: &WorldConfig,
    tiles: Seq<Terrain>,
    nodes: Seq<ResourceNode>,
    rng: Stream,
)
    ensures
        forall|k: int|
            0 <= k < founders_of(cfg, tiles, nodes, rng).len() ==> {
                let f = #[trigger] founders_of(cfg, tiles, nodes, rng)[k];
                tile_at(cfg.map.width, cfg.map.height, tiles, f.x as int, f.y as int) matches Some(t) && is_dry_land(t)
            },
{
    if let Some(hearth) = hearth_of(cfg.map.width, tiles, nodes) {
        lemma_founders_inside(cfg.map.width, cfg.map.height, tiles, hearth, cfg.map.founder_count as nat, rng);
    }
}

/// Soil survives only within reach of fresh water, on the ground as it was left.
pub proof fn law_soil_is_near_water(w: int, tiles: Seq<Terrain>, i: int)
    requires
        0 <= i < tiles.len(),
        restricted(w, tiles)[i] == Terrain::Soil,
    ensures
        watered(w, restricted(w, tiles), i),
{
    let after = restricted(w, tiles);
    assert(passable_of(after) == passable_of(tiles));
    assert(fresh_of(after) == fresh_of(tiles));
}

/// A world is settled by its seed and configuration: two generated from the same
/// are the same.
pub proof fn law_same_seed_same_world(a: &World, b: &World, seed: u64, cfg: &WorldConfig)
    requires
        is_generated(a, seed, cfg),
        is_generated(b, seed, cfg),
    ensures
        a.tiles@ == b.tiles@,
        a.nodes@ == b.nodes@,
        a.founders@ == b.founders@,
        a.width == b.width,
        a.height == b.height,
        a.chunk_size == b.chunk_size,
        a.seed == b.seed,
{
}

proof fn lemma_scattered_kind(
    kind: NodeKind,
    w: u32,
    pool: Seq<u32>,
    max: Num,
    regen: Num,
    n: nat,
    rng: Stream,
)
    ensures
        forall|k: int|
            0 <= k < scattered(kind, w, pool, max, regen, n, rng).0.len() ==> (#[trigger] scattered(
                kind,
                w,
                pool,
                max,
                regen,
                n,
                rng,
            ).0[k]).kind == kind,
    decreases n,
{
    if n > 0 {
        lemma_scattered_kind(kind, w, pool, max, regen, (n - 1) as nat, rng);
    }
}

proof fn lemma_flock_kind(w: u32, h: u32, tiles: Seq<Terrain>, home: u32, n: nat, rng: Stream)
    ensures
        forall|k: int|
            0 <= k < flock(w, h, tiles, home, n, rng).0.len() ==> (#[trigger] flock(w, h, tiles, home, n, rng).0[k]).kind
                == NodeKind::Sheep,
    decreases n,
{
    if n > 0 {
        lemma_flock_kind(w, h, tiles, home, (n - 1) as nat, rng);
    }
}

proof fn lemma_flocks_kind(w: u32, h: u32, tiles: Seq<Terrain>, grass: Seq<u32>, n: nat, rng: Stream)
    ensures
        forall|k: int|
            0 <= k < flocks(w, h, tiles, grass, n, rng).0.len() ==> (#[trigger] flocks(w, h, tiles, grass, n, rng).0[k]).kind
                == NodeKind::Sheep,
    decreases n,
{
    if n > 0 {
        lemma_flocks_kind(w, h, tiles, grass, (n - 1) as nat, rng);
        let (_, s) = flocks(w, h, tiles, grass, (n - 1) as nat, rng);
        let home = grass[s.index_here(grass.len()) as int];
        let t = s.indexed(grass.len());
        lemma_flock_kind(w, h, tiles, home, t.small_range_here(3, 6) as nat, t.small_ranged(3, 6));
    }
}

/// With wheat switched off no wheat grows, and with sheep switched off no sheep
/// graze.
pub proof fn law_switches_are_obeyed(cfg: &WorldConfig, tiles: Seq<Terrain>, rng: Stream, k: int)
    requires
        0 <= k < nodes_of(cfg, tiles, rng).0.len(),
    ensures
        nodes_of(cfg, tiles, rng).0[k].kind == NodeKind::Wheat ==> cfg.features.wheat,
        nodes_of(cfg, tiles, rng).0[k].kind == NodeKind::Sheep ==> cfg.features.sheep,
{
    let (w, h) = (cfg.map.width, cfg.map.height);
    let r = cfg.resources;
    let forest = pool_of(tiles, Terrain::Forest);
    let grass = pool_of(tiles, Terrain::Grass);
    let wood_n = share_of(forest.len(), r.wood_density);
    let forage_n = share_of(forest.len(), r.forage_density);
    let s1 = scattered(NodeKind::Wood, w, forest, num(WOOD_FULL), r.wood_regen_per_tick, wood_n, rng).1;
    lemma_scattered_kind(NodeKind::Wood, w, forest, num(WOOD_FULL), r.wood_regen_per_tick, wood_n, rng);
    lemma_scattered_kind(NodeKind::Forage, w, forest, num(FORAGE_FULL), r.forage_regen_per_tick, forage_n, s1);
    let s = if forest.len() > 0 {
        scattered(NodeKind::Forage, w, forest, num(FORAGE_FULL), r.forage_regen_per_tick, forage_n, s1).1
    } else {
        rng
    };
    let soil = pool_of(tiles, Terrain::Soil);
    let wheat_n = share_of(soil.len(), r.soil_density);
    lemma_scattered_kind(NodeKind::Wheat, w, soil, num(WHEAT_FULL), num(NOTHING), wheat_n, s);
    let t = if soil.len() > 0 && cfg.features.wheat {
        scattered(NodeKind::Wheat, w, soil, num(WHEAT_FULL), num(NOTHING), wheat_n, s).1
    } else {
        s
    };
    lemma_flocks_kind(w, h, tiles, grass, r.sheep_flocks as nat, t);
}

fn generate_once(seed: u64, config: &WorldConfig) -> (world: World)
    requires
        map_fits(config),
    ensures
        is_generated(&world, seed, config),
        world.wf(),
        all_well_placed(world.width, world.height, world.tiles@, world.nodes@),
        clustered(world.founders@),
        founders_inside(world.width, world.height, world.founders@),
{
    proof {
        reveal(ground_of);
        reveal(growth_of);
        reveal(people_of);
    }
    let (w, h) = (config.map.width as usize, config.map.height as usize);
    let elev = octaves(w, h, seed);
    let moist = octaves(w, h, seed.wrapping_add(MOISTURE_OFFSET));
    let mut tiles: Vec<Terrain> = Vec::new();
    let n: usize = elev.len();
    for i in 0..n
        invariant
            n == elev@.len() == moist@.len(),
            tiles@.len() == i,
            forall|k: int| 0 <= k < i ==> #[trigger] tiles@[k] == biome(elev@[k], moist@[k]),
    {
        tiles.push(biome(elev[i], moist[i]));
    }
    assert(tiles@ == raw_tiles(w as int, h as int, seed));
    let mut world = World {
        width: config.map.width,
        height: config.map.height,
        chunk_size: config.map.chunk_size,
        seed,
        tiles,
        nodes: Vec::new(),
        founders: Vec::new(),
    };
    proof {
        assert(w * h >= 0) by (nonlinear_arith)
            requires
                w >= 0,
                h >= 0,
        ;
    }
    restrict_soil_to_water(&mut world);
    let mut rng = Stream::seeded(seed.wrapping_add(PLACING_OFFSET));
    place_nodes(&mut world, config, &mut rng);
    assert(nodes_inside(world.width, world.height, world.nodes@)) by {
        assert forall|k: int| 0 <= k < world.nodes@.len() implies (#[trigger] world.nodes@[k]).x < world.width
            && world.nodes@[k].y < world.height by {
            assert(well_placed(world.width, world.height, world.tiles@, world.nodes@[k]));
        }
    }
    let ghost after = rng;
    place_founders(&mut world, config, &mut rng);
    proof {
        law_founders_stand_on_dry_land(config, world.tiles@, world.nodes@, after);
    }
    world
}

/// A generated world.
pub struct GenOutcome {
    pub world: World,
    /// How many seeds were rejected by the viability check before this one.
    pub rejected: u32,
}

/// The seed tried after one that was rejected.
pub open spec fn next_seed(seed: u64) -> u64 {
    ((seed as int * 6364136223846793005 + 1) % 0x1_0000_0000_0000_0000) as u64
}

/// The seed of an attempt.
pub open spec fn seed_at(seed: u64, attempt: nat) -> u64
    decreases attempt,
{
    if attempt == 0 {
        seed
    } else {
        next_seed(seed_at(seed, (attempt - 1) as nat))
    }
}

fn following(seed: u64) -> (r: u64)
    ensures
        r == next_seed(seed),
{
    let product: u128 = seed as u128 * 6364136223846793005u128;
    let next: u128 = (product + 1) % 0x1_0000_0000_0000_0000u128;
    next as u64
}

/// Generates a viable world. If the requested seed produces an unplayable world,
/// derives a new one and tries again rather than handing back a world that is
/// unwinnable from the first tick. Where every seed of the chain fails, which
/// means the thresholds are wrong rather than the seed, the last one is handed
/// back.
pub fn generate(seed: u64, config: &WorldConfig) -> (out: GenOutcome)
    requires
        map_fits(config),
    ensures
        out.rejected <= ATTEMPTS,
        forall|k: nat| k < out.rejected ==> #[trigger] seed_verdict(seed_at(seed, k), config) is Err,
        out.rejected < ATTEMPTS ==> seed_verdict(seed_at(seed, out.rejected as nat), config) is Ok,
        is_generated(&out.world, seed_at(seed, out.rejected as nat), config),
        out.world.wf(),
        all_well_placed(out.world.width, out.world.height, out.world.tiles@, out.world.nodes@),
        clustered(out.world.founders@),
        founders_inside(out.world.width, out.world.height, out.world.founders@),
{
    let mut attempt_seed = seed;
    let mut rejected: u32 = 0;
    while rejected < ATTEMPTS
        invariant
            map_fits(config),
            rejected <= ATTEMPTS,
            attempt_seed == seed_at(seed, rejected as nat),
            forall|k: nat| k < rejected ==> #[trigger] seed_verdict(seed_at(seed, k), config) is Err,
        decreases ATTEMPTS - rejected,
    {
        let world = generate_once(attempt_seed, config);
        if check_viability(&world).is_ok() {
            return GenOutcome { world, rejected };
        }
        attempt_seed = following(attempt_seed);
        rejected = rejected + 1;
    }
    GenOutcome { world: generate_once(attempt_seed, config), rejected: ATTEMPTS }
}

} // verus!
