//! What the land is like that a world is made of: how terrain follows elevation and
//! moisture, what grows where and how much of it, and where people can settle.

use crate::chance::Stream;
use crate::config::WorldConfig;
use crate::flood::{bodies, within};
use crate::lists::{first_where, lemma_first_where};
use crate::noise::{octaves_of, wrapped_sum};
use crate::num::{
    law_a_share_is_no_more, law_adding_more_makes_no_less, law_more_times_is_no_less, law_nothing_changes_nothing,
    law_products_commute, lemma_parts_of_one, num, Num, NOTHING,
};
use crate::terrain::Terrain;
use crate::world::{Founder, NodeKind, ResourceNode};
use crate::worldgen::{
    best_start, biome, flock, flocks, founders_near, fresh_of, next_seed, node_on, nodes_of, passable_of, pool_of,
    raw_tiles, scattered, seed_at, share_of, sheep_on, start_score, stranded, suits, tiles_of, verdict, water_bodies,
    water_from, watered, Unviable, FORAGE_FULL, HILL_ABOVE, MOISTURE_OFFSET, QUARTER, SAND_BELOW, THREE_QUARTERS,
    WHEAT_FULL, WOOD_FULL,
};
use vstd::prelude::*;

verus! {

/// Terrain follows elevation: above 0.755 the ground is a hill and nowhere else,
/// below 0.34 it is deep water and from there up to 0.41 shallow, and the band above
/// the water up to 0.435 is sand and nothing else is.
pub proof fn law_terrain_follows_elevation(w: int, h: int, seed: u64, i: int)
    requires
        0 <= i < w * h,
    ensures
        ({
            let e = octaves_of(w, h, seed)[i];
            let t = tiles_of(w, h, seed)[i];
            &&& t == Terrain::DeepWater <==> e.lt(num(0x3EAE_147B))
            &&& t == Terrain::ShallowWater <==> e.lt(num(0x3ED1_EB85)) && !e.lt(num(0x3EAE_147B))
            &&& t == Terrain::Sand <==> e.lt(num(0x3EDE_B852)) && !e.lt(num(0x3ED1_EB85))
            &&& t == Terrain::Hill <==> num(0x3F41_47AE).lt(e)
        }),
{
    assert(num(SAND_BELOW).rank() < num(HILL_ABOVE).rank());
}

/// Higher ground is drier: of two tiles, the higher is not under water unless the
/// lower is, and is no lower kind of water; and the lower is not a hill unless the
/// higher is.
pub proof fn law_higher_ground_is_drier(low: Num, high: Num, m: Num, n: Num)
    requires
        low.le(high),
    ensures
        biome(high, n).is_water() ==> biome(low, m).is_water(),
        biome(high, n) == Terrain::DeepWater ==> biome(low, m) == Terrain::DeepWater,
        biome(low, m) == Terrain::Hill ==> biome(high, n) == Terrain::Hill,
        biome(high, n) == Terrain::Sand ==> biome(low, m) == Terrain::Sand || biome(low, m).is_water(),
{
}

/// On dry ground that is neither sand nor hill, what grows follows moisture: it is
/// forest exactly where moisture is above 0.6, and the more damp of two tiles is
/// forest if the other is. Soil is damp, above 0.47, low, below 0.53, and within six
/// steps of fresh water; what is otherwise is grass.
pub proof fn law_growth_follows_moisture(w: int, h: int, seed: u64, i: int)
    requires
        0 <= i < w * h,
    ensures
        ({
            let e = octaves_of(w, h, seed)[i];
            let m = octaves_of(w, h, wrapped_sum(seed, MOISTURE_OFFSET))[i];
            let raw = raw_tiles(w, h, seed);
            let t = tiles_of(w, h, seed)[i];
            let open_ground = !e.lt(num(0x3EDE_B852)) && !num(0x3F41_47AE).lt(e);
            let near_water = within(w, passable_of(raw), fresh_of(raw), i, 6);
            &&& t == Terrain::Forest <==> open_ground && num(0x3F19_999A).lt(m)
            &&& t == Terrain::Soil <==> open_ground && !num(0x3F19_999A).lt(m) && num(0x3EF0_A3D7).lt(m) && e.lt(
                num(0x3F07_AE14),
            ) && near_water
            &&& t == Terrain::Grass ==> open_ground && !num(0x3F19_999A).lt(m)
        }),
{
    let e = octaves_of(w, h, seed)[i];
    let m = octaves_of(w, h, wrapped_sum(seed, MOISTURE_OFFSET))[i];
    let raw = raw_tiles(w, h, seed);
    assert(raw[i] == biome(e, m));
    assert(watered(w, raw, i) == within(w, passable_of(raw), fresh_of(raw), i, 6));
    assert(tiles_of(w, h, seed)[i] == if raw[i] == Terrain::Soil && !watered(w, raw, i) {
        Terrain::Grass
    } else {
        raw[i]
    });
    lemma_growth(e, m);
}

proof fn lemma_growth(e: Num, m: Num)
    ensures
        ({
            let t = biome(e, m);
            let open_ground = !e.lt(num(0x3EDE_B852)) && !num(0x3F41_47AE).lt(e);
            &&& t == Terrain::Forest <==> open_ground && num(0x3F19_999A).lt(m)
            &&& t == Terrain::Soil <==> open_ground && !num(0x3F19_999A).lt(m) && num(0x3EF0_A3D7).lt(m) && e.lt(
                num(0x3F07_AE14),
            )
            &&& t == Terrain::Grass ==> open_ground && !num(0x3F19_999A).lt(m)
        }),
{
}

/// Trees and forage grow in forest, wheat on soil, and sheep graze on grass.
pub proof fn law_what_grows_where(kind: NodeKind)
    ensures
        suits(NodeKind::Wood) == Terrain::Forest,
        suits(NodeKind::Forage) == Terrain::Forest,
        suits(NodeKind::Wheat) == Terrain::Soil,
        suits(NodeKind::Sheep) == Terrain::Grass,
{
}

/// A new world holds as many trees, forage patches and fields, in this order, as
/// their ground and its density make, and after them the flocks. A stand of trees
/// holds up to forty and regrows, forage up to twelve and regrows, a field up to
/// twenty-four and does not until it is sown, and a sheep is one.
pub proof fn law_a_world_is_stocked(cfg: &WorldConfig, tiles: Seq<Terrain>, rng: Stream, k: int)
    requires
        0 <= k < nodes_of(cfg, tiles, rng).0.len(),
    ensures
        ({
            let n = nodes_of(cfg, tiles, rng).0[k];
            let r = cfg.resources;
            let count = |t: Terrain, density: Num|
                share_of(pool_of(tiles, t).len(), density) as int;
            let wood = if pool_of(tiles, Terrain::Forest).len() > 0 {
                count(Terrain::Forest, r.wood_density)
            } else {
                0
            };
            let forage = if pool_of(tiles, Terrain::Forest).len() > 0 {
                count(Terrain::Forest, r.forage_density)
            } else {
                0
            };
            let wheat = if pool_of(tiles, Terrain::Soil).len() > 0 && cfg.features.wheat {
                count(Terrain::Soil, r.soil_density)
            } else {
                0
            };
            &&& n.kind == NodeKind::Wood <==> k < wood
            &&& n.kind == NodeKind::Forage <==> wood <= k < wood + forage
            &&& n.kind == NodeKind::Wheat <==> wood + forage <= k < wood + forage + wheat
            &&& n.kind == NodeKind::Sheep <==> wood + forage + wheat <= k
            &&& n.kind == NodeKind::Wood ==> n.max_quantity == num(0x4220_0000) && n.regen_rate == r.wood_regen_per_tick
            &&& n.kind == NodeKind::Forage ==> n.max_quantity == num(0x4140_0000) && n.regen_rate
                == r.forage_regen_per_tick
            &&& n.kind == NodeKind::Wheat ==> n.max_quantity == num(0x41C0_0000) && n.regen_rate == num(0)
            &&& n.kind == NodeKind::Sheep ==> n.quantity == num(0x3F80_0000) && n.max_quantity == num(0x40C0_0000)
                && n.regen_rate == num(0)
        }),
{
    let (w, h) = (cfg.map.width, cfg.map.height);
    let r = cfg.resources;
    let forest = pool_of(tiles, Terrain::Forest);
    let soil = pool_of(tiles, Terrain::Soil);
    let grass = pool_of(tiles, Terrain::Grass);
    let n1 = share_of(forest.len(), r.wood_density);
    let n2 = share_of(forest.len(), r.forage_density);
    let n3 = share_of(soil.len(), r.soil_density);
    let all = nodes_of(cfg, tiles, rng).0;
    lemma_scattered(NodeKind::Wood, w, forest, num(WOOD_FULL), r.wood_regen_per_tick, n1, rng);
    let (wood, s1) = scattered(NodeKind::Wood, w, forest, num(WOOD_FULL), r.wood_regen_per_tick, n1, rng);
    lemma_scattered(NodeKind::Forage, w, forest, num(FORAGE_FULL), r.forage_regen_per_tick, n2, s1);
    let (forage, s2) = scattered(NodeKind::Forage, w, forest, num(FORAGE_FULL), r.forage_regen_per_tick, n2, s1);
    let (a, s) = if forest.len() > 0 {
        (wood + forage, s2)
    } else {
        (Seq::empty(), rng)
    };
    lemma_scattered(NodeKind::Wheat, w, soil, num(WHEAT_FULL), num(NOTHING), n3, s);
    let (wheat, t1) = scattered(NodeKind::Wheat, w, soil, num(WHEAT_FULL), num(NOTHING), n3, s);
    let (b, t) = if soil.len() > 0 && cfg.features.wheat {
        (a + wheat, t1)
    } else {
        (a, s)
    };
    lemma_flocks_are_sheep(w, h, tiles, grass, r.sheep_flocks as nat, t);
    let sheep = flocks(w, h, tiles, grass, r.sheep_flocks as nat, t).0;
    if cfg.features.sheep && grass.len() > 0 {
        assert(all == b + sheep);
    } else {
        assert(all == b);
    }
}

proof fn lemma_scattered(kind: NodeKind, w: u32, pool: Seq<u32>, max: Num, regen: Num, n: nat, rng: Stream)
    ensures
        scattered(kind, w, pool, max, regen, n, rng).0.len() == n,
        forall|k: int|
            0 <= k < n ==> {
                let x = #[trigger] scattered(kind, w, pool, max, regen, n, rng).0[k];
                x.kind == kind && x.max_quantity == max && x.regen_rate == regen
            },
    decreases n,
{
    if n > 0 {
        lemma_scattered(kind, w, pool, max, regen, (n - 1) as nat, rng);
    }
}

proof fn lemma_flock_is_sheep(w: u32, h: u32, tiles: Seq<Terrain>, home: u32, n: nat, rng: Stream)
    ensures
        forall|k: int|
            0 <= k < flock(w, h, tiles, home, n, rng).0.len() ==> {
                let x = #[trigger] flock(w, h, tiles, home, n, rng).0[k];
                x == sheep_on(x.x, x.y)
            },
    decreases n,
{
    if n > 0 {
        lemma_flock_is_sheep(w, h, tiles, home, (n - 1) as nat, rng);
    }
}

proof fn lemma_flocks_are_sheep(w: u32, h: u32, tiles: Seq<Terrain>, grass: Seq<u32>, n: nat, rng: Stream)
    ensures
        forall|k: int|
            0 <= k < flocks(w, h, tiles, grass, n, rng).0.len() ==> {
                let x = #[trigger] flocks(w, h, tiles, grass, n, rng).0[k];
                x == sheep_on(x.x, x.y)
            },
    decreases n,
{
    if n > 0 {
        lemma_flocks_are_sheep(w, h, tiles, grass, (n - 1) as nat, rng);
        let (before, s) = flocks(w, h, tiles, grass, (n - 1) as nat, rng);
        let home = grass[s.index_here(grass.len()) as int];
        let t = s.indexed(grass.len());
        lemma_flock_is_sheep(w, h, tiles, home, t.small_range_here(3, 6) as nat, t.small_ranged(3, 6));
    }
}

/// A node starts out at least a quarter full, on the tile it was given.
pub proof fn law_a_node_starts_in_part(kind: NodeKind, w: u32, tile: u32, max: Num, regen: Num, fill: Num)
    requires
        w > 0,
        num(0).le(fill),
        fill.lt(num(0x3F80_0000)),
        !fill.negative(),
        max.finite(),
        !max.negative(),
    ensures
        ({
            let n = node_on(kind, w, tile, max, regen, fill);
            &&& (max * num(0x3E80_0000)).le(n.quantity)
            &&& n.max_quantity == max
            &&& n.kind == kind
            &&& n.y * w + n.x == tile
            &&& n.x < w
        }),
{
    let part = fill * num(THREE_QUARTERS);
    law_products_commute(fill, num(THREE_QUARTERS));
    law_a_share_is_no_more(num(THREE_QUARTERS), fill);
    law_adding_more_makes_no_less(num(QUARTER), num(0), part);
    law_nothing_changes_nothing(num(QUARTER), num(0));
    lemma_parts_of_one(num(QUARTER), part);
    law_products_commute(max, num(QUARTER));
    law_products_commute(max, num(QUARTER) + part);
    law_more_times_is_no_less(num(QUARTER), num(QUARTER) + part, max);
    assert(tile == (tile / w) * w + tile % w) by (nonlinear_arith)
        requires
            w > 0,
    ;
}

/// People settle on dry ground with water within twenty-two steps and forage within
/// twenty-six, and nowhere else; nearer water counts three times, nearer forage
/// twice, nearer soil once up to sixty.
pub proof fn law_where_people_settle(water: Seq<u32>, forage: Seq<u32>, soil: Seq<u32>, tiles: Seq<Terrain>, i: int, j: int)
    ensures
        ({
            let score = start_score(water, forage, soil, tiles, i);
            &&& score is Some <==> tiles[i] != Terrain::DeepWater && tiles[i] != Terrain::ShallowWater && water[i] <= 22
                && forage[i] <= 26
            &&& score is Some && soil[i] <= 60 ==> score->0 == 3 * water[i] + 2 * forage[i] + soil[i]
            &&& score is Some && soil[i] > 60 ==> score->0 == 3 * water[i] + 2 * forage[i] + 60
            &&& score is Some && start_score(water, forage, soil, tiles, j) is Some && water[i] <= water[j] && forage[i]
                <= forage[j] && soil[i] <= soil[j] ==> score->0 <= start_score(water, forage, soil, tiles, j)->0
        }),
{
}

/// The hearth is where it is best: a place to settle, no worse than any other, and
/// there is none only if there is nowhere to settle.
pub proof fn law_the_hearth_is_the_best_place(
    water: Seq<u32>,
    forage: Seq<u32>,
    soil: Seq<u32>,
    tiles: Seq<Terrain>,
    n: int,
)
    ensures
        match best_start(water, forage, soil, tiles, n) {
            Some((score, at)) => {
                &&& 0 <= at < n && start_score(water, forage, soil, tiles, at) == Some(score)
                &&& forall|i: int|
                    0 <= i < n ==> (#[trigger] start_score(water, forage, soil, tiles, i) matches Some(other) ==> score
                        <= other)
            },
            None => forall|i: int| 0 <= i < n ==> #[trigger] start_score(water, forage, soil, tiles, i) is None,
        },
    decreases n,
{
    if n > 0 {
        law_the_hearth_is_the_best_place(water, forage, soil, tiles, n - 1);
    }
}

/// A world is fit to live in exactly if at least two were settled, it has enough
/// bodies of fresh water, it bears forage and soil, and nobody was settled more than
/// twenty-two steps from water; and what it lacks is named for what it is.
pub proof fn law_what_makes_a_world_fit(w: u32, tiles: Seq<Terrain>, nodes: Seq<ResourceNode>, founders: Seq<Founder>)
    ensures
        ({
            let v = verdict(w, tiles, nodes, founders);
            let dry = exists|k: int|
                0 <= k < founders.len() && #[trigger] water_from(w, tiles, founders[k]) > 22;
            let forage = exists|k: int| 0 <= k < nodes.len() && (#[trigger] nodes[k]).kind == NodeKind::Forage;
            &&& v is Ok <==> founders.len() >= 2 && water_bodies(w, tiles) >= 3 && forage && tiles.contains(
                Terrain::Soil,
            ) && !dry
            &&& water_bodies(w, tiles) == bodies(w as int, fresh_of(tiles), 40, tiles.len() as int)
            &&& v == Err::<(), Unviable>(Unviable::NoFounders) <==> founders.len() == 0
            &&& v matches Err(Unviable::FewFounders { placed }) ==> founders.len() == 1 && placed == 1
            &&& v matches Err(Unviable::FewWaterBodies { bodies }) ==> water_bodies(w, tiles) < 3
            &&& v == Err::<(), Unviable>(Unviable::NoForage) ==> !forage
            &&& v == Err::<(), Unviable>(Unviable::NoSoil) ==> !tiles.contains(Terrain::Soil)
            &&& v matches Err(Unviable::FarFromWater { x, y, dist }) ==> dist > 22 && exists|k: int|
                0 <= k < founders.len() && founders[k].x == x && founders[k].y == y && #[trigger] water_from(
                    w,
                    tiles,
                    founders[k],
                ) == dist
        }),
{
    let p = stranded(w, tiles);
    lemma_first_where(founders, p);
    let far = first_where(founders, p);
    if far < founders.len() {
        assert(p(founders[far]));
        assert(water_from(w, tiles, founders[far]) > 22);
    } else {
        assert forall|k: int| 0 <= k < founders.len() implies !(#[trigger] water_from(w, tiles, founders[k]) > 22) by {
            assert(!p(founders[k]));
        }
    }
}

/// Founders come in turn, women and men: of any two tried one after the other, one
/// is a woman and one a man.
pub proof fn law_founders_come_in_turn(w: u32, h: u32, tiles: Seq<Terrain>, hearth: int, n: nat, rng: Stream)
    ensures
        ({
            let all = founders_near(w, h, tiles, hearth, n, rng).0;
            &&& all.len() <= n
            &&& all.len() == n ==> forall|k: int| 0 <= k < n ==> ((#[trigger] all[k]).female <==> k % 2 == 0)
        }),
    decreases n,
{
    if n > 0 {
        law_founders_come_in_turn(w, h, tiles, hearth, (n - 1) as nat, rng);
    }
}

/// A world is looked for from the seed that was given on, one seed after the other.
pub proof fn law_seeds_are_tried_in_turn(seed: u64, attempt: nat)
    ensures
        seed_at(seed, 0) == seed,
        seed_at(seed, attempt + 1) == next_seed(seed_at(seed, attempt)),
        next_seed(seed) as int == (seed as int * 6364136223846793005 + 1) % 0x1_0000_0000_0000_0000,
{
}

} // verus!
