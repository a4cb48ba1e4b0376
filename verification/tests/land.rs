//! The land: how it is made, and how it is crossed.

use life_zone::config::{
    ActionsConfig, BenchConfig, DeliberationConfig, FeaturesConfig, HazardsConfig, KnowledgeConfig, LifespanConfig,
    MapConfig, NeedsConfig, PersistenceConfig, ReproductionConfig, ResourcesConfig, WorldConfig,
};
use life_zone::noise::octaves;
use life_zone::num::{num, Num};
use life_zone::pathfind::{path_cost, Pathfinder};
use life_zone::terrain::Terrain;
use life_zone::world::{Founder, NodeKind, ResourceNode, World};
use life_zone::worldgen::{
    can_generate, check_viability, count_water_bodies, distance_field, generate, Unviable, SOIL_WATER_REACH,
};

fn n(v: f32) -> Num {
    num(v.to_bits())
}

fn v(x: Num) -> f32 {
    f32::from_bits(x.bits)
}

/// The settings the tests run with.
fn config() -> WorldConfig {
    WorldConfig {
        map: MapConfig { width: 512, height: 512, chunk_size: 32, founder_count: 8 },
        lifespan: LifespanConfig {
            baseline_ticks: 672,
            ceiling_ticks: 840,
            infant_until_tick: 168,
            elder_from_tick: 588,
            unsheltered_night_penalty_ticks: n(2.0),
            malnutrition_aging_multiplier: n(1.5),
        },
        needs: NeedsConfig {
            hunger_decay_per_tick: n(0.9),
            thirst_decay_per_tick: n(1.4),
            fatigue_decay_per_tick: n(1.0),
            warmth_decay_night: n(2.0),
            deficit_threshold: n(30.0),
            critical_threshold: n(12.0),
            health_erosion_per_tick: n(1.0),
            health_regen_per_tick: n(0.5),
        },
        actions: ActionsConfig {
            carry_capacity: n(20.0),
            move_speed: n(2.0),
            gather_forage_per_tick: n(2.0),
            night_forage_scale: n(0.5),
            chop_wood_per_tick: n(1.5),
            harvest_wheat_per_tick: n(3.0),
            drink_restore: n(60.0),
            eat_portion: n(2.0),
            rest_restore: n(8.0),
            rest_restore_sheltered: n(14.0),
            fire_wood_cost: n(2.0),
            fire_warmth: n(6.0),
            fire_warmth_radius: 2,
            shelter_warmth: n(4.0),
            shelter_wood_cost: n(12.0),
            shelter_build_ticks: 6,
            shelter_capacity: 6,
            shelter_decay_per_tick: n(0.0005),
            slaughter_yield: n(12.0),
            plant_ticks: 4,
            tend_ticks: 2,
            night_start_hour: 20,
            night_end_hour: 6,
        },
        resources: ResourcesConfig {
            forage_spoil_ticks: 48,
            meat_spoil_ticks: 96,
            grain_spoil_ticks: None,
            fire_fuel_burn_per_tick: n(0.5),
            sheep_flocks: 6,
            wheat_growth_ticks: 72,
            wood_density: n(0.02),
            forage_density: n(0.03),
            soil_density: n(0.05),
            wood_regen_per_tick: n(0.01),
            forage_regen_per_tick: n(0.02),
        },
        hazards: HazardsConfig {
            accident_per_tick: n(0.0004),
            illness_per_tick: n(0.0002),
            illness_low_health_multiplier: n(3.0),
        },
        reproduction: ReproductionConfig {
            courtship_offer_ticks: 20,
            gestation_ticks: 72,
            birth_spacing_ticks: 96,
            store_reserve: n(12.0),
            health_floor: n(50.0),
            birth_store_cost: n(6.0),
            mutation_sigma: n(0.08),
            childbirth_mortality: n(0.0),
        },
        knowledge: KnowledgeConfig {
            observation_radius: 6,
            max_beliefs_held: 48,
            confidence_decay_per_tick: n(0.0025),
            per_hop_penalty: n(0.15),
            teach_fidelity: n(0.98),
            ambient_confidence: n(0.35),
            ambient_share_chance: n(0.02),
            share_belief_count: 3,
            teach_belief_count: 8,
        },
        deliberation: DeliberationConfig {
            horizon_cap_travel: 24,
            horizon_cap_gather: 16,
            horizon_cap_construction: 24,
            horizon_cap_crisis: 6,
            dispatch_ttl_ticks: 40,
            budget_observe: 2,
        },
        persistence: PersistenceConfig { checkpoint_interval_ticks: 100, sample_interval_ticks: 24 },
        features: FeaturesConfig {
            spoilage: true,
            fires: true,
            wheat: true,
            sheep: true,
            knowledge_sharing: true,
            llm: false,
        },
        bench: BenchConfig { maintain_population: None, initial_creatures: None },
    }
}

fn flat_world(w: u32, h: u32, t: Terrain) -> World {
    World {
        width: w,
        height: h,
        chunk_size: 32,
        seed: 1,
        tiles: vec![t; (w * h) as usize],
        nodes: Vec::new(),
        founders: Vec::new(),
    }
}

#[test]
fn a_straight_run_across_open_grass_is_direct() {
    let world = flat_world(32, 32, Terrain::Grass);
    let mut pf = Pathfinder::new(&world);
    let path = pf.find(&world, (2, 2), (10, 2)).unwrap();
    assert_eq!(path.len(), 8, "eight tiles east, no detour");
    assert_eq!(*path.last().unwrap(), (10, 2));
}

#[test]
fn diagonals_are_used_and_cost_more_than_straight_steps() {
    let world = flat_world(32, 32, Terrain::Grass);
    let mut pf = Pathfinder::new(&world);
    let path = pf.find(&world, (2, 2), (10, 10)).unwrap();
    assert_eq!(path.len(), 8, "a pure diagonal is eight steps, not sixteen");
    let cost = v(path_cost(&world, &[(2, 2)].into_iter().chain(path).collect::<Vec<_>>()));
    assert!(cost > 8.0 && cost < 12.0, "diagonal steps cost ~1.41 each, got {cost}");
}

#[test]
fn deep_water_is_routed_around() {
    let mut world = flat_world(32, 32, Terrain::Grass);
    for y in 0..28 {
        let i = world.idx(16, y);
        world.tiles[i] = Terrain::DeepWater;
    }
    let mut pf = Pathfinder::new(&world);
    let path = pf.find(&world, (4, 4), (28, 4)).expect("a way round exists");

    assert!(path.iter().all(|&(x, y)| world.at(x, y).passable()));
    assert!(path.len() > 24, "it has to go the long way round, got {}", path.len());
    assert_eq!(*path.last().unwrap(), (28, 4));
}

#[test]
fn a_walled_off_goal_is_unreachable() {
    let mut world = flat_world(24, 24, Terrain::Grass);
    for y in 0..24 {
        let i = world.idx(12, y);
        world.tiles[i] = Terrain::DeepWater;
    }
    let mut pf = Pathfinder::new(&world);
    assert!(pf.find(&world, (4, 4), (20, 4)).is_none());
}

#[test]
fn a_goal_in_deep_water_is_refused_rather_than_searched_for() {
    let mut world = flat_world(16, 16, Terrain::Grass);
    let i = world.idx(8, 8);
    world.tiles[i] = Terrain::DeepWater;
    let mut pf = Pathfinder::new(&world);
    assert!(pf.find(&world, (2, 2), (8, 8)).is_none());
    assert_eq!(pf.stats.searches, 0, "rejected before any search work");
}

#[test]
fn expensive_terrain_is_avoided_when_a_cheap_detour_exists() {
    let mut world = flat_world(32, 8, Terrain::Grass);
    for x in 8..24 {
        let i = world.idx(x, 4);
        world.tiles[i] = Terrain::ShallowWater;
    }
    let mut pf = Pathfinder::new(&world);
    let path = pf.find(&world, (2, 4), (30, 4)).unwrap();
    let waded = path.iter().filter(|&&(x, y)| world.at(x, y) == Terrain::ShallowWater).count();
    assert!(waded <= 2, "should step around the water, waded {waded} tiles");
}

#[test]
fn the_same_query_twice_comes_from_cache_and_matches() {
    let world = flat_world(64, 64, Terrain::Grass);
    let mut pf = Pathfinder::new(&world);
    let a = pf.find(&world, (1, 1), (40, 30)).unwrap();
    let searches = pf.stats.searches;
    let b = pf.find(&world, (1, 1), (40, 30)).unwrap();

    assert_eq!(a, b);
    assert_eq!(pf.stats.searches, searches, "second query did no search work");
    assert_eq!(pf.stats.cache_hits, 1);
}

#[test]
fn only_so_many_routes_are_kept() {
    let world = flat_world(32, 32, Terrain::Grass);
    let mut pf = Pathfinder::new(&world);
    pf.cache_capacity = 2;
    for x in 5..8 {
        pf.find(&world, (1, 1), (x, 1));
    }
    assert_eq!((pf.cache.len(), pf.stats.searches), (2, 3));
    pf.find(&world, (1, 1), (5, 1));
    assert_eq!((pf.stats.searches, pf.stats.cache_hits), (4, 0), "the oldest had given way");
    pf.find(&world, (1, 1), (7, 1));
    assert_eq!((pf.stats.searches, pf.stats.cache_hits), (4, 1));
}

#[test]
fn a_path_to_where_you_already_stand_is_empty_not_none() {
    let world = flat_world(16, 16, Terrain::Grass);
    let mut pf = Pathfinder::new(&world);
    assert_eq!(pf.find(&world, (5, 5), (5, 5)), Some(Vec::new()));
}

#[test]
fn repeated_searches_stay_correct_after_the_generation_stamp_wraps() {
    let world = flat_world(24, 24, Terrain::Grass);
    let mut pf = Pathfinder::new(&world);
    let expected = pf.find(&world, (1, 1), (20, 20)).unwrap();

    pf.generation = u32::MAX - 1;
    pf.clear_cache();
    let a = pf.find(&world, (1, 1), (20, 20)).unwrap();
    pf.clear_cache();
    let b = pf.find(&world, (1, 1), (20, 20)).unwrap();

    assert_eq!(a, expected);
    assert_eq!(b, expected, "results must survive the wrap");
}

#[test]
fn the_same_search_is_identical_across_pathfinder_instances() {
    let world = flat_world(64, 64, Terrain::Forest);
    let a = Pathfinder::new(&world).find(&world, (3, 60), (60, 3));
    let b = Pathfinder::new(&world).find(&world, (3, 60), (60, 3));
    assert_eq!(a, b);
}

#[test]
fn a_capped_search_still_makes_progress_toward_the_goal() {
    let world = flat_world(512, 512, Terrain::Forest);
    let mut pf = Pathfinder::new(&world);
    pf.node_cap = 200;
    let path = pf.find(&world, (5, 5), (500, 500)).expect("best effort, not nothing");

    assert_eq!(pf.stats.capped, 1);
    assert!(!path.is_empty());
    let end = *path.last().unwrap();
    let before = 5i64.abs_diff(500) + 5i64.abs_diff(500);
    let after = (end.0 as i64).abs_diff(500) + (end.1 as i64).abs_diff(500);
    assert!(after < before, "the partial route must close the gap");
}

#[test]
fn is_deterministic_for_a_seed() {
    let a = octaves(128, 128, 44127);
    let b = octaves(128, 128, 44127);
    assert_eq!(a, b, "same seed must produce identical noise");
}

#[test]
fn different_seeds_differ() {
    let a = octaves(128, 128, 1);
    let b = octaves(128, 128, 2);
    assert_ne!(a, b);
}

#[test]
fn stays_in_unit_range() {
    let f = octaves(128, 128, 9);
    for x in f {
        assert!((0.0..=1.0).contains(&v(x)), "noise out of range: {}", v(x));
    }
}

#[test]
fn is_continuous_rather_than_white_noise() {
    let w = 128;
    let f = octaves(w, w, 3);
    let mut jumps = 0;
    for y in 0..w {
        for x in 1..w {
            if (v(f[y * w + x]) - v(f[y * w + x - 1])).abs() > 0.1 {
                jumps += 1;
            }
        }
    }
    assert!(jumps < 40, "noise is not smooth: {jumps} large jumps");
}

fn sized(size: u32) -> WorldConfig {
    let mut c = config();
    c.map.width = size;
    c.map.height = size;
    c
}

#[test]
fn same_seed_produces_an_identical_world() {
    let c = sized(256);
    let a = generate(44127, &c).world;
    let b = generate(44127, &c).world;

    assert_eq!(a.fingerprint(), b.fingerprint(), "same seed must be identical");
    assert_eq!(a.terrain_bytes(), b.terrain_bytes(), "terrain must be byte-identical");
    assert_eq!(a.nodes.len(), b.nodes.len());
    assert_eq!(a.founders.len(), b.founders.len());
}

#[test]
fn different_seeds_produce_different_worlds() {
    let c = sized(256);
    let a = generate(1, &c).world;
    let b = generate(2, &c).world;
    assert_ne!(a.fingerprint(), b.fingerprint());
}

#[test]
fn a_generated_world_is_viable() {
    let c = sized(256);
    for seed in [1u64, 44127, 90210, 7] {
        let out = generate(seed, &c);
        check_viability(&out.world)
            .unwrap_or_else(|e| panic!("seed {seed} produced an unviable world: {}", e.message()));
    }
}

#[test]
fn every_terrain_type_appears() {
    let w = generate(44127, &sized(256)).world;
    for t in [Terrain::DeepWater, Terrain::ShallowWater, Terrain::Grass, Terrain::Forest, Terrain::Soil] {
        assert!(w.tiles.contains(&t), "{t:?} never generated");
    }
}

#[test]
fn soil_only_survives_near_water() {
    let w = generate(44127, &sized(256)).world;
    let fresh: Vec<bool> = w.tiles.iter().map(|t| t.is_fresh_water()).collect();
    let near = distance_field(&w, &fresh);
    for (i, (tile, &d)) in w.tiles.iter().zip(near.iter()).enumerate() {
        if *tile == Terrain::Soil {
            assert!(d <= SOIL_WATER_REACH, "soil at index {i} is {d} tiles from water");
        }
    }
}

#[test]
fn nodes_sit_on_terrain_that_suits_them() {
    let w = generate(44127, &sized(256)).world;
    assert!(!w.nodes.is_empty());
    for node in &w.nodes {
        let t = w.at(node.x, node.y);
        let ok = match node.kind {
            NodeKind::Wood | NodeKind::Forage => t == Terrain::Forest,
            NodeKind::Wheat => t == Terrain::Soil,
            NodeKind::Sheep => t == Terrain::Grass,
        };
        assert!(ok, "{:?} node on {:?}", node.kind, t);
        assert!(node.quantity.le(node.max_quantity));
    }
}

#[test]
fn founders_land_on_passable_dry_ground_near_each_other() {
    let c = sized(256);
    let w = generate(44127, &c).world;
    assert_eq!(w.founders.len(), c.map.founder_count as usize);

    for f in &w.founders {
        let t = w.at(f.x, f.y);
        assert!(t.passable() && !t.is_water(), "founder on {t:?}");
    }
    let (x0, y0) = (w.founders[0].x as i64, w.founders[0].y as i64);
    for f in &w.founders {
        let d = (f.x as i64 - x0).abs() + (f.y as i64 - y0).abs();
        assert!(d < 80, "founder {d} tiles from the first one");
    }
    assert!(w.founders.iter().any(|f| f.female));
    assert!(w.founders.iter().any(|f| !f.female));
}

#[test]
fn wheat_toggle_removes_wheat_for_the_s4_experiment() {
    let mut c = sized(256);
    c.features.wheat = false;
    let w = generate(44127, &c).world;
    assert!(!w.nodes.iter().any(|n| n.kind == NodeKind::Wheat));
}

#[test]
fn chunk_blobs_tile_the_whole_map() {
    let w = generate(44127, &sized(256)).world;
    assert_eq!(w.chunks_x(), 8);
    assert_eq!(w.chunks_y(), 8);

    for cy in 0..w.chunks_y() {
        for cx in 0..w.chunks_x() {
            let blob = w.chunk_blob(cx, cy);
            assert_eq!(blob.len(), (w.chunk_size * w.chunk_size) as usize);
            let expected = w.at(cx * w.chunk_size, cy * w.chunk_size).code();
            assert_eq!(blob[0], expected);
        }
    }
}

#[test]
fn a_full_size_world_is_deterministic_and_viable() {
    let c = config();
    let a = generate(44127, &c);
    let b = generate(44127, &c);
    assert_eq!(a.world.fingerprint(), b.world.fingerprint());
    assert_eq!(a.world.tiles.len(), 512 * 512);
    check_viability(&a.world).expect("default seed must be viable");
}

/// A world with three lakes at its western edge.
fn watered_world() -> World {
    let mut world = flat_world(200, 64, Terrain::Grass);
    for x in 4..12 {
        for y in 4..12 {
            for lake in 0..3 {
                let i = world.idx(x, y + 16 * lake);
                world.tiles[i] = Terrain::ShallowWater;
            }
        }
    }
    world
}

#[test]
fn each_thing_a_world_may_lack_is_named() {
    let founder = |x: u32| Founder { x, y: 20, female: true };
    let mut world = flat_world(200, 64, Terrain::Grass);
    assert_eq!(check_viability(&world), Err(Unviable::NoFounders));
    world.founders.push(founder(20));
    assert_eq!(check_viability(&world), Err(Unviable::FewFounders { placed: 1 }));
    world.founders.push(founder(20));
    assert_eq!(check_viability(&world), Err(Unviable::FewWaterBodies { bodies: 0 }));

    let mut world = watered_world();
    world.founders = vec![founder(20), founder(20)];
    assert_eq!(check_viability(&world), Err(Unviable::NoForage));
    world.nodes.push(ResourceNode {
        kind: NodeKind::Forage,
        x: 30,
        y: 30,
        quantity: n(5.0),
        max_quantity: n(12.0),
        regen_rate: n(0.0),
    });
    assert_eq!(check_viability(&world), Err(Unviable::NoSoil));
    let i = world.idx(14, 14);
    world.tiles[i] = Terrain::Soil;
    assert_eq!(check_viability(&world), Ok(()));
    world.founders.push(founder(199));
    let refused = check_viability(&world).unwrap_err();
    assert_eq!(refused, Unviable::FarFromWater { x: 199, y: 20, dist: 188 });
    assert_eq!(refused.message(), "founder at 199,20 is 188 tiles from water");
    assert_eq!(Unviable::FewFounders { placed: 1 }.message(), "only 1 founders placed");
}

#[test]
fn bodies_of_water_are_counted_from_a_size_on() {
    assert_eq!(count_water_bodies(&flat_world(64, 64, Terrain::Grass)), 0);
    assert_eq!(count_water_bodies(&watered_world()), 3);
    let mut puddle = flat_world(64, 64, Terrain::Grass);
    let i = puddle.idx(3, 3);
    puddle.tiles[i] = Terrain::ShallowWater;
    assert_eq!(count_water_bodies(&puddle), 0);
}

#[test]
fn a_map_too_large_to_hold_is_not_made() {
    assert!(can_generate(&sized(512)));
    assert!(!can_generate(&sized(0x100_0000)));
}
