//! What creatures can do, and what it does to the world.

use life_zone::actions::{execute, is_legal, AbortReason, ActionCtx, Goal, Outcome, Step, Target};
use life_zone::chance::Stream;
use life_zone::config::{
    ActionsConfig, BenchConfig, DeliberationConfig, FeaturesConfig, HazardsConfig, KnowledgeConfig, LifespanConfig,
    MapConfig, NeedsConfig, PersistenceConfig, ReproductionConfig, ResourcesConfig, WorldConfig,
};
use life_zone::creature::{Creature, Inventory, ItemKind, LifeStage, Sex, Traits};
use life_zone::economy::{regrow, Structure, StructureKind, Structures};
use life_zone::event::EventKind;
use life_zone::num::{num, Num};
use life_zone::pathfind::Pathfinder;
use life_zone::terrain::Terrain;
use life_zone::world::{NodeKind, ResourceNode, World};

fn n(v: f32) -> Num {
    num(v.to_bits())
}

fn v(x: Num) -> f32 {
    f32::from_bits(x.bits)
}

/// The settings the tests run with.
fn config() -> WorldConfig {
    WorldConfig {
        map: MapConfig { width: 512, height: 512, chunk_size: 32, founder_count: 8 },
        lifespan: LifespanConfig {
            baseline_ticks: 672,
            ceiling_ticks: 840,
            infant_until_tick: 168,
            elder_from_tick: 588,
            unsheltered_night_penalty_ticks: n(2.0),
            malnutrition_aging_multiplier: n(1.5),
        },
        needs: NeedsConfig {
            hunger_decay_per_tick: n(0.9),
            thirst_decay_per_tick: n(1.4),
            fatigue_decay_per_tick: n(1.0),
            warmth_decay_night: n(2.0),
            deficit_threshold: n(30.0),
            critical_threshold: n(12.0),
            health_erosion_per_tick: n(1.0),
            health_regen_per_tick: n(0.5),
        },
        actions: ActionsConfig {
            carry_capacity: n(20.0),
            move_speed: n(2.0),
            gather_forage_per_tick: n(2.0),
            night_forage_scale: n(0.5),
            chop_wood_per_tick: n(1.5),
            harvest_wheat_per_tick: n(3.0),
            drink_restore: n(60.0),
            eat_portion: n(2.0),
            rest_restore: n(8.0),
            rest_restore_sheltered: n(14.0),
            fire_wood_cost: n(2.0),
            fire_warmth: n(6.0),
            fire_warmth_radius: 2,
            shelter_warmth: n(4.0),
            shelter_wood_cost: n(12.0),
            shelter_build_ticks: 6,
            shelter_capacity: 6,
            shelter_decay_per_tick: n(0.0005),
            slaughter_yield: n(12.0),
            plant_ticks: 4,
            tend_ticks: 2,
            night_start_hour: 20,
            night_end_hour: 6,
        },
        resources: ResourcesConfig {
            forage_spoil_ticks: 48,
            meat_spoil_ticks: 96,
            grain_spoil_ticks: None,
            fire_fuel_burn_per_tick: n(0.5),
            sheep_flocks: 6,
            wheat_growth_ticks: 72,
            wood_density: n(0.02),
            forage_density: n(0.03),
            soil_density: n(0.05),
            wood_regen_per_tick: n(0.01),
            forage_regen_per_tick: n(0.02),
        },
        hazards: HazardsConfig {
            accident_per_tick: n(0.0004),
            illness_per_tick: n(0.0002),
            illness_low_health_multiplier: n(3.0),
        },
        reproduction: ReproductionConfig {
            courtship_offer_ticks: 20,
            gestation_ticks: 72,
            birth_spacing_ticks: 96,
            store_reserve: n(12.0),
            health_floor: n(50.0),
            birth_store_cost: n(6.0),
            mutation_sigma: n(0.08),
            childbirth_mortality: n(0.0),
        },
        knowledge: KnowledgeConfig {
            observation_radius: 6,
            max_beliefs_held: 48,
            confidence_decay_per_tick: n(0.0025),
            per_hop_penalty: n(0.15),
            teach_fidelity: n(0.98),
            ambient_confidence: n(0.35),
            ambient_share_chance: n(0.02),
            share_belief_count: 3,
            teach_belief_count: 8,
        },
        deliberation: DeliberationConfig {
            horizon_cap_travel: 24,
            horizon_cap_gather: 16,
            horizon_cap_construction: 24,
            horizon_cap_crisis: 6,
            dispatch_ttl_ticks: 40,
            budget_observe: 2,
        },
        persistence: PersistenceConfig { checkpoint_interval_ticks: 100, sample_interval_ticks: 24 },
        features: FeaturesConfig {
            spoilage: true,
            fires: true,
            wheat: true,
            sheep: true,
            knowledge_sharing: true,
            llm: false,
        },
        bench: BenchConfig { maintain_population: None, initial_creatures: None },
    }
}

/// A healthy adult.
fn test_creature() -> Creature {
    Creature {
        id: 1,
        name: "Test".to_string(),
        sex: Sex::Female,
        generation: 1,
        mother_id: None,
        father_id: None,
        household_id: None,
        birth_tick: 0,
        death_tick: None,
        death_cause: None,
        x: 10,
        y: 10,
        life_stage: LifeStage::Adult,
        hunger: n(100.0),
        thirst: n(100.0),
        fatigue: n(100.0),
        warmth: n(100.0),
        health: n(100.0),
        lifespan_ticks: n(672.0),
        wear: n(0.0),
        traits: Traits::default(),
        inventory: Inventory::new(),
        plan: None,
        beliefs: Vec::new(),
        last_deliberation_tick: None,
        deliberation_pressure: n(0.0),
        lifetime_deliberations: 0,
        lifetime_think_fatigue: n(0.0),
        in_shelter: None,
        exposed_ticks: 0,
        at_fire: false,
        trauma: None,
        mate_id: None,
        paired_tick: None,
        pregnancy: None,
        last_birth_tick: None,
        children_born: 0,
        guardian_id: None,
        taught_count: 0,
        shared_count: 0,
        dirty: true,
    }
}

fn stage(t: Terrain) -> ActionCtx {
    let world = World {
        width: 32,
        height: 32,
        chunk_size: 32,
        seed: 1,
        tiles: vec![t; 32 * 32],
        nodes: Vec::new(),
        founders: Vec::new(),
    };
    let pathfinder = Pathfinder::new(&world);
    ActionCtx {
        world,
        structures: Structures::new(),
        pathfinder,
        cfg: config(),
        tick: 0,
        rng: Stream::seeded(7),
        events: Vec::new(),
        night: false,
        gathered: n(0.0),
        eaten: n(0.0),
    }
}

fn run(c: &mut Creature, step: &mut Step, ctx: &mut ActionCtx, tick: i64, night: bool) -> Outcome {
    ctx.tick = tick;
    ctx.night = night;
    execute(c, step, ctx)
}

fn node(kind: NodeKind, x: u32, y: u32, quantity: f32, max: f32) -> ResourceNode {
    ResourceNode { kind, x, y, quantity: n(quantity), max_quantity: n(max), regen_rate: n(0.0) }
}

fn held(c: &Creature, kind: ItemKind) -> f32 {
    v(c.inventory.total(kind))
}

#[test]
fn moving_walks_the_path_and_reports_arrival() {
    let mut h = stage(Terrain::Grass);
    let mut c = test_creature();
    c.x = 2;
    c.y = 2;
    let mut step = Step::new(Goal::MoveTo, Target::Tile(9, 2), 8);

    let mut guard = 0;
    loop {
        guard += 1;
        assert!(guard < 50, "should arrive well inside 50 ticks");
        match run(&mut c, &mut step, &mut h, guard, false) {
            Outcome::Working => continue,
            Outcome::StepComplete => break,
            Outcome::Failed(r) => panic!("unexpected failure {r:?}"),
        }
    }
    assert_eq!((c.x, c.y), (9, 2));
}

#[test]
fn an_unreachable_target_fails_rather_than_looping() {
    let mut h = stage(Terrain::Grass);
    for y in 0..32 {
        let i = h.world.idx(16, y);
        h.world.tiles[i] = Terrain::DeepWater;
    }
    let mut c = test_creature();
    c.x = 2;
    c.y = 2;
    let mut step = Step::new(Goal::MoveTo, Target::Tile(28, 2), 20);

    let out = run(&mut c, &mut step, &mut h, 1, false);
    assert_eq!(out, Outcome::Failed(AbortReason::Unreachable));
}

#[test]
fn drinking_at_water_restores_thirst_but_not_on_dry_land() {
    let mut h = stage(Terrain::ShallowWater);
    let mut c = test_creature();
    c.thirst = n(10.0);
    let mut step = Step::new(Goal::Drink, Target::Tile(c.x, c.y), 1);

    assert_eq!(run(&mut c, &mut step, &mut h, 1, false), Outcome::StepComplete);
    assert!(v(c.thirst) > 60.0);

    let mut dry = stage(Terrain::Grass);
    let mut c2 = test_creature();
    c2.thirst = n(10.0);
    let mut step2 = Step::new(Goal::Drink, Target::Tile(c2.x, c2.y), 1);
    assert_eq!(
        run(&mut c2, &mut step2, &mut dry, 1, false),
        Outcome::Failed(AbortReason::PreconditionFailed),
        "walking to remembered water and finding dry ground must fail loudly"
    );
    assert_eq!(v(c2.thirst), 10.0);
}

#[test]
fn eating_spends_the_batch_closest_to_spoiling() {
    let mut h = stage(Terrain::Grass);
    let mut c = test_creature();
    c.hunger = n(40.0);
    c.inventory.add(ItemKind::Grain, n(4.0), 200);
    c.inventory.add(ItemKind::Forage, n(4.0), 100);

    let mut step = Step::new(Goal::EatFromInventory, Target::Nothing, 1);
    assert_eq!(run(&mut c, &mut step, &mut h, 210, false), Outcome::StepComplete);

    assert!(v(c.hunger) > 40.0);
    assert_eq!(held(&c, ItemKind::Grain), 4.0, "the keeping food is left alone");
    assert!(held(&c, ItemKind::Forage) < 4.0, "the perishable is eaten first");
}

#[test]
fn gathering_moves_quantity_from_the_node_into_the_pack() {
    let mut h = stage(Terrain::Forest);
    h.world.nodes.push(node(NodeKind::Forage, 10, 10, 12.0, 12.0));
    h.world.nodes[0].regen_rate = n(0.02);
    let mut c = test_creature();
    c.x = 10;
    c.y = 10;
    let mut step = Step::new(Goal::GatherForage, Target::Node(0), 4);

    run(&mut c, &mut step, &mut h, 1, false);

    assert!(held(&c, ItemKind::Forage) > 0.0);
    assert!(v(h.world.nodes[0].quantity) < 12.0);
    assert!(
        (held(&c, ItemKind::Forage) + v(h.world.nodes[0].quantity) - 12.0).abs() < 1e-3,
        "nothing is created or destroyed in the transfer"
    );
}

#[test]
fn night_gathering_yields_less() {
    let mk = |night: bool| {
        let mut h = stage(Terrain::Forest);
        h.world.nodes.push(node(NodeKind::Forage, 10, 10, 12.0, 12.0));
        let mut c = test_creature();
        (c.x, c.y) = (10, 10);
        let mut step = Step::new(Goal::GatherForage, Target::Node(0), 1);
        run(&mut c, &mut step, &mut h, 1, night);
        held(&c, ItemKind::Forage)
    };
    assert!(mk(true) < mk(false), "the dark is a worse time to pick berries");
}

#[test]
fn arriving_at_a_stripped_node_fails_with_target_depleted() {
    let mut h = stage(Terrain::Forest);
    h.world.nodes.push(node(NodeKind::Forage, 10, 10, 0.0, 12.0));
    let mut c = test_creature();
    (c.x, c.y) = (10, 10);
    let mut step = Step::new(Goal::GatherForage, Target::Node(0), 4);

    assert_eq!(run(&mut c, &mut step, &mut h, 1, false), Outcome::Failed(AbortReason::TargetDepleted));
}

#[test]
fn a_full_pack_stops_gathering() {
    let mut h = stage(Terrain::Forest);
    h.world.nodes.push(node(NodeKind::Forage, 10, 10, 99.0, 99.0));
    let mut c = test_creature();
    (c.x, c.y) = (10, 10);
    let cap = c.carry_capacity(&h.cfg);
    c.inventory.add(ItemKind::Grain, cap, 0);
    let mut step = Step::new(Goal::GatherForage, Target::Node(0), 8);

    assert_eq!(run(&mut c, &mut step, &mut h, 1, false), Outcome::Failed(AbortReason::Encumbered));
}

#[test]
fn a_fire_costs_wood_and_burns_it() {
    let mut h = stage(Terrain::Grass);
    let mut c = test_creature();
    c.inventory.add(ItemKind::Wood, n(6.0), 0);
    let mut step = Step::new(Goal::BuildFire, Target::Nothing, 1);

    assert_eq!(run(&mut c, &mut step, &mut h, 5, true), Outcome::StepComplete);
    assert_eq!(held(&c, ItemKind::Wood), 4.0, "two wood went into the fire");
    assert_eq!(h.structures.items.len(), 1);
    assert!(h.structures.items[0].is_lit(5));
}

#[test]
fn a_fire_cannot_be_lit_with_no_wood() {
    let mut h = stage(Terrain::Grass);
    let mut c = test_creature();
    let mut step = Step::new(Goal::BuildFire, Target::Nothing, 1);
    assert!(matches!(run(&mut c, &mut step, &mut h, 5, true), Outcome::Failed(_)));
    assert!(h.structures.items.is_empty());
}

#[test]
fn building_a_shelter_takes_time_and_timber() {
    let mut h = stage(Terrain::Grass);
    let mut c = test_creature();
    let carried = v(h.cfg.actions.shelter_wood_cost) + 6.0;
    c.inventory.add(ItemKind::Wood, n(carried), 0);
    let build_ticks = h.cfg.actions.shelter_build_ticks;
    let mut step = Step::new(Goal::BuildShelter, Target::Tile(c.x, c.y), build_ticks);

    for t in 1..build_ticks as i64 {
        assert_eq!(
            run(&mut c, &mut step, &mut h, t, false),
            Outcome::Working,
            "a shelter is not raised in one tick"
        );
    }
    assert_eq!(run(&mut c, &mut step, &mut h, build_ticks as i64, false), Outcome::StepComplete);
    assert_eq!(h.structures.items.len(), 1);
    assert_eq!(held(&c, ItemKind::Wood), 6.0, "the timber is spent, the rest kept");
}

#[test]
fn planting_creates_a_crop_that_starts_empty_and_grows() {
    let mut h = stage(Terrain::Soil);
    let mut c = test_creature();
    let mut step = Step::new(Goal::PlantWheat, Target::Tile(c.x, c.y), 4);

    let mut out = Outcome::Working;
    for t in 1..=4 {
        out = run(&mut c, &mut step, &mut h, t, false);
    }
    assert_eq!(out, Outcome::StepComplete);

    let crop = *h.world.nodes.iter().find(|n| n.kind == NodeKind::Wheat).expect("crop planted");
    assert_eq!(v(crop.quantity), 0.0, "a seed is not a harvest");
    assert!(v(crop.regen_rate) > 0.0, "it grows toward maturity");

    for _ in 0..h.cfg.resources.wheat_growth_ticks {
        regrow(&mut h.world, &h.cfg);
    }
    let crop = *h.world.nodes.iter().find(|n| n.kind == NodeKind::Wheat).unwrap();
    assert!((v(crop.quantity) - v(crop.max_quantity)).abs() < 0.1);
}

#[test]
fn infants_are_offered_nothing_but_eating_resting_and_following() {
    let world = stage(Terrain::Grass).world;
    let st = Structures::new();
    let cfg = config();
    let mut c = test_creature();
    c.life_stage = LifeStage::Infant;
    c.inventory.add(ItemKind::Wood, n(20.0), 0);

    assert!(!is_legal(&c, Goal::ChopWood, Target::Node(0), &world, &st, &cfg));
    assert!(!is_legal(&c, Goal::BuildShelter, Target::Tile(1, 1), &world, &st, &cfg));
    c.inventory.add(ItemKind::Forage, n(2.0), 0);
    assert!(is_legal(&c, Goal::EatFromInventory, Target::Nothing, &world, &st, &cfg));
    assert!(is_legal(&c, Goal::Rest, Target::Nothing, &world, &st, &cfg));
}

#[test]
fn illegal_goals_are_never_offered() {
    let mut world = stage(Terrain::Grass).world;
    world.nodes.push(node(NodeKind::Forage, 4, 4, 0.0, 12.0));
    let st = Structures::new();
    let cfg = config();
    let c = test_creature();

    assert!(
        !is_legal(&c, Goal::GatherForage, Target::Node(0), &world, &st, &cfg),
        "an empty node is not a legal gather"
    );
    assert!(
        !is_legal(&c, Goal::Drink, Target::Tile(1, 1), &world, &st, &cfg),
        "dry land is not a legal drink"
    );
    assert!(!is_legal(&c, Goal::BuildFire, Target::Nothing, &world, &st, &cfg), "no wood, no fire");
    assert!(
        !is_legal(&c, Goal::EatFromInventory, Target::Nothing, &world, &st, &cfg),
        "an empty pack is not a meal"
    );
}

#[test]
fn wheat_actions_vanish_when_wheat_is_disabled_for_the_s4_experiment() {
    let mut world = stage(Terrain::Soil).world;
    world.nodes.push(node(NodeKind::Wheat, 4, 4, 20.0, 24.0));
    let st = Structures::new();
    let mut cfg = config();
    let c = test_creature();

    assert!(is_legal(&c, Goal::HarvestWheat, Target::Node(0), &world, &st, &cfg));
    cfg.features.wheat = false;
    assert!(!is_legal(&c, Goal::HarvestWheat, Target::Node(0), &world, &st, &cfg));
    assert!(!is_legal(&c, Goal::PlantWheat, Target::Tile(5, 5), &world, &st, &cfg));
}

#[test]
fn resting_in_shelter_recovers_faster_than_resting_in_the_open() {
    let restore = |sheltered: bool| {
        let mut h = stage(Terrain::Grass);
        let mut c = test_creature();
        c.fatigue = n(10.0);
        if sheltered {
            let id = h.structures.add(Structure {
                id: 0,
                kind: StructureKind::Shelter,
                x: c.x,
                y: c.y,
                condition: n(1.0),
                capacity: 4,
                occupants: 1,
                household_id: None,
                built_tick: 0,
                fuel_remaining: n(0.0),
                lit_until_tick: None,
                dirty: false,
            });
            c.in_shelter = Some(id);
        }
        let mut step = Step::new(Goal::Rest, Target::Nothing, 6);
        run(&mut c, &mut step, &mut h, 1, true);
        v(c.fatigue)
    };
    assert!(restore(true) > restore(false), "shelter is worth sleeping in");
}

#[test]
fn slaughtering_a_sheep_yields_more_meat_than_one_creature_can_keep() {
    let mut h = stage(Terrain::Grass);
    h.world.nodes.push(node(NodeKind::Sheep, 10, 10, 1.0, 6.0));
    let mut c = test_creature();
    (c.x, c.y) = (10, 10);
    let room = v(h.cfg.actions.slaughter_yield) - 4.0;
    let cap = v(c.carry_capacity(&h.cfg));
    c.inventory.add(ItemKind::Grain, n(cap - room), 0);
    let mut step = Step::new(Goal::SlaughterSheep, Target::Node(0), 1);

    assert_eq!(run(&mut c, &mut step, &mut h, 1, false), Outcome::StepComplete);
    assert_eq!(v(h.world.nodes[0].quantity), 0.0, "the sheep is gone");
    assert!((held(&c, ItemKind::Meat) - room).abs() < 1e-3);

    let waste = h.events.iter().find(|e| e.kind == EventKind::Slaughtered).unwrap();
    assert!(waste.payload.contains("wasted=4.00"), "the surplus is recorded");
}

#[test]
fn a_step_says_what_it_is_about() {
    let mut world = stage(Terrain::Grass).world;
    world.nodes.push(node(NodeKind::Wood, 7, 9, 5.0, 5.0));
    assert_eq!(Step::new(Goal::MoveTo, Target::Tile(3, 4), 1).describe(&world), "MOVE_TO 3,4");
    assert_eq!(Step::new(Goal::ChopWood, Target::Node(0), 1).describe(&world), "CHOP_WOOD 7,9");
    assert_eq!(Step::new(Goal::Rest, Target::Nothing, 1).describe(&world), "REST");
}

#[test]
fn only_axes_and_knives_are_dangerous() {
    let goals = [
        Goal::MoveTo,
        Goal::Drink,
        Goal::EatFromInventory,
        Goal::Rest,
        Goal::Shelter,
        Goal::BuildFire,
        Goal::FeedFire,
        Goal::GatherForage,
        Goal::HarvestWheat,
        Goal::PlantWheat,
        Goal::TendCrop,
        Goal::BuildShelter,
        Goal::RepairShelter,
        Goal::Explore,
        Goal::Verify,
    ];
    for g in goals {
        assert!(!g.is_hazardous(), "{}", g.as_str());
    }
    assert!(Goal::ChopWood.is_hazardous());
    assert!(Goal::SlaughterSheep.is_hazardous());
}
