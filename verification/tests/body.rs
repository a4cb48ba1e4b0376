//! Bodies, packs, structures, and how things are written down.

use life_zone::chance::{Stream, Tape};
use life_zone::config::{
    ActionsConfig, BenchConfig, DeliberationConfig, FeaturesConfig, HazardsConfig, KnowledgeConfig, LifespanConfig,
    MapConfig, NeedsConfig, PersistenceConfig, ReproductionConfig, ResourcesConfig, WorldConfig,
};
use life_zone::creature::{
    name_for, Creature, DeathCause, Inventory, ItemKind, LifeStage, Sex, Traits,
};
use life_zone::economy::{burn_and_decay, is_night, regrow, spoil, NodeIndex, Structure, StructureKind, Structures};
use life_zone::event::{Event, EventKind};
use life_zone::num::{num, Num};
use life_zone::terrain::Terrain;
use life_zone::text::{fixed, integer, rounded};
use life_zone::world::{NodeKind, ResourceNode, World};
use rand::{Rng, SeedableRng};
use rand_chacha::ChaCha8Rng;

fn n(v: f32) -> Num {
    num(v.to_bits())
}

fn v(x: Num) -> f32 {
    f32::from_bits(x.bits)
}

/// The settings the tests run with.
fn config() -> WorldConfig {
    WorldConfig {
        map: MapConfig { width: 512, height: 512, chunk_size: 32, founder_count: 8 },
        lifespan: LifespanConfig {
            baseline_ticks: 672,
            ceiling_ticks: 840,
            infant_until_tick: 168,
            elder_from_tick: 588,
            unsheltered_night_penalty_ticks: n(2.0),
            malnutrition_aging_multiplier: n(1.5),
        },
        needs: NeedsConfig {
            hunger_decay_per_tick: n(0.9),
            thirst_decay_per_tick: n(1.4),
            fatigue_decay_per_tick: n(1.0),
            warmth_decay_night: n(2.0),
            deficit_threshold: n(30.0),
            critical_threshold: n(12.0),
            health_erosion_per_tick: n(1.0),
            health_regen_per_tick: n(0.5),
        },
        actions: ActionsConfig {
            carry_capacity: n(20.0),
            move_speed: n(2.0),
            gather_forage_per_tick: n(2.0),
            night_forage_scale: n(0.5),
            chop_wood_per_tick: n(1.5),
            harvest_wheat_per_tick: n(3.0),
            drink_restore: n(60.0),
            eat_portion: n(2.0),
            rest_restore: n(8.0),
            rest_restore_sheltered: n(14.0),
            fire_wood_cost: n(2.0),
            fire_warmth: n(6.0),
            fire_warmth_radius: 2,
            shelter_warmth: n(4.0),
            shelter_wood_cost: n(12.0),
            shelter_build_ticks: 6,
            shelter_capacity: 6,
            shelter_decay_per_tick: n(0.0005),
            slaughter_yield: n(12.0),
            plant_ticks: 4,
            tend_ticks: 2,
            night_start_hour: 20,
            night_end_hour: 6,
        },
        resources: ResourcesConfig {
            forage_spoil_ticks: 48,
            meat_spoil_ticks: 96,
            grain_spoil_ticks: None,
            fire_fuel_burn_per_tick: n(0.5),
            sheep_flocks: 6,
            wheat_growth_ticks: 72,
            wood_density: n(0.02),
            forage_density: n(0.03),
            soil_density: n(0.05),
            wood_regen_per_tick: n(0.01),
            forage_regen_per_tick: n(0.02),
        },
        hazards: HazardsConfig {
            accident_per_tick: n(0.0004),
            illness_per_tick: n(0.0002),
            illness_low_health_multiplier: n(3.0),
        },
        reproduction: ReproductionConfig {
            courtship_offer_ticks: 20,
            gestation_ticks: 72,
            birth_spacing_ticks: 96,
            store_reserve: n(12.0),
            health_floor: n(50.0),
            birth_store_cost: n(6.0),
            mutation_sigma: n(0.08),
            childbirth_mortality: n(0.0),
        },
        knowledge: KnowledgeConfig {
            observation_radius: 6,
            max_beliefs_held: 48,
            confidence_decay_per_tick: n(0.0025),
            per_hop_penalty: n(0.15),
            teach_fidelity: n(0.98),
            ambient_confidence: n(0.35),
            ambient_share_chance: n(0.02),
            share_belief_count: 3,
            teach_belief_count: 8,
        },
        deliberation: DeliberationConfig {
            horizon_cap_travel: 24,
            horizon_cap_gather: 16,
            horizon_cap_construction: 24,
            horizon_cap_crisis: 6,
            dispatch_ttl_ticks: 40,
            budget_observe: 2,
        },
        persistence: PersistenceConfig { checkpoint_interval_ticks: 100, sample_interval_ticks: 24 },
        features: FeaturesConfig {
            spoilage: true,
            fires: true,
            wheat: true,
            sheep: true,
            knowledge_sharing: true,
            llm: false,
        },
        bench: BenchConfig { maintain_population: None, initial_creatures: None },
    }
}

/// A healthy adult.
fn test_creature() -> Creature {
    Creature {
        id: 1,
        name: "Test".to_string(),
        sex: Sex::Female,
        generation: 1,
        mother_id: None,
        father_id: None,
        household_id: None,
        birth_tick: 0,
        death_tick: None,
        death_cause: None,
        x: 10,
        y: 10,
        life_stage: LifeStage::Adult,
        hunger: n(100.0),
        thirst: n(100.0),
        fatigue: n(100.0),
        warmth: n(100.0),
        health: n(100.0),
        lifespan_ticks: n(672.0),
        wear: n(0.0),
        traits: Traits::default(),
        inventory: Inventory::new(),
        plan: None,
        beliefs: Vec::new(),
        last_deliberation_tick: None,
        deliberation_pressure: n(0.0),
        lifetime_deliberations: 0,
        lifetime_think_fatigue: n(0.0),
        in_shelter: None,
        exposed_ticks: 0,
        at_fire: false,
        trauma: None,
        mate_id: None,
        paired_tick: None,
        pregnancy: None,
        last_birth_tick: None,
        children_born: 0,
        guardian_id: None,
        taught_count: 0,
        shared_count: 0,
        dirty: true,
    }
}

#[test]
fn life_stage_boundaries_match_the_prd_table() {
    let l = &config().lifespan;
    assert_eq!(LifeStage::of(0, l), LifeStage::Infant);
    assert_eq!(LifeStage::of(167, l), LifeStage::Infant);
    assert_eq!(LifeStage::of(168, l), LifeStage::Adult, "adulthood starts at 168");
    assert_eq!(LifeStage::of(587, l), LifeStage::Adult);
    assert_eq!(LifeStage::of(588, l), LifeStage::Elder, "elder from 588");
}

#[test]
fn infants_cannot_work() {
    assert!(!LifeStage::Infant.can_work());
    assert!(LifeStage::Adult.can_work());
    assert!(LifeStage::Elder.can_work());
    assert!(LifeStage::Elder.work_rate().lt(LifeStage::Adult.work_rate()));
}

#[test]
fn inventory_spends_the_oldest_batch_first() {
    let mut inv = Inventory::new();
    inv.add(ItemKind::Forage, n(3.0), 100);
    inv.add(ItemKind::Forage, n(5.0), 140);

    let got = inv.take(ItemKind::Forage, n(4.0));

    assert_eq!(v(got), 4.0);
    assert_eq!(inv.batches.len(), 1);
    assert_eq!(inv.batches[0].harvested_tick, 140);
    assert!((v(inv.batches[0].quantity) - 4.0).abs() < 1e-5);
}

#[test]
fn taking_more_than_held_returns_only_what_was_there() {
    let mut inv = Inventory::new();
    inv.add(ItemKind::Grain, n(2.0), 1);
    assert_eq!(v(inv.take(ItemKind::Grain, n(9.0))), 2.0);
    assert_eq!(v(inv.total(ItemKind::Grain)), 0.0);
    assert!(inv.batches.is_empty(), "emptied batches are dropped");
}

#[test]
fn same_tick_gathers_merge_into_one_batch() {
    let mut inv = Inventory::new();
    inv.add(ItemKind::Forage, n(1.0), 50);
    inv.add(ItemKind::Forage, n(1.0), 50);
    inv.add(ItemKind::Forage, n(1.0), 51);
    assert_eq!(inv.batches.len(), 2, "one batch per acquisition tick");
    assert_eq!(v(inv.total(ItemKind::Forage)), 3.0);
}

#[test]
fn food_value_weighs_grain_above_forage() {
    let mut a = Inventory::new();
    a.add(ItemKind::Forage, n(4.0), 0);
    let mut b = Inventory::new();
    b.add(ItemKind::Grain, n(4.0), 0);
    assert!(b.food_value().gt(a.food_value()), "same count, different meal");
    assert_eq!(a.weight(), b.weight());
}

#[test]
fn wood_is_not_food() {
    let mut inv = Inventory::new();
    inv.add(ItemKind::Wood, n(6.0), 0);
    assert_eq!(v(inv.total_food()), 0.0);
    assert_eq!(v(inv.food_value()), 0.0);
    assert_eq!(v(inv.weight()), 6.0, "but it still takes up carry weight");
}

#[test]
fn the_deepest_deficit_names_the_cause() {
    let mut c = test_creature();
    c.hunger = n(40.0);
    c.thirst = n(2.0);
    c.warmth = n(30.0);
    assert_eq!(c.worst_need_cause(), DeathCause::Dehydration);
    c.warmth = n(0.5);
    assert_eq!(c.worst_need_cause(), DeathCause::Exposure);
}

#[test]
fn felt_state_is_qualitative_and_escalates() {
    let needs = config().needs;
    let mut c = test_creature();
    assert_eq!(c.felt_state(&needs), "well");
    c.hunger = n(25.0);
    assert_eq!(c.felt_state(&needs), "hungry");
    c.hunger = n(4.0);
    assert_eq!(c.felt_state(&needs), "starving");
}

#[test]
fn malnutrition_wear_brings_old_age_forward() {
    let mut c = test_creature();
    c.birth_tick = 0;
    assert_eq!(v(c.biological_age(300)), 300.0);
    c.wear = n(120.0);
    assert_eq!(v(c.biological_age(300)), 420.0, "wear ages a creature early");
}

#[test]
fn night_spans_midnight() {
    let cfg = config();
    assert!(!is_night(12, &cfg), "noon is day");
    assert!(is_night(20, &cfg), "20:00 is night");
    assert!(is_night(23, &cfg));
    assert!(is_night(24 + 2, &cfg), "02:00 the next day is still night");
    assert!(!is_night(24 + 6, &cfg), "06:00 is dawn");
    assert!(!is_night(24 + 19, &cfg));
}

#[test]
fn forage_spoils_meat_lasts_longer_and_grain_keeps() {
    let cfg = config();
    let mut inv = Inventory::new();
    inv.add(ItemKind::Forage, n(5.0), 0);
    inv.add(ItemKind::Meat, n(5.0), 0);
    inv.add(ItemKind::Grain, n(5.0), 0);

    assert_eq!(v(spoil(&mut inv, 47, &cfg)), 0.0, "nothing has expired yet");

    let lost = spoil(&mut inv, 48, &cfg);
    assert_eq!(v(lost), 5.0, "forage goes at two days");
    assert_eq!(v(inv.total(ItemKind::Forage)), 0.0);
    assert_eq!(v(inv.total(ItemKind::Meat)), 5.0);

    spoil(&mut inv, 96, &cfg);
    assert_eq!(v(inv.total(ItemKind::Meat)), 0.0, "meat goes at four days");

    spoil(&mut inv, 100_000, &cfg);
    assert_eq!(v(inv.total(ItemKind::Grain)), 5.0, "grain is the only food that keeps");
}

#[test]
fn disabling_spoilage_makes_everything_keep() {
    let mut cfg = config();
    cfg.features.spoilage = false;
    let mut inv = Inventory::new();
    inv.add(ItemKind::Forage, n(5.0), 0);
    assert_eq!(v(spoil(&mut inv, 10_000, &cfg)), 0.0);
    assert_eq!(v(inv.total(ItemKind::Forage)), 5.0);
}

fn structure(kind: StructureKind, x: u32, y: u32, capacity: u32, fuel: f32) -> Structure {
    Structure {
        id: 0,
        kind,
        x,
        y,
        condition: n(1.0),
        capacity,
        occupants: 0,
        household_id: None,
        built_tick: 0,
        fuel_remaining: n(fuel),
        lit_until_tick: None,
        dirty: false,
    }
}

#[test]
fn a_fire_burns_its_wood_then_goes_out() {
    let cfg = config();
    let mut st = Structures::new();
    let id = st.add(structure(StructureKind::Fire, 5, 5, 0, 2.0));

    assert!(st.get(id).unwrap().is_lit(0));
    for t in 0..3 {
        assert_eq!(burn_and_decay(&mut st, &cfg, t), 0);
        assert!(st.get(id).unwrap().is_lit(t));
    }
    assert_eq!(burn_and_decay(&mut st, &cfg, 3), 1, "the fourth tick guts it");
    assert!(!st.get(id).unwrap().is_lit(4), "no wood, no fire");
}

#[test]
fn a_lit_fire_warms_only_what_is_near_it() {
    let mut st = Structures::new();
    st.add(structure(StructureKind::Fire, 20, 20, 0, 5.0));
    assert!(st.fire_near(21, 20, 2, 0).is_some());
    assert!(st.fire_near(28, 20, 2, 0).is_none(), "warmth does not carry across the map");
}

#[test]
fn a_full_shelter_is_not_offered() {
    let mut st = Structures::new();
    let id = st.add(structure(StructureKind::Shelter, 10, 10, 2, 0.0));
    assert!(st.nearest_shelter(11, 10, 20).is_some());
    st.get_mut(id).unwrap().occupants = 2;
    assert!(st.nearest_shelter(11, 10, 20).is_none());
}

#[test]
fn a_derelict_shelter_stops_sheltering() {
    let mut st = Structures::new();
    let id = st.add(structure(StructureKind::Shelter, 10, 10, 4, 0.0));
    st.get_mut(id).unwrap().condition = n(0.05);
    assert!(st.nearest_shelter(10, 10, 5).is_none());
}

fn plain(w: u32, h: u32, t: Terrain) -> World {
    World {
        width: w,
        height: h,
        chunk_size: 32,
        seed: 1,
        tiles: vec![t; (w * h) as usize],
        nodes: Vec::new(),
        founders: Vec::new(),
    }
}

#[test]
fn the_node_index_finds_what_is_near_and_ignores_what_is_not() {
    let mut world = plain(128, 128, Terrain::Grass);
    for (x, y) in [(10u32, 10u32), (12, 11), (100, 100)] {
        world.nodes.push(ResourceNode {
            kind: NodeKind::Forage,
            x,
            y,
            quantity: n(5.0),
            max_quantity: n(12.0),
            regen_rate: n(0.02),
        });
    }
    let idx = NodeIndex::new(&world, 8);
    let mut out = Vec::new();
    idx.near(&world, 10, 10, 6, &mut out);
    assert_eq!(out, vec![0, 1], "ascending index, far node excluded");

    idx.near(&world, 60, 60, 4, &mut out);
    assert!(out.is_empty());
}

#[test]
fn regrowth_is_capped_at_the_node_maximum() {
    let cfg = config();
    let mut world = plain(8, 8, Terrain::Grass);
    world.chunk_size = 8;
    world.nodes.push(ResourceNode {
        kind: NodeKind::Forage,
        x: 1,
        y: 1,
        quantity: n(11.99),
        max_quantity: n(12.0),
        regen_rate: n(0.5),
    });
    regrow(&mut world, &cfg);
    assert_eq!(v(world.nodes[0].quantity), 12.0);
    regrow(&mut world, &cfg);
    assert_eq!(v(world.nodes[0].quantity), 12.0, "never exceeds max");
}

#[test]
fn payload_field_order_is_fixed_by_construction() {
    let a = Event::new(4, EventKind::Gathered, 7).at(10, 12).with("kind", "FORAGE").with_num("qty", n(1.5));
    let b = Event::new(4, EventKind::Gathered, 7).at(10, 12).with("kind", "FORAGE").with_num("qty", n(1.5));
    assert_eq!(a.digest_line(), b.digest_line());
    assert_eq!(a.payload, "kind=FORAGE qty=1.50");
}

#[test]
fn floats_are_written_at_fixed_precision() {
    let e = Event::new(0, EventKind::Ate, 1).with_num("v", n(1.0 / 3.0));
    assert_eq!(e.payload, "v=0.33", "no drifting last digit between runs");
}

#[test]
fn absent_fields_do_not_shift_the_digest_columns() {
    let e = Event::new(9, EventKind::Died, 3);
    assert_eq!(e.digest_line(), "9|DIED|3||||");
}

#[test]
fn discriminants_round_trip() {
    for code in 0u8..=6 {
        let t = Terrain::from_u8(code).expect("valid discriminant");
        assert_eq!(t.code(), code, "discriminant must be stable on disk");
    }
    assert!(Terrain::from_u8(7).is_none());
}

#[test]
fn only_deep_water_blocks_movement() {
    assert!(!Terrain::DeepWater.passable());
    for t in [
        Terrain::ShallowWater,
        Terrain::Sand,
        Terrain::Grass,
        Terrain::Forest,
        Terrain::Soil,
        Terrain::Hill,
    ] {
        assert!(t.passable(), "{t:?} should be passable");
        assert!(v(t.move_cost()).is_finite());
    }
}

#[test]
fn arithmetic_agrees_with_the_machine() {
    let samples = [0.0f32, -0.0, 1.0, -1.0, 0.1, 3.0e-39, 1.5e38, -7.25, 1.0e-20, f32::INFINITY, f32::NAN, 255.49];
    for &a in &samples {
        for &b in &samples {
            let pairs = [(n(a) + n(b), a + b), (n(a) - n(b), a - b), (n(a) * n(b), a * b), (n(a) / n(b), a / b)];
            for (ours, theirs) in pairs {
                assert!(
                    v(ours) == theirs && v(ours).is_sign_negative() == theirs.is_sign_negative()
                        || v(ours).is_nan() && theirs.is_nan(),
                    "{a} with {b}: {} against {theirs}",
                    v(ours)
                );
            }
            assert_eq!(n(a).lt(n(b)), a < b);
            assert_eq!(n(a).ge(n(b)), a >= b);
        }
        assert_eq!(n(a).to_u8(), a as u8);
        assert_eq!(n(a).to_u32(), a as u32);
        assert_eq!(n(a).to_i64(), a as i64);
        assert!(v(n(a).sqrt()) == a.sqrt() || a.sqrt().is_nan());
    }
    for i in [0u64, 1, 16_777_217, u64::MAX, 123_456_789] {
        assert_eq!(v(Num::from_u64(i)), i as f32);
    }
}

#[test]
fn numbers_are_written_as_expected() {
    for x in [0.0f32, 0.005, 1.0 / 3.0, -2.5, 1234.567, 1.0e10, f32::INFINITY, 0.125, 2.675] {
        assert_eq!(fixed(n(x)), format!("{x:.2}"));
        assert_eq!(rounded(n(x)), format!("{x:.0}"));
    }
    assert_eq!(integer(i64::MIN), i64::MIN.to_string());
    assert_eq!(integer(-70), "-70");
}

#[test]
fn a_number_in_a_payload_reads_back() {
    let e = Event::new(0, EventKind::Ate, 1).with("kind", "GRAIN").with_num("qty", n(2.25));
    assert_eq!(e.num("qty").map(v), Some(2.25));
    assert_eq!(e.num("kind"), None);
    assert_eq!(e.num("absent"), None);
}

#[test]
fn words_are_read_back() {
    for s in [LifeStage::Infant, LifeStage::Adult, LifeStage::Elder] {
        assert_eq!(LifeStage::parse(s.as_str()), s);
    }
    for s in [Sex::Female, Sex::Male] {
        assert_eq!(Sex::parse(s.as_str()), s);
    }
    for k in [StructureKind::Shelter, StructureKind::Fire, StructureKind::Pen] {
        assert_eq!(StructureKind::parse(k.as_str()), k);
    }
}

#[test]
fn the_stream_draws_what_the_generator_draws() {
    let mut ours = Stream::seeded(44127);
    let mut theirs = ChaCha8Rng::seed_from_u64(44127);
    for _ in 0..50 {
        let drawn = v(ours.unit());
        assert!((0.0..1.0).contains(&drawn));
        assert_eq!(drawn, theirs.gen::<f32>());
        assert_eq!(ours.range(-300, 70_000), theirs.gen_range(-300i64..=70_000));
        assert_eq!(ours.index(24), theirs.gen_range(0..24usize));
        assert_eq!(ours.small_range(-6, 6), theirs.gen_range(-6i32..=6));
        assert_eq!(ours.coin(), theirs.gen::<bool>());
    }
}

#[test]
fn reading_ahead_changes_no_draw() {
    let mut tape = Tape::blank();
    let mut ours = Stream::seeded(9);
    let mut theirs = ChaCha8Rng::seed_from_u64(9);
    for i in 0..300 {
        assert_eq!(v(ours.unit_from(&mut tape)), theirs.gen::<f32>());
        if i % 7 == 0 {
            assert_eq!(ours.range(0, 99), theirs.gen_range(0i64..=99));
        }
    }
    let mut other = Stream::seeded(10);
    let mut theirs = ChaCha8Rng::seed_from_u64(10);
    assert_eq!(v(other.unit_from(&mut tape)), theirs.gen::<f32>());
}

#[test]
fn names_come_from_the_stream() {
    let a = name_for(&mut Stream::seeded(3));
    let b = name_for(&mut Stream::seeded(3));
    assert_eq!(a, b);
    assert!(a.len() >= 3);
}

#[test]
fn no_two_events_share_a_name() {
    let kinds = [
        EventKind::Born,
        EventKind::Died,
        EventKind::FireLit,
        EventKind::FireFed,
        EventKind::FireOut,
        EventKind::ShelterBuilt,
        EventKind::ShelterRepaired,
        EventKind::PlanSet,
        EventKind::PlanDone,
        EventKind::HouseholdFounded,
        EventKind::HouseholdLeft,
        EventKind::Shared,
    ];
    for (i, a) in kinds.iter().enumerate() {
        assert!(a.as_str().chars().all(|c| c.is_ascii_uppercase() || c == '_'));
        for b in &kinds[i + 1..] {
            assert_ne!(a.as_str(), b.as_str());
        }
    }
}
