//! Kinship: couples, households, friendship and inheritance.

use life_zone::chance::Stream;
use life_zone::config::{
    ActionsConfig, BenchConfig, DeliberationConfig, FeaturesConfig, HazardsConfig, KnowledgeConfig, LifespanConfig,
    MapConfig, NeedsConfig, PersistenceConfig, ReproductionConfig, ResourcesConfig, WorldConfig,
};
use life_zone::creature::{Creature, Inventory, ItemKind, LifeStage, Pregnancy, Sex, Traits};
use life_zone::economy::spoil;
use life_zone::num::{num, Num};
use life_zone::social::{
    conception_blocker, draw_mutation, inherit, Blocker, Courtships, CreatureIndex, Household, Households, RelKind,
    Relationships,
};
use std::collections::BTreeMap;

fn n(v: f32) -> Num {
    num(v.to_bits())
}

fn v(x: Num) -> f32 {
    f32::from_bits(x.bits)
}

/// The settings the tests run with.
fn config() -> WorldConfig {
    WorldConfig {
        map: MapConfig { width: 512, height: 512, chunk_size: 32, founder_count: 8 },
        lifespan: LifespanConfig {
            baseline_ticks: 672,
            ceiling_ticks: 840,
            infant_until_tick: 168,
            elder_from_tick: 588,
            unsheltered_night_penalty_ticks: n(2.0),
            malnutrition_aging_multiplier: n(1.5),
        },
        needs: NeedsConfig {
            hunger_decay_per_tick: n(0.9),
            thirst_decay_per_tick: n(1.4),
            fatigue_decay_per_tick: n(1.0),
            warmth_decay_night: n(2.0),
            deficit_threshold: n(30.0),
            critical_threshold: n(12.0),
            health_erosion_per_tick: n(1.0),
            health_regen_per_tick: n(0.5),
        },
        actions: ActionsConfig {
            carry_capacity: n(20.0),
            move_speed: n(2.0),
            gather_forage_per_tick: n(2.0),
            night_forage_scale: n(0.5),
            chop_wood_per_tick: n(1.5),
            harvest_wheat_per_tick: n(3.0),
            drink_restore: n(60.0),
            eat_portion: n(2.0),
            rest_restore: n(8.0),
            rest_restore_sheltered: n(14.0),
            fire_wood_cost: n(2.0),
            fire_warmth: n(6.0),
            fire_warmth_radius: 2,
            shelter_warmth: n(4.0),
            shelter_wood_cost: n(12.0),
            shelter_build_ticks: 6,
            shelter_capacity: 6,
            shelter_decay_per_tick: n(0.0005),
            slaughter_yield: n(12.0),
            plant_ticks: 4,
            tend_ticks: 2,
            night_start_hour: 20,
            night_end_hour: 6,
        },
        resources: ResourcesConfig {
            forage_spoil_ticks: 48,
            meat_spoil_ticks: 96,
            grain_spoil_ticks: None,
            fire_fuel_burn_per_tick: n(0.5),
            sheep_flocks: 6,
            wheat_growth_ticks: 72,
            wood_density: n(0.02),
            forage_density: n(0.03),
            soil_density: n(0.05),
            wood_regen_per_tick: n(0.01),
            forage_regen_per_tick: n(0.02),
        },
        hazards: HazardsConfig {
            accident_per_tick: n(0.0004),
            illness_per_tick: n(0.0002),
            illness_low_health_multiplier: n(3.0),
        },
        reproduction: ReproductionConfig {
            courtship_offer_ticks: 20,
            gestation_ticks: 72,
            birth_spacing_ticks: 96,
            store_reserve: n(12.0),
            health_floor: n(50.0),
            birth_store_cost: n(6.0),
            mutation_sigma: n(0.08),
            childbirth_mortality: n(0.0),
        },
        knowledge: KnowledgeConfig {
            observation_radius: 6,
            max_beliefs_held: 48,
            confidence_decay_per_tick: n(0.0025),
            per_hop_penalty: n(0.15),
            teach_fidelity: n(0.98),
            ambient_confidence: n(0.35),
            ambient_share_chance: n(0.02),
            share_belief_count: 3,
            teach_belief_count: 8,
        },
        deliberation: DeliberationConfig {
            horizon_cap_travel: 24,
            horizon_cap_gather: 16,
            horizon_cap_construction: 24,
            horizon_cap_crisis: 6,
            dispatch_ttl_ticks: 40,
            budget_observe: 2,
        },
        persistence: PersistenceConfig { checkpoint_interval_ticks: 100, sample_interval_ticks: 24 },
        features: FeaturesConfig {
            spoilage: true,
            fires: true,
            wheat: true,
            sheep: true,
            knowledge_sharing: true,
            llm: false,
        },
        bench: BenchConfig { maintain_population: None, initial_creatures: None },
    }
}

/// A healthy adult.
fn test_creature() -> Creature {
    Creature {
        id: 1,
        name: "Test".to_string(),
        sex: Sex::Female,
        generation: 1,
        mother_id: None,
        father_id: None,
        household_id: None,
        birth_tick: 0,
        death_tick: None,
        death_cause: None,
        x: 10,
        y: 10,
        life_stage: LifeStage::Adult,
        hunger: n(100.0),
        thirst: n(100.0),
        fatigue: n(100.0),
        warmth: n(100.0),
        health: n(100.0),
        lifespan_ticks: n(672.0),
        wear: n(0.0),
        traits: Traits::default(),
        inventory: Inventory::new(),
        plan: None,
        beliefs: Vec::new(),
        last_deliberation_tick: None,
        deliberation_pressure: n(0.0),
        lifetime_deliberations: 0,
        lifetime_think_fatigue: n(0.0),
        in_shelter: None,
        exposed_ticks: 0,
        at_fire: false,
        trauma: None,
        mate_id: None,
        paired_tick: None,
        pregnancy: None,
        last_birth_tick: None,
        children_born: 0,
        guardian_id: None,
        taught_count: 0,
        shared_count: 0,
        dirty: true,
    }
}

fn pair() -> (Creature, Creature) {
    let mut mother = test_creature();
    mother.id = 1;
    mother.sex = Sex::Female;
    mother.mate_id = Some(2);
    let mut father = test_creature();
    father.id = 2;
    father.sex = Sex::Male;
    father.mate_id = Some(1);
    (mother, father)
}

fn household_with(food: f32, cfg: &WorldConfig) -> Household {
    let mut h = Household {
        id: 1,
        shelter_id: Some(7),
        founded_tick: 0,
        dissolved_tick: None,
        store: Inventory::new(),
        size_cap: cfg.actions.shelter_capacity,
        founder_ids: (1, Some(2)),
        dirty: false,
    };
    h.store.add(ItemKind::Grain, n(food), 0);
    h
}

#[test]
fn a_paired_couple_with_a_home_and_a_full_store_can_conceive() {
    let c = config();
    let (m, f) = pair();
    let h = household_with(v(c.reproduction.store_reserve) + 1.0, &c);
    assert_eq!(conception_blocker(&m, &f, Some(&h), &c, 400), None);
}

#[test]
fn the_store_reserve_is_the_gate_that_makes_farming_necessary() {
    let c = config();
    let (m, f) = pair();
    let short = household_with(v(c.reproduction.store_reserve) - 1.0, &c);
    assert_eq!(conception_blocker(&m, &f, Some(&short), &c, 400), Some(Blocker::StoreShort));
}

#[test]
fn a_household_of_perishables_cannot_reach_the_reserve_for_long() {
    let c = config();
    let (m, f) = pair();
    let mut h = household_with(0.0, &c);
    h.store.add(ItemKind::Forage, n(v(c.reproduction.store_reserve) + 5.0), 0);

    assert_eq!(conception_blocker(&m, &f, Some(&h), &c, 10), None);
    spoil(&mut h.store, 100, &c);
    assert_eq!(v(h.stored_food()), 0.0);
    assert_eq!(conception_blocker(&m, &f, Some(&h), &c, 100), Some(Blocker::StoreShort));
}

#[test]
fn every_requirement_of_section_4_8_is_actually_checked() {
    let c = config();
    let h = household_with(999.0, &c);

    let (mut m, f) = pair();
    m.mate_id = None;
    assert_eq!(conception_blocker(&m, &f, Some(&h), &c, 400), Some(Blocker::NotPaired));

    let (mut m, f) = pair();
    m.life_stage = LifeStage::Elder;
    assert_eq!(conception_blocker(&m, &f, Some(&h), &c, 400), Some(Blocker::NotAdult));

    let (mut m, f) = pair();
    m.health = n(v(c.reproduction.health_floor) - 1.0);
    assert_eq!(conception_blocker(&m, &f, Some(&h), &c, 400), Some(Blocker::Unwell));

    let (m, f) = pair();
    assert_eq!(conception_blocker(&m, &f, None, &c, 400), Some(Blocker::NoHousehold));

    let (m, f) = pair();
    let mut homeless = household_with(999.0, &c);
    homeless.shelter_id = None;
    assert_eq!(conception_blocker(&m, &f, Some(&homeless), &c, 400), Some(Blocker::NoHousehold));
}

#[test]
fn one_child_at_a_time() {
    let c = config();
    let (mut m, f) = pair();
    let h = household_with(999.0, &c);
    m.pregnancy = Some(Pregnancy { father_id: 2, due_tick: 450 });
    assert_eq!(conception_blocker(&m, &f, Some(&h), &c, 400), Some(Blocker::AlreadyExpecting));
}

#[test]
fn children_are_spaced() {
    let c = config();
    let (mut m, f) = pair();
    let h = household_with(999.0, &c);
    m.last_birth_tick = Some(400);
    assert_eq!(conception_blocker(&m, &f, Some(&h), &c, 401), Some(Blocker::TooSoon));
    let later = 400 + c.reproduction.birth_spacing_ticks as i64 + 1;
    assert_eq!(conception_blocker(&m, &f, Some(&h), &c, later), None);
}

#[test]
fn affinity_saturates_rather_than_running_away() {
    let mut r = Relationships::new();
    for t in 0..500 {
        r.adjust(1, 2, n(0.05), None, t);
    }
    assert!(v(r.get(1, 2)) <= 1.0);
    for t in 0..2000 {
        r.adjust(1, 2, n(-0.05), None, t);
    }
    assert!(v(r.get(1, 2)) >= -1.0);
}

#[test]
fn relationships_are_directed() {
    let mut r = Relationships::new();
    r.adjust(1, 2, n(0.4), Some(RelKind::Acquaintance), 10);
    assert_eq!(v(r.get(1, 2)), 0.4);
    assert_eq!(v(r.get(2, 1)), 0.0, "being liked is not the same as liking");
}

#[test]
fn the_dead_are_forgotten() {
    let mut r = Relationships::new();
    r.adjust_both(1, 2, n(0.5), None, 0);
    r.adjust_both(1, 3, n(0.5), None, 0);
    r.forget_dead(&|id| id != 3);
    assert_eq!(r.len(), 2, "only the pair of living edges survives");
    assert_eq!(v(r.get(1, 3)), 0.0);
}

#[test]
fn the_oldest_offer_is_answered_first() {
    let mut c = Courtships::new();
    c.offer(5, 1, 100);
    c.offer(4, 1, 90);
    c.offer(6, 1, 110);
    assert_eq!(c.pending_for(1).unwrap().from, 4);
    c.remove_between(4, 1);
    assert_eq!(c.pending_for(1).unwrap().from, 5);
}

#[test]
fn offers_lapse_if_nobody_answers() {
    let mut c = Courtships::new();
    c.offer(2, 1, 100);
    assert!(c.expire(110, 20).is_empty());
    let lapsed = c.expire(130, 20);
    assert_eq!(lapsed.len(), 1);
    assert!(c.pending_for(1).is_none());
}

#[test]
fn a_dissolved_household_hands_on_what_it_held() {
    let c = config();
    let mut hs = Households::new();
    let id = hs.found(Some(1), 1, Some(2), 0, &c);
    hs.get_mut(id).unwrap().store.add(ItemKind::Grain, n(30.0), 0);

    let mut counts = BTreeMap::new();
    counts.insert(id, 0u32);
    let estates = hs.reap(&counts, 500);

    assert_eq!(estates.len(), 1);
    assert_eq!(v(estates[0].1.total(ItemKind::Grain)), 30.0, "grain is not destroyed by death");
    assert!(hs.get(id).is_none(), "the household is gone");
}

#[test]
fn a_household_with_members_is_not_reaped() {
    let c = config();
    let mut hs = Households::new();
    let id = hs.found(Some(1), 1, Some(2), 0, &c);
    let mut counts = BTreeMap::new();
    counts.insert(id, 2u32);
    assert!(hs.reap(&counts, 500).is_empty());
    assert!(hs.get(id).is_some());
}

#[test]
fn the_creature_index_finds_neighbours_and_excludes_the_asker() {
    let mut ix = CreatureIndex::new(128, 128, 8);
    let mut people = Vec::new();
    for (i, (x, y)) in [(10u32, 10u32), (12, 11), (100, 100)].into_iter().enumerate() {
        let mut c = test_creature();
        c.id = i as i64 + 1;
        (c.x, c.y) = (x, y);
        people.push(c);
    }
    ix.rebuild(&people, 0, &config().knowledge);

    let mut out = Vec::new();
    ix.near(10, 10, 6, 1, &mut out);
    assert_eq!(
        out.iter().map(|p| p.id).collect::<Vec<_>>(),
        vec![2],
        "the far one is out of range and the asker is not its own neighbour"
    );

    ix.near(10, 10, 200, 99, &mut out);
    assert_eq!(out.len(), 3, "nobody is excluded when the asker is not present");
    assert!(out.windows(2).all(|w| w[0].id < w[1].id), "ascending id, always");
}

/// A normal deviate out of two uniform draws.
fn deviate(draws: (Num, Num)) -> Num {
    n((-2.0 * v(draws.0).ln()).sqrt() * (std::f32::consts::TAU * v(draws.1)).cos())
}

fn child_of(a: f32, b: f32, sigma: Num, rng: &mut Stream) -> f32 {
    let z = deviate(draw_mutation(rng));
    v(inherit(n(a), n(b), sigma, z))
}

#[test]
fn a_child_resembles_its_parents_and_occasionally_does_not() {
    let mut rng = Stream::seeded(7);
    let sigma = config().reproduction.mutation_sigma;
    let kids: Vec<f32> = (0..400).map(|_| child_of(0.8, 0.6, sigma, &mut rng)).collect();

    let mean = kids.iter().sum::<f32>() / kids.len() as f32;
    assert!((mean - 0.7).abs() < 0.03, "should centre on the parents' midpoint, got {mean}");
    assert!(kids.iter().all(|x| (0.0..=1.0).contains(x)), "always a legal trait value");
    assert!(
        kids.iter().any(|x| (x - 0.7).abs() > v(sigma) * 1.5),
        "and the tail has to exist, or nothing ever drifts"
    );
}

#[test]
fn inheritance_is_deterministic_for_a_given_stream() {
    let sigma = config().reproduction.mutation_sigma;
    let a = child_of(0.5, 0.5, sigma, &mut Stream::seeded(1));
    let b = child_of(0.5, 0.5, sigma, &mut Stream::seeded(1));
    assert_eq!(a, b);
}
