//! What creatures know, and how it passes between them.

use life_zone::config::{
    ActionsConfig, BenchConfig, DeliberationConfig, FeaturesConfig, HazardsConfig, KnowledgeConfig, LifespanConfig,
    MapConfig, NeedsConfig, PersistenceConfig, ReproductionConfig, ResourcesConfig, WorldConfig,
};
use life_zone::creature::{Creature, Inventory, LifeStage, Sex, Traits};
use life_zone::economy::NodeIndex;
use life_zone::knowledge::{
    forget_expired, known_kinds, least_worth_keeping, rank, relevance, select_for_sharing, topic_for,
    topic_worth_sharing, transmit, upsert, Belief, BeliefKind, Channel, Estimate, NeedProfile,
};
use life_zone::num::{num, Num};
use life_zone::perception::{observe, seed_local_knowledge, WorldCache};
use life_zone::terrain::Terrain;
use life_zone::world::{NodeKind, ResourceNode, World};

fn n(v: f32) -> Num {
    num(v.to_bits())
}

fn v(x: Num) -> f32 {
    f32::from_bits(x.bits)
}

/// The settings the tests run with.
fn config() -> WorldConfig {
    WorldConfig {
        map: MapConfig { width: 512, height: 512, chunk_size: 32, founder_count: 8 },
        lifespan: LifespanConfig {
            baseline_ticks: 672,
            ceiling_ticks: 840,
            infant_until_tick: 168,
            elder_from_tick: 588,
            unsheltered_night_penalty_ticks: n(2.0),
            malnutrition_aging_multiplier: n(1.5),
        },
        needs: NeedsConfig {
            hunger_decay_per_tick: n(0.9),
            thirst_decay_per_tick: n(1.4),
            fatigue_decay_per_tick: n(1.0),
            warmth_decay_night: n(2.0),
            deficit_threshold: n(30.0),
            critical_threshold: n(12.0),
            health_erosion_per_tick: n(1.0),
            health_regen_per_tick: n(0.5),
        },
        actions: ActionsConfig {
            carry_capacity: n(20.0),
            move_speed: n(2.0),
            gather_forage_per_tick: n(2.0),
            night_forage_scale: n(0.5),
            chop_wood_per_tick: n(1.5),
            harvest_wheat_per_tick: n(3.0),
            drink_restore: n(60.0),
            eat_portion: n(2.0),
            rest_restore: n(8.0),
            rest_restore_sheltered: n(14.0),
            fire_wood_cost: n(2.0),
            fire_warmth: n(6.0),
            fire_warmth_radius: 2,
            shelter_warmth: n(4.0),
            shelter_wood_cost: n(12.0),
            shelter_build_ticks: 6,
            shelter_capacity: 6,
            shelter_decay_per_tick: n(0.0005),
            slaughter_yield: n(12.0),
            plant_ticks: 4,
            tend_ticks: 2,
            night_start_hour: 20,
            night_end_hour: 6,
        },
        resources: ResourcesConfig {
            forage_spoil_ticks: 48,
            meat_spoil_ticks: 96,
            grain_spoil_ticks: None,
            fire_fuel_burn_per_tick: n(0.5),
            sheep_flocks: 6,
            wheat_growth_ticks: 72,
            wood_density: n(0.02),
            forage_density: n(0.03),
            soil_density: n(0.05),
            wood_regen_per_tick: n(0.01),
            forage_regen_per_tick: n(0.02),
        },
        hazards: HazardsConfig {
            accident_per_tick: n(0.0004),
            illness_per_tick: n(0.0002),
            illness_low_health_multiplier: n(3.0),
        },
        reproduction: ReproductionConfig {
            courtship_offer_ticks: 20,
            gestation_ticks: 72,
            birth_spacing_ticks: 96,
            store_reserve: n(12.0),
            health_floor: n(50.0),
            birth_store_cost: n(6.0),
            mutation_sigma: n(0.08),
            childbirth_mortality: n(0.0),
        },
        knowledge: KnowledgeConfig {
            observation_radius: 6,
            max_beliefs_held: 48,
            confidence_decay_per_tick: n(0.0025),
            per_hop_penalty: n(0.15),
            teach_fidelity: n(0.98),
            ambient_confidence: n(0.35),
            ambient_share_chance: n(0.02),
            share_belief_count: 3,
            teach_belief_count: 8,
        },
        deliberation: DeliberationConfig {
            horizon_cap_travel: 24,
            horizon_cap_gather: 16,
            horizon_cap_construction: 24,
            horizon_cap_crisis: 6,
            dispatch_ttl_ticks: 40,
            budget_observe: 2,
        },
        persistence: PersistenceConfig { checkpoint_interval_ticks: 100, sample_interval_ticks: 24 },
        features: FeaturesConfig {
            spoilage: true,
            fires: true,
            wheat: true,
            sheep: true,
            knowledge_sharing: true,
            llm: false,
        },
        bench: BenchConfig { maintain_population: None, initial_creatures: None },
    }
}

/// A healthy adult.
fn test_creature() -> Creature {
    Creature {
        id: 1,
        name: "Test".to_string(),
        sex: Sex::Female,
        generation: 1,
        mother_id: None,
        father_id: None,
        household_id: None,
        birth_tick: 0,
        death_tick: None,
        death_cause: None,
        x: 10,
        y: 10,
        life_stage: LifeStage::Adult,
        hunger: n(100.0),
        thirst: n(100.0),
        fatigue: n(100.0),
        warmth: n(100.0),
        health: n(100.0),
        lifespan_ticks: n(672.0),
        wear: n(0.0),
        traits: Traits::default(),
        inventory: Inventory::new(),
        plan: None,
        beliefs: Vec::new(),
        last_deliberation_tick: None,
        deliberation_pressure: n(0.0),
        lifetime_deliberations: 0,
        lifetime_think_fatigue: n(0.0),
        in_shelter: None,
        exposed_ticks: 0,
        at_fire: false,
        trauma: None,
        mate_id: None,
        paired_tick: None,
        pregnancy: None,
        last_birth_tick: None,
        children_born: 0,
        guardian_id: None,
        taught_count: 0,
        shared_count: 0,
        dirty: true,
    }
}

fn k() -> KnowledgeConfig {
    config().knowledge
}

fn belief_from(kind: BeliefKind, x: u32, y: u32, verified: i64, origin: i64) -> Belief {
    Belief {
        kind,
        x,
        y,
        estimate: Estimate::Plentiful,
        confidence: n(1.0),
        learned_tick: verified,
        last_verified_tick: verified,
        source_creature_id: None,
        hops: 0,
        origin_creature_id: Some(origin),
        origin_tick: verified,
    }
}

fn belief(kind: BeliefKind, x: u32, y: u32, verified: i64) -> Belief {
    belief_from(kind, x, y, verified, 1)
}

fn wants(food: f32, water: f32) -> NeedProfile {
    NeedProfile { food: n(food), water: n(water), fuel: n(0.0), shelter: n(0.0) }
}

#[test]
fn a_river_is_remembered_far_longer_than_a_berry_patch() {
    let c = k();
    let water = belief(BeliefKind::Water, 10, 10, 0);
    let forage = belief(BeliefKind::ForageNode, 10, 10, 0);
    let sheep = belief(BeliefKind::SheepFlock, 10, 10, 0);

    assert!(v(water.confidence_at(600, &c)) > 0.8, "the river has not moved");
    assert!(v(forage.confidence_at(600, &c)) < 0.2, "the clearing may well be bare");
    assert!(
        v(sheep.confidence_at(300, &c)) < v(forage.confidence_at(300, &c)),
        "a flock walks away faster than a bush is picked"
    );
}

#[test]
fn confidence_decays_and_never_rises_without_a_verify() {
    let b = belief(BeliefKind::ForageNode, 10, 10, 0);
    let c = k();
    let mut last = f32::MAX;
    for t in [0, 10, 50, 100, 200, 400] {
        let now = v(b.confidence_at(t, &c));
        assert!(now <= last, "confidence must be monotonically non-increasing");
        last = now;
    }
    assert_eq!(v(b.confidence_at(10_000, &c)), 0.0, "clamped at zero, never negative");
}

#[test]
fn verifying_restores_confidence() {
    let mut beliefs = vec![belief(BeliefKind::ForageNode, 5, 5, 0)];
    let c = k();
    assert!(v(beliefs[0].confidence_at(300, &c)) < 0.3);

    upsert(&mut beliefs, belief(BeliefKind::ForageNode, 5, 5, 300), (5, 5), &c, 48, 300);

    assert_eq!(beliefs.len(), 1, "same place is a refresh, not a second belief");
    assert!(v(beliefs[0].confidence_at(300, &c)) > 0.9);
}

#[test]
fn firsthand_observation_displaces_hearsay_about_the_same_place() {
    let c = k();
    let mut hearsay = belief(BeliefKind::WoodNode, 9, 9, 100);
    hearsay.hops = 3;
    hearsay.confidence = n(0.4);
    hearsay.origin_creature_id = Some(77);
    hearsay.origin_tick = 40;
    let mut beliefs = vec![hearsay];

    upsert(&mut beliefs, belief(BeliefKind::WoodNode, 9, 9, 120), (9, 9), &c, 48, 120);

    assert_eq!(beliefs.len(), 1);
    assert_eq!(beliefs[0].hops, 0, "seeing it yourself beats being told");
    assert_eq!(beliefs[0].origin_creature_id, Some(77), "but the original discoverer keeps the credit");
    assert_eq!(beliefs[0].origin_tick, 40);
}

#[test]
fn a_stale_belief_is_forgotten_entirely() {
    let c = k();
    let mut beliefs = vec![belief(BeliefKind::ForageNode, 1, 1, 0)];
    assert_eq!(forget_expired(&mut beliefs, 100, &c), 0);
    assert_eq!(forget_expired(&mut beliefs, 5_000, &c), 1);
    assert!(beliefs.is_empty());
}

#[test]
fn relevance_prefers_the_near_certain_thing_over_the_far_rumour() {
    let c = k();
    let needs = wants(1.0, 0.0);

    let near = belief(BeliefKind::ForageNode, 12, 10, 100);
    let mut far = belief(BeliefKind::ForageNode, 200, 180, 100);
    far.hops = 2;
    far.confidence = n(0.5);

    let rn = v(relevance(&near, (10, 10), 100, &needs, &c));
    let rf = v(relevance(&far, (10, 10), 100, &needs, &c));
    assert!(rn > rf, "near firsthand {rn} should beat far hearsay {rf}");
}

#[test]
fn relevance_follows_the_need_not_just_the_distance() {
    let c = k();
    let water = belief(BeliefKind::Water, 40, 40, 100);
    let forage = belief(BeliefKind::ForageNode, 12, 10, 100);

    let thirsty = wants(0.1, 1.0);
    assert!(
        v(relevance(&water, (10, 10), 100, &thirsty, &c)) > v(relevance(&forage, (10, 10), 100, &thirsty, &c)),
        "a thirsty creature should rank distant water above near berries"
    );

    let hungry = wants(1.0, 0.1);
    assert!(v(relevance(&forage, (10, 10), 100, &hungry, &c)) > v(relevance(&water, (10, 10), 100, &hungry, &c)));
}

#[test]
fn an_emptied_node_stops_being_worth_walking_to() {
    let c = k();
    let needs = wants(1.0, 0.0);
    let mut b = belief(BeliefKind::ForageNode, 12, 10, 100);
    let full = v(relevance(&b, (10, 10), 100, &needs, &c));
    b.estimate = Estimate::Empty;
    let empty = v(relevance(&b, (10, 10), 100, &needs, &c));
    assert!(empty < full * 0.1, "a clearing known to be bare should not attract");
}

#[test]
fn memory_is_capped_and_forgets_the_least_useful() {
    let c = k();
    let mut beliefs = Vec::new();
    upsert(&mut beliefs, belief(BeliefKind::Water, 100, 100, 500), (100, 100), &c, 4, 500);
    for i in 0..8u32 {
        upsert(&mut beliefs, belief(BeliefKind::ForageNode, 400 + i, 400, 500), (100, 100), &c, 4, 500);
    }
    assert_eq!(beliefs.len(), 4, "capped");
    assert!(
        beliefs.iter().any(|b| b.kind == BeliefKind::Water),
        "the only water a creature knows must survive the cull"
    );
}

#[test]
fn walking_away_from_the_river_does_not_erase_it() {
    let c = k();
    let mut beliefs = vec![belief(BeliefKind::Water, 10, 10, 500)];
    for i in 0..12u32 {
        upsert(&mut beliefs, belief(BeliefKind::ForageNode, 300 + i, 300, 500), (300, 300), &c, 6, 500);
    }
    assert_eq!(beliefs.len(), 6);
    assert!(
        beliefs.iter().any(|b| b.kind == BeliefKind::Water),
        "the creature must still know where the river is"
    );
}

#[test]
fn what_is_known_to_be_empty_is_forgotten_first() {
    let c = k();
    let mut beliefs = Vec::new();
    for i in 0..4u32 {
        let mut b = belief(BeliefKind::ForageNode, 10 + i, 10, 500);
        if i == 2 {
            b.estimate = Estimate::Empty;
        }
        beliefs.push(b);
    }
    assert_eq!(least_worth_keeping(&beliefs, 500, &c), 2);
}

#[test]
fn ranking_is_stable_and_ordered() {
    let c = k();
    let needs = wants(1.0, 1.0);
    let beliefs = vec![
        belief(BeliefKind::ForageNode, 200, 200, 100),
        belief(BeliefKind::Water, 11, 10, 100),
        belief(BeliefKind::ForageNode, 14, 10, 100),
    ];
    let top = rank(&beliefs, (10, 10), 100, &needs, &c, 2);
    assert_eq!(top, vec![1, 2], "nearest first, and the far one drops out");
    assert_eq!(top, rank(&beliefs, (10, 10), 100, &needs, &c, 2), "stable");
}

#[test]
fn provenance_reads_as_language_not_numbers() {
    let mut b = belief(BeliefKind::Water, 1, 1, 100);
    assert!(b.provenance(110).contains("yourself"));
    b.hops = 1;
    assert!(b.provenance(300).contains("told you"));
    b.hops = 3;
    assert!(b.provenance(300).contains("3 hops"));
}

fn found_by_41(kind: BeliefKind, x: u32, y: u32, verified: i64) -> Belief {
    belief_from(kind, x, y, verified, 41)
}

#[test]
fn sharing_costs_a_hop_and_some_confidence() {
    let c = k();
    let mine = found_by_41(BeliefKind::Water, 10, 10, 100);
    let yours = transmit(&mine, 7, Channel::Share, &c, 100);

    assert_eq!(yours.hops, 1);
    assert_eq!(yours.source_creature_id, Some(7));
    assert!(v(yours.confidence) < v(mine.confidence), "hearsay is worse than seeing");
    assert_eq!(v(yours.confidence), 1.0 - v(c.per_hop_penalty));
}

#[test]
fn teaching_transmits_as_though_firsthand() {
    let c = k();
    let mine = found_by_41(BeliefKind::SoilPatch, 40, 40, 200);
    let taught = transmit(&mine, 7, Channel::Teach, &c, 260);

    assert_eq!(taught.hops, 0, "taught knowledge is not hearsay");
    assert!(v(taught.confidence) > 0.9);
}

#[test]
fn ambient_observation_leaks_only_a_little() {
    let c = k();
    let mine = found_by_41(BeliefKind::WoodNode, 20, 20, 100);
    let overheard = transmit(&mine, 7, Channel::Observation, &c, 100);

    assert!(overheard.hops >= 1);
    assert!(
        v(overheard.confidence) <= v(c.ambient_confidence),
        "watching where somebody walks is not being told"
    );
}

#[test]
fn the_discoverer_survives_every_retransmission() {
    let c = k();
    let mut b = found_by_41(BeliefKind::Water, 10, 10, 50);
    b.confidence = n(1.0);

    for hop in 0..4 {
        b = transmit(&b, 100 + hop, Channel::Share, &c, 60);
        b.confidence = n(v(b.confidence).max(0.6));
        assert_eq!(b.origin_creature_id, Some(41), "credit never moves");
        assert_eq!(b.origin_tick, 50);
    }
    assert!(b.hops >= 4);
}

#[test]
fn a_taught_belief_still_credits_the_original_discoverer() {
    let c = k();
    let mut b = found_by_41(BeliefKind::SoilPatch, 12, 12, 30);
    b = transmit(&b, 5, Channel::Share, &c, 40);
    let taught = transmit(&b, 6, Channel::Teach, &c, 50);

    assert_eq!(taught.hops, 0, "fidelity is restored");
    assert_eq!(taught.origin_creature_id, Some(41), "but authorship is not rewritten");
}

#[test]
fn a_sharer_offers_what_it_is_surest_of_first() {
    let c = k();
    let mut beliefs = vec![
        found_by_41(BeliefKind::ForageNode, 12, 10, 0),
        found_by_41(BeliefKind::ForageNode, 11, 10, 500),
    ];
    beliefs[0].estimate = Estimate::Empty;

    let picked = select_for_sharing(&beliefs, Some(BeliefKind::ForageNode), (10, 10), 500, &c, 1);
    assert_eq!(picked, vec![1], "the fresh, plentiful one goes first");
}

#[test]
fn the_topic_filter_is_respected() {
    let c = k();
    let beliefs =
        vec![found_by_41(BeliefKind::Water, 12, 10, 100), found_by_41(BeliefKind::WoodNode, 13, 10, 100)];
    let picked = select_for_sharing(&beliefs, Some(BeliefKind::Water), (10, 10), 100, &c, 5);
    assert_eq!(picked, vec![0]);
}

#[test]
fn the_topic_raised_is_one_the_listener_lacks() {
    let c = k();
    let mine =
        vec![found_by_41(BeliefKind::Water, 10, 10, 100), found_by_41(BeliefKind::WoodNode, 20, 20, 100)];
    let theirs = vec![found_by_41(BeliefKind::Water, 10, 10, 100)];

    assert_eq!(
        topic_worth_sharing(&mine, &theirs, 100, &c),
        Some(BeliefKind::WoodNode),
        "no point telling somebody about the river they drink at"
    );
    assert_eq!(
        topic_worth_sharing(&theirs, &mine, 100, &c),
        None,
        "and nothing to add is a legitimate answer"
    );
}

fn world_with_water() -> World {
    let mut w = World {
        width: 64,
        height: 64,
        chunk_size: 32,
        seed: 1,
        tiles: vec![Terrain::Grass; 64 * 64],
        nodes: Vec::new(),
        founders: Vec::new(),
    };
    for y in 0..64 {
        let i = w.idx(60, y);
        w.tiles[i] = Terrain::ShallowWater;
    }
    w
}

fn node(kind: NodeKind, x: u32, y: u32, quantity: f32) -> ResourceNode {
    ResourceNode { kind, x, y, quantity: n(quantity), max_quantity: n(quantity), regen_rate: n(0.0) }
}

#[test]
fn the_water_field_knows_both_how_far_and_which_way() {
    let w = world_with_water();
    let c = WorldCache::build(&w);

    assert_eq!(c.water_dist[w.idx(59, 10)], 1);
    assert_eq!(c.water_within(&w, 59, 10, 6), Some((60, 10)));
    assert!(c.water_within(&w, 10, 10, 6).is_none(), "too far to see");
}

#[test]
fn a_creature_forms_a_firsthand_belief_about_what_it_can_see() {
    let mut w = world_with_water();
    w.nodes.push(node(NodeKind::Forage, 20, 20, 12.0));
    let cache = WorldCache::build(&w);
    let idx = NodeIndex::new(&w, 8);
    let cfg = config();
    let mut scratch = Vec::new();
    let mut events = Vec::new();

    let mut c = test_creature();
    (c.x, c.y) = (22, 20);

    let found = observe(&mut c, &w, &cache, &idx, &mut scratch, &cfg, 10, &mut events);

    assert_eq!(found, 1);
    assert_eq!(c.beliefs.len(), 1);
    assert_eq!(c.beliefs[0].kind, BeliefKind::ForageNode);
    assert!(c.beliefs[0].is_firsthand());
    assert_eq!(c.beliefs[0].estimate, Estimate::Plentiful);
    assert_eq!(events.len(), 1);
}

#[test]
fn seeing_a_stripped_node_corrects_the_belief_that_led_you_there() {
    let mut w = world_with_water();
    w.nodes.push(node(NodeKind::Forage, 20, 20, 12.0));
    let cache = WorldCache::build(&w);
    let mut idx = NodeIndex::new(&w, 8);
    let cfg = config();
    let (mut scratch, mut events) = (Vec::new(), Vec::new());

    let mut c = test_creature();
    (c.x, c.y) = (20, 20);
    observe(&mut c, &w, &cache, &idx, &mut scratch, &cfg, 10, &mut events);
    assert_eq!(c.beliefs[0].estimate, Estimate::Plentiful);

    w.nodes[0].quantity = n(0.0);
    idx.rebuild(&w);
    observe(&mut c, &w, &cache, &idx, &mut scratch, &cfg, 90, &mut events);

    assert_eq!(c.beliefs.len(), 1, "still one belief about that clearing");
    assert_eq!(c.beliefs[0].estimate, Estimate::Empty, "now known to be bare");
    assert_eq!(c.beliefs[0].last_verified_tick, 90);
}

#[test]
fn nothing_out_of_sight_is_believed() {
    let w = world_with_water();
    let cache = WorldCache::build(&w);
    let idx = NodeIndex::new(&w, 8);
    let cfg = config();
    let (mut scratch, mut events) = (Vec::new(), Vec::new());

    let mut c = test_creature();
    (c.x, c.y) = (5, 5);
    assert_eq!(observe(&mut c, &w, &cache, &idx, &mut scratch, &cfg, 1, &mut events), 0);
    assert!(c.beliefs.is_empty(), "no creature sees the whole map");
}

#[test]
fn a_founder_starts_knowing_its_own_water() {
    let mut w = world_with_water();
    w.nodes.push(node(NodeKind::Wood, 45, 30, 40.0));
    let cache = WorldCache::build(&w);
    let idx = NodeIndex::new(&w, 8);
    let cfg = config();
    let mut scratch = Vec::new();

    let mut c = test_creature();
    (c.x, c.y) = (44, 30);
    seed_local_knowledge(&mut c, &w, &cache, &idx, &mut scratch, &cfg, 0);

    assert!(
        c.beliefs.iter().any(|b| b.kind == BeliefKind::Water),
        "an adult who lives here knows where the water is"
    );
    assert!(c.beliefs.iter().any(|b| b.kind == BeliefKind::WoodNode));
}

#[test]
fn kinds_of_belief_are_told_apart() {
    let kinds = [
        BeliefKind::Water,
        BeliefKind::SoilPatch,
        BeliefKind::Shelter,
        BeliefKind::WoodNode,
        BeliefKind::ForageNode,
        BeliefKind::SheepFlock,
        BeliefKind::Person,
        BeliefKind::Danger,
        BeliefKind::HouseholdTerritory,
    ];
    for (i, a) in kinds.iter().enumerate() {
        assert_eq!(BeliefKind::parse(a.as_str()), Some(*a));
        for b in &kinds[i + 1..] {
            assert_ne!(a.bit() & b.bit(), a.bit());
        }
    }
    assert_eq!(BeliefKind::parse("NOWHERE"), None);
}

#[test]
fn a_mask_holds_what_is_known() {
    let c = k();
    let beliefs = vec![belief(BeliefKind::Water, 1, 1, 0), belief(BeliefKind::ForageNode, 2, 2, 0)];
    let mask = known_kinds(&beliefs, 0, &c);
    assert_eq!(mask, BeliefKind::Water.bit() | BeliefKind::ForageNode.bit());
    assert_eq!(topic_for(mask, BeliefKind::Water.bit()), Some(BeliefKind::ForageNode));
    assert_eq!(topic_for(mask, mask), None);
}

#[test]
fn hearsay_never_replaces_what_was_seen() {
    let c = k();
    let seen = belief(BeliefKind::WoodNode, 9, 9, 100);
    let mut beliefs = vec![seen];
    let mut word = belief_from(BeliefKind::WoodNode, 9, 9, 400, 77);
    word.hops = 1;
    word.estimate = Estimate::Empty;
    assert!(!upsert(&mut beliefs, word, (9, 9), &c, 48, 400));
    assert_eq!(beliefs.len(), 1);
    assert_eq!((beliefs[0].hops, beliefs[0].last_verified_tick), (0, 100), "however late the word comes");
    assert_eq!(beliefs[0].estimate, Estimate::Plentiful);

    assert!(!upsert(&mut beliefs, belief(BeliefKind::WoodNode, 9, 9, 401), (9, 9), &c, 48, 401));
    assert_eq!(beliefs[0].last_verified_tick, 401, "a later look is another matter");

    let mut told = vec![word];
    let mut nearer = word;
    nearer.last_verified_tick = 390;
    nearer.hops = 3;
    upsert(&mut told, nearer, (9, 9), &c, 48, 401);
    assert_eq!(told[0].hops, 1, "older word from further off changes nothing");
    nearer.last_verified_tick = 401;
    upsert(&mut told, nearer, (9, 9), &c, 48, 401);
    assert_eq!(told[0].hops, 3, "later word does");
}

#[test]
fn a_first_patch_of_soil_underfoot_is_a_discovery() {
    let mut w = world_with_water();
    let i = w.idx(5, 5);
    w.tiles[i] = Terrain::Soil;
    let cache = WorldCache::build(&w);
    let idx = NodeIndex::new(&w, 8);
    let cfg = config();
    let (mut scratch, mut events) = (Vec::new(), Vec::new());

    let mut c = test_creature();
    (c.x, c.y) = (5, 5);
    assert_eq!(observe(&mut c, &w, &cache, &idx, &mut scratch, &cfg, 7, &mut events), 1);
    assert_eq!(c.beliefs.len(), 1);
    let b = &c.beliefs[0];
    assert_eq!((b.kind, b.x, b.y, b.hops, b.last_verified_tick), (BeliefKind::SoilPatch, 5, 5, 0, 7));
    assert_eq!(events.len(), 1);
    assert_eq!(events[0].payload, "kind=SOIL_PATCH count=1");
    assert_eq!((events[0].x, events[0].y), (Some(5), Some(5)));

    assert_eq!(observe(&mut c, &w, &cache, &idx, &mut scratch, &cfg, 8, &mut events), 0, "it is known now");
    assert_eq!(events.len(), 1);
}
