//! Whole runs, tick by tick.

use life_zone::actions::{AbortReason, Goal, Step, Target};
use life_zone::birth::{Deviates, Labour};
use life_zone::config::{
    ActionsConfig, BenchConfig, DeliberationConfig, FeaturesConfig, HazardsConfig, KnowledgeConfig, LifespanConfig,
    MapConfig, NeedsConfig, PersistenceConfig, ReproductionConfig, ResourcesConfig, WorldConfig,
};
use life_zone::course::{Course, Errand, News, Phase, Snag};
use life_zone::creature::{Addresses, DeathCause, ItemKind, LifeStage, Plan, Sex};
use life_zone::economy::{Structure, StructureKind};
use life_zone::knowledge::{Belief, BeliefKind, Channel, Estimate};
use life_zone::num::{num, Num};
use life_zone::records::TickReport;
use life_zone::social::{Blocker, SocialIntent};
use life_zone::tick::{can_start, Loaded, Sim};
use life_zone::town::{apply_social_intents, transfer_beliefs};
use life_zone::world::{NodeKind, ResourceNode};
use life_zone::worldgen::{can_generate, generate};
use std::collections::BTreeSet;
use std::time::Instant;

fn n(v: f32) -> Num {
    num(v.to_bits())
}

fn v(x: Num) -> f32 {
    f32::from_bits(x.bits)
}

/// The settings the tests run with.
fn config() -> WorldConfig {
    WorldConfig {
        map: MapConfig { width: 512, height: 512, chunk_size: 32, founder_count: 8 },
        lifespan: LifespanConfig {
            baseline_ticks: 672,
            ceiling_ticks: 840,
            infant_until_tick: 168,
            elder_from_tick: 588,
            unsheltered_night_penalty_ticks: n(2.0),
            malnutrition_aging_multiplier: n(1.5),
        },
        needs: NeedsConfig {
            hunger_decay_per_tick: n(0.9),
            thirst_decay_per_tick: n(1.4),
            fatigue_decay_per_tick: n(1.0),
            warmth_decay_night: n(2.0),
            deficit_threshold: n(30.0),
            critical_threshold: n(12.0),
            health_erosion_per_tick: n(1.0),
            health_regen_per_tick: n(0.5),
        },
        actions: ActionsConfig {
            carry_capacity: n(20.0),
            move_speed: n(2.0),
            gather_forage_per_tick: n(2.0),
            night_forage_scale: n(0.5),
            chop_wood_per_tick: n(1.5),
            harvest_wheat_per_tick: n(3.0),
            drink_restore: n(60.0),
            eat_portion: n(2.0),
            rest_restore: n(8.0),
            rest_restore_sheltered: n(14.0),
            fire_wood_cost: n(2.0),
            fire_warmth: n(6.0),
            fire_warmth_radius: 2,
            shelter_warmth: n(4.0),
            shelter_wood_cost: n(12.0),
            shelter_build_ticks: 6,
            shelter_capacity: 6,
            shelter_decay_per_tick: n(0.0005),
            slaughter_yield: n(12.0),
            plant_ticks: 4,
            tend_ticks: 2,
            night_start_hour: 20,
            night_end_hour: 6,
        },
        resources: ResourcesConfig {
            forage_spoil_ticks: 48,
            meat_spoil_ticks: 96,
            grain_spoil_ticks: None,
            fire_fuel_burn_per_tick: n(0.5),
            sheep_flocks: 6,
            wheat_growth_ticks: 72,
            wood_density: n(0.02),
            forage_density: n(0.03),
            soil_density: n(0.05),
            wood_regen_per_tick: n(0.01),
            forage_regen_per_tick: n(0.02),
        },
        hazards: HazardsConfig {
            accident_per_tick: n(0.0004),
            illness_per_tick: n(0.0002),
            illness_low_health_multiplier: n(3.0),
        },
        reproduction: ReproductionConfig {
            courtship_offer_ticks: 20,
            gestation_ticks: 72,
            birth_spacing_ticks: 96,
            store_reserve: n(12.0),
            health_floor: n(50.0),
            birth_store_cost: n(6.0),
            mutation_sigma: n(0.08),
            childbirth_mortality: n(0.0),
        },
        knowledge: KnowledgeConfig {
            observation_radius: 6,
            max_beliefs_held: 48,
            confidence_decay_per_tick: n(0.0025),
            per_hop_penalty: n(0.15),
            teach_fidelity: n(0.98),
            ambient_confidence: n(0.35),
            ambient_share_chance: n(0.02),
            share_belief_count: 3,
            teach_belief_count: 8,
        },
        deliberation: DeliberationConfig {
            horizon_cap_travel: 24,
            horizon_cap_gather: 16,
            horizon_cap_construction: 24,
            horizon_cap_crisis: 6,
            dispatch_ttl_ticks: 40,
            budget_observe: 2,
        },
        persistence: PersistenceConfig { checkpoint_interval_ticks: 100, sample_interval_ticks: 24 },
        features: FeaturesConfig {
            spoilage: true,
            fires: true,
            wheat: true,
            sheep: true,
            knowledge_sharing: true,
            llm: false,
        },
        bench: BenchConfig { maintain_population: None, initial_creatures: None },
    }
}

/// What a creature falls back on: drink, eat, gather, rest, or look around.
fn reflex(sim: &Sim, i: usize) -> Plan {
    let c = &sim.town.creatures[i];
    let world = &sim.ctx.world;
    let known = |kind: BeliefKind| {
        c.beliefs
            .iter()
            .filter(|b| b.kind == kind && b.estimate != Estimate::Empty)
            .min_by_key(|b| (b.x.abs_diff(c.x) + b.y.abs_diff(c.y), b.x, b.y))
            .map(|b| (b.x, b.y))
    };
    let addresses;
    let mut steps = Vec::new();
    let water = known(BeliefKind::Water);
    let berries = known(BeliefKind::ForageNode)
        .and_then(|(x, y)| sim.node_index.find_at(world, NodeKind::Forage, x, y).map(|at| (at, x, y)));
    let infant = c.life_stage == LifeStage::Infant;
    if v(c.thirst) < 55.0 && water.is_some() && !infant {
        let (x, y) = water.unwrap();
        addresses = Addresses::Water;
        steps.push(Step::new(Goal::MoveTo, Target::Tile(x, y), 12));
        steps.push(Step::new(Goal::Drink, Target::Tile(x, y), 1));
    } else if v(c.hunger) < 60.0 && v(c.inventory.total_food()) > 0.0 {
        addresses = Addresses::Food;
        steps.push(Step::new(Goal::EatFromInventory, Target::Nothing, 1));
    } else if v(c.hunger) < 80.0 && v(c.inventory.total_food()) < 4.0 && berries.is_some() && !infant {
        let (at, x, y) = berries.unwrap();
        addresses = Addresses::Food;
        steps.push(Step::new(Goal::MoveTo, Target::Tile(x, y), 12));
        steps.push(Step::new(Goal::GatherForage, Target::Node(at), 3));
    } else if v(c.fatigue) < 40.0 || infant {
        addresses = Addresses::Rest;
        steps.push(Step::new(Goal::Rest, Target::Nothing, 4));
    } else {
        let turn = (c.id * 7 + sim.ctx.tick) as u32;
        let x = (c.x + turn % 23).saturating_sub(11).min(world.width - 1);
        let y = (c.y + (turn / 23) % 23).saturating_sub(11).min(world.height - 1);
        addresses = Addresses::Knowledge;
        steps.push(Step::new(Goal::Explore, Target::Tile(x, y), 8));
    }
    Plan {
        steps,
        step_index: 0,
        horizon: 16,
        ticks_remaining: 16,
        set_tick: sim.ctx.tick,
        rationale: "habit".to_string(),
        tier: 1,
        addresses,
    }
}

/// A normal deviate out of two uniform draws.
fn deviate(draws: (Num, Num)) -> Num {
    n((-2.0 * v(draws.0).ln()).sqrt() * (std::f32::consts::TAU * v(draws.1)).cos())
}

fn deviates(labour: &Labour) -> Deviates {
    Deviates {
        boldness: deviate(labour.draws.boldness),
        industry: deviate(labour.draws.industry),
        sociability: deviate(labour.draws.sociability),
        caution: deviate(labour.draws.caution),
    }
}

/// One tick, with everybody falling back on habit.
fn step(sim: &mut Sim) -> TickReport {
    let mut course = Course::begin(sim, None, 0);
    let (mut world, mut act) = (0, 0);
    loop {
        let phase = course.phase;
        let news = match course.errand(sim) {
            Errand::Rest => break,
            Errand::Proceed => News::Go,
            Errand::Decide(i) => News::Habit(reflex(sim, i), sim.ctx.rng),
            Errand::Deliver(labour) => News::Born(deviates(&labour)),
            other => panic!("nobody was to be asked: {other:?}"),
        };
        let start = Instant::now();
        course.advance(sim, news).unwrap();
        let took = start.elapsed().as_micros() as u64;
        match phase {
            Phase::World | Phase::Needs | Phase::Plans => world += took,
            Phase::Acting => act += took,
            _ => {}
        }
    }
    let mut report = course.report;
    report.timings.world = world;
    report.timings.act = act;
    report
}

fn resolve(sim: &mut Sim, report: &mut TickReport) {
    for place in sim.meet(report) {
        if let Some(labour) = sim.begin_birth(place, report) {
            sim.finish_birth(labour, deviates(&labour), report);
        }
    }
    sim.end_lives(report);
}

fn small() -> WorldConfig {
    let mut cfg = config();
    cfg.map.width = 128;
    cfg.map.height = 128;
    cfg
}

fn fresh(seed: u64, cfg: WorldConfig) -> Sim {
    assert!(can_generate(&cfg));
    let world = generate(seed, &cfg).world;
    assert!(can_start(&world, &cfg));
    Sim::new(1, world, cfg, seed)
}

fn sim_with(seed: u64, creatures: u32, cfg: WorldConfig) -> Sim {
    let mut sim = fresh(seed, cfg);
    sim.spawn_population(creatures);
    sim
}

fn index(sim: &Sim, id: i64) -> usize {
    sim.town.creatures.iter().position(|c| c.id == id).unwrap()
}

fn died_of(sim: &Sim, cause: DeathCause) -> u32 {
    sim.deaths.by_cause.get(cause.slot())
}

#[test]
fn founders_become_creatures() {
    let mut sim = fresh(44127, small());
    let founders = sim.ctx.world.founders.len();

    sim.spawn_founders();

    assert_eq!(sim.alive(), founders, "every founder becomes a row in creatures");
    assert!(sim.town.creatures.iter().all(|c| c.generation == 1));
    assert!(
        sim.town.creatures.iter().any(|c| c.sex == Sex::Female)
            && sim.town.creatures.iter().any(|c| c.sex == Sex::Male),
        "mixed sex"
    );
}

#[test]
fn a_founder_starts_life_knowing_something() {
    let mut sim = fresh(44127, small());
    sim.spawn_founders();
    assert!(
        sim.town.creatures.iter().all(|c| !c.beliefs.is_empty()),
        "an adult who lives here is not born blind"
    );
}

#[test]
fn a_tick_advances_the_clock_and_reports_its_phases() {
    let mut sim = sim_with(44127, 20, small());
    let r = step(&mut sim);

    assert_eq!(r.tick, 1);
    assert_eq!(sim.ctx.tick, 1);
    assert_eq!(r.population, 20);
    assert!(r.timings.total() > 0, "phase timings are recorded from the first tick");
}

#[test]
fn needs_decay_every_tick() {
    let mut sim = sim_with(44127, 8, small());
    let before: Vec<f32> = sim.town.creatures.iter().map(|c| v(c.thirst)).collect();
    step(&mut sim);
    let after: Vec<f32> = sim.town.creatures.iter().map(|c| v(c.thirst)).collect();
    assert!(
        before.iter().zip(&after).all(|(b, a)| a < b || *a >= 99.9),
        "thirst must fall unless the creature drank"
    );
}

#[test]
fn no_creature_is_ever_left_without_a_decision() {
    let mut sim = sim_with(44127, 40, small());
    for _ in 0..60 {
        let before = sim.alive() as u32;
        let r = step(&mut sim);
        assert_eq!(r.acted, before, "every creature acted at tick {}", r.tick);
    }
}

#[test]
fn creatures_act_on_the_world_rather_than_standing_still() {
    let mut sim = sim_with(44127, 60, small());
    let start: Vec<(u32, u32)> = sim.town.creatures.iter().map(|c| (c.x, c.y)).collect();
    for _ in 0..30 {
        step(&mut sim);
    }
    let moved = sim.town.creatures.iter().zip(&start).filter(|(c, s)| (c.x, c.y) != **s).count();
    assert!(moved > sim.alive() / 2, "only {moved} of {} moved", sim.alive());
}

#[test]
fn a_run_produces_deaths_with_recorded_causes() {
    let mut cfg = small();
    cfg.bench.maintain_population = Some(60);
    let mut sim = sim_with(44127, 60, cfg);
    for _ in 0..900 {
        step(&mut sim);
    }

    let total: u32 = (0..7).map(|i| sim.deaths.by_cause.get(i)).sum();
    assert!(total > 0, "nobody died in 900 ticks, which is not a simulation of life");
    assert_eq!(total as u64, sim.deaths.total);
    assert!(
        died_of(&sim, DeathCause::OldAge) > 0,
        "with the population held steady, some creatures should reach old age"
    );
}

#[test]
fn the_same_seed_produces_a_byte_identical_run() {
    let run = |seed: u64| {
        let mut sim = sim_with(seed, 40, small());
        let mut log = String::new();
        for _ in 0..120 {
            step(&mut sim);
            for e in &sim.ctx.events {
                log.push_str(&e.digest_line());
                log.push('\n');
            }
        }
        (log, sim.state_digest())
    };

    let (log_a, digest_a) = run(44127);
    let (log_b, digest_b) = run(44127);

    assert_eq!(log_a, log_b, "the event log must be byte-identical");
    assert_eq!(digest_a, digest_b);
    assert!(!log_a.is_empty(), "a run that logs nothing proves nothing");
}

#[test]
fn different_seeds_produce_different_runs() {
    let run = |seed: u64| {
        let mut sim = sim_with(seed, 40, small());
        for _ in 0..120 {
            step(&mut sim);
        }
        sim.state_digest()
    };
    assert_ne!(run(44127), run(9001));
}

#[test]
fn a_creature_whose_needs_are_all_met_dies_only_of_old_age() {
    let mut sim = fresh(44127, small());
    sim.spawn_at(20, 20, Sex::Female, 400, 1);
    sim.ctx.cfg.hazards.accident_per_tick = n(0.0);
    sim.ctx.cfg.hazards.illness_per_tick = n(0.0);

    for _ in 0..900 {
        for c in sim.town.creatures.iter_mut() {
            c.hunger = n(100.0);
            c.thirst = n(100.0);
            c.fatigue = n(100.0);
            c.warmth = n(100.0);
            c.health = n(100.0);
        }
        step(&mut sim);
        if sim.alive() == 0 {
            break;
        }
    }

    assert_eq!(sim.alive(), 0, "it should still die eventually");
    assert_eq!(died_of(&sim, DeathCause::OldAge), 1);
    for i in 0..7 {
        if i != DeathCause::OldAge.slot() {
            assert_eq!(sim.deaths.by_cause.get(i), 0, "cause {i} should not occur when every need is met");
        }
    }
}

#[test]
fn thirst_kills_a_creature_kept_from_water() {
    let mut sim = fresh(44127, small());
    sim.spawn_at(20, 20, Sex::Female, 200, 1);

    for _ in 0..600 {
        for c in sim.town.creatures.iter_mut() {
            c.thirst = n(0.0);
            c.hunger = n(100.0);
            c.warmth = n(100.0);
        }
        step(&mut sim);
        if sim.alive() == 0 {
            break;
        }
    }
    assert_eq!(died_of(&sim, DeathCause::Dehydration), 1);
}

#[test]
fn beliefs_accumulate_as_creatures_walk_around() {
    let mut sim = sim_with(44127, 30, small());
    let before: usize = sim.town.creatures.iter().map(|c| c.beliefs.len()).sum();
    for _ in 0..120 {
        step(&mut sim);
    }
    let after: usize = sim.town.creatures.iter().map(|c| c.beliefs.len()).sum();
    assert!(after > before, "exploring should teach a creature something: {before} -> {after}");
}

#[test]
fn plans_are_abandoned_and_the_reason_is_recorded() {
    let mut cfg = small();
    cfg.bench.maintain_population = Some(80);
    let mut sim = sim_with(44127, 80, cfg);
    let mut reasons: BTreeSet<String> = BTreeSet::new();
    for _ in 0..400 {
        step(&mut sim);
        for o in &sim.plan_outcomes {
            if o.reason != AbortReason::Completed {
                reasons.insert(o.reason.as_str().to_string());
            }
        }
    }
    assert!(reasons.len() >= 2, "a world that never invalidates a plan is too static; saw {reasons:?}");
}

/// Two healthy adults next to each other with a stocked household.
fn shelter_at(x: u32, y: u32) -> Structure {
    Structure {
        id: 0,
        kind: StructureKind::Shelter,
        x,
        y,
        condition: n(1.0),
        capacity: 6,
        occupants: 0,
        household_id: None,
        built_tick: 0,
        fuel_remaining: n(0.0),
        lit_until_tick: None,
        dirty: false,
    }
}

fn couple_at_home(sim: &mut Sim, food: f32) -> (i64, i64, i64) {
    let a = sim.spawn_at(20, 20, Sex::Female, 200, 1);
    let b = sim.spawn_at(20, 21, Sex::Male, 200, 1);
    let shelter = sim.ctx.structures.add(shelter_at(20, 20));
    let cfg = sim.ctx.cfg;
    let h = sim.town.households.found(Some(shelter), a, Some(b), 0, &cfg);
    sim.town.households.get_mut(h).unwrap().store.add(ItemKind::Grain, n(food), 0);
    for id in [a, b] {
        let i = index(sim, id);
        sim.town.creatures[i].household_id = Some(h);
        sim.town.creatures[i].health = n(100.0);
    }
    (a, b, h)
}

fn marry(sim: &mut Sim, a: i64, b: i64) {
    let (ia, ib) = (index(sim, a), index(sim, b));
    sim.town.creatures[ia].mate_id = Some(b);
    sim.town.creatures[ib].mate_id = Some(a);
}

fn feed_all(sim: &mut Sim, warm: bool) {
    for c in sim.town.creatures.iter_mut() {
        c.hunger = n(100.0);
        c.thirst = n(100.0);
        if warm {
            c.warmth = n(100.0);
        }
        c.health = n(100.0);
    }
}

#[test]
fn a_paired_couple_with_a_stocked_household_conceives_and_gives_birth() {
    let cfg = small();
    let mut sim = fresh(44127, cfg);
    let (a, b, _) = couple_at_home(&mut sim, v(cfg.reproduction.store_reserve) + 20.0);
    marry(&mut sim, a, b);

    let before = sim.alive();
    let mut conceived = false;
    let mut born_blank = None;
    for _ in 0..(cfg.reproduction.gestation_ticks + 40) {
        feed_all(&mut sim, true);
        let r = step(&mut sim);
        conceived |= r.conceptions > 0;
        if born_blank.is_none() {
            if let Some(child) = sim.town.creatures.iter().find(|c| c.generation == 2) {
                born_blank = Some(child.beliefs.is_empty());
            }
        }
    }

    assert!(conceived, "the four requirements were met and nothing happened");
    assert!(sim.alive() > before, "a child should have arrived");
    let child = sim.town.creatures.iter().find(|c| c.generation == 2).expect("a second generation");
    assert_eq!(child.mother_id, Some(a));
    assert_eq!(child.father_id, Some(b));
    assert_eq!(child.life_stage, LifeStage::Infant);
    assert_eq!(born_blank, Some(true), "a newborn is born knowing nothing at all");
    assert_eq!(child.guardian_id, Some(a), "and has somebody to follow");
}

#[test]
fn an_empty_store_is_the_thing_that_stops_a_lineage() {
    let mut sim = fresh(44127, small());
    let (a, b, _) = couple_at_home(&mut sim, 0.0);
    marry(&mut sim, a, b);

    let mut blocked = 0;
    for _ in 0..60 {
        feed_all(&mut sim, false);
        let r = step(&mut sim);
        assert_eq!(r.conceptions, 0, "no store, no child");
        blocked += r.conception_blocked.get(Blocker::StoreShort.slot());
    }
    assert!(blocked > 0, "and the reason is recorded, not merely implied");
}

#[test]
fn a_child_inherits_from_both_parents() {
    let cfg = small();
    let mut sim = fresh(44127, cfg);
    let (a, b, _) = couple_at_home(&mut sim, 400.0);
    marry(&mut sim, a, b);

    let ia = index(&sim, a);
    sim.town.creatures[ia].traits.industry = n(0.05);
    let ib = index(&sim, b);
    sim.town.creatures[ib].traits.industry = n(0.95);

    for _ in 0..(cfg.reproduction.gestation_ticks + 40) {
        feed_all(&mut sim, true);
        step(&mut sim);
    }

    let child = sim.town.creatures.iter().find(|c| c.generation == 2).expect("a child");
    assert!(
        (0.2..0.8).contains(&v(child.traits.industry)),
        "should land between its parents, got {}",
        v(child.traits.industry)
    );
}

#[test]
fn an_infant_with_no_guardian_and_nobody_to_feed_it_dies() {
    let mut sim = fresh(44127, small());
    sim.spawn_at(20, 20, Sex::Female, 0, 2);

    for _ in 0..400 {
        step(&mut sim);
        if sim.alive() == 0 {
            break;
        }
    }
    assert_eq!(sim.alive(), 0, "an unfed infant cannot survive alone");
    let neglect = died_of(&sim, DeathCause::Starvation) + died_of(&sim, DeathCause::Dehydration);
    assert!(neglect > 0, "cause of death: {:?}", sim.deaths.by_cause);
}

#[test]
fn teaching_hands_over_knowledge_as_though_the_pupil_had_seen_it() {
    let mut sim = fresh(44127, small());
    let teacher = sim.spawn_at(20, 20, Sex::Female, 300, 1);
    let pupil = sim.spawn_at(20, 21, Sex::Male, 170, 2);

    let ti = index(&sim, teacher);
    sim.town.creatures[ti].beliefs.push(Belief {
        kind: BeliefKind::SoilPatch,
        x: 44,
        y: 44,
        estimate: Estimate::Plentiful,
        confidence: n(1.0),
        learned_tick: 0,
        last_verified_tick: 0,
        source_creature_id: None,
        hops: 0,
        origin_creature_id: Some(teacher),
        origin_tick: 0,
    });
    let pi = index(&sim, pupil);
    sim.town.creatures[pi].beliefs.clear();

    let k = sim.ctx.cfg.knowledge;
    let moved = transfer_beliefs(&mut sim.town.creatures, teacher, pupil, Channel::Teach, None, &k, sim.ctx.tick);

    assert!(moved > 0, "nothing was handed over");
    let learned = &sim.town.creatures[index(&sim, pupil)].beliefs;
    let b = learned.iter().find(|b| b.kind == BeliefKind::SoilPatch).expect("taught it");
    assert_eq!(b.hops, 0, "taught knowledge arrives as though firsthand");
    assert_eq!(
        b.origin_creature_id,
        Some(teacher),
        "and still credits whoever actually found the place"
    );
}

#[test]
fn a_household_that_loses_everybody_passes_its_store_to_a_child() {
    let cfg = small();
    let mut sim = fresh(44127, cfg);
    let (a, b, parents_home) = couple_at_home(&mut sim, 50.0);

    let child = sim.spawn_at(30, 30, Sex::Female, 300, 2);
    let ci = index(&sim, child);
    sim.town.creatures[ci].mother_id = Some(a);
    sim.town.creatures[ci].father_id = Some(b);
    let childs_home = sim.town.households.found(Some(1), child, None, 0, &cfg);
    sim.town.creatures[ci].household_id = Some(childs_home);

    for id in [a, b] {
        let i = index(&sim, id);
        sim.town.creatures[i].health = n(0.0);
        sim.town.creatures[i].hunger = n(0.0);
    }
    let mut report = TickReport::new(0);
    resolve(&mut sim, &mut report);

    assert!(sim.town.households.get(parents_home).is_none(), "the old household is gone");
    let inherited = v(sim.town.households.get(childs_home).unwrap().stored_food());
    assert!(inherited > 0.0, "the store should have passed on, got {inherited}");
}

fn apply(sim: &mut Sim, intent: SocialIntent) -> TickReport {
    let mut report = TickReport::new(0);
    let k = sim.ctx.cfg.knowledge;
    apply_social_intents(&mut sim.town, &mut sim.ctx.events, &mut report, &vec![intent], &k, sim.ctx.tick);
    report
}

#[test]
fn a_courtship_can_be_refused_and_the_refusal_is_recorded() {
    let mut sim = fresh(44127, small());
    let a = sim.spawn_at(20, 20, Sex::Female, 200, 1);
    let b = sim.spawn_at(20, 21, Sex::Male, 200, 1);

    apply(&mut sim, SocialIntent::Court { from: b, to: a });
    assert!(sim.town.courtships.pending_for(a).is_some(), "the question was put");

    let report = apply(&mut sim, SocialIntent::Reject { from: b, to: a });

    assert_eq!(report.rejections, 1);
    assert!(sim.town.courtships.pending_for(a).is_none());
    assert!(v(sim.town.relationships.get(b, a)) < 0.0, "being turned down costs something");
    assert!(sim.creature(a).unwrap().mate_id.is_none());
}

#[test]
fn pairing_is_mutual_and_puts_both_in_one_household() {
    let cfg = small();
    let mut sim = fresh(44127, cfg);
    let a = sim.spawn_at(20, 20, Sex::Female, 200, 1);
    let b = sim.spawn_at(20, 21, Sex::Male, 200, 1);
    let h = sim.town.households.found(Some(1), a, None, 0, &cfg);
    let ia = index(&sim, a);
    sim.town.creatures[ia].household_id = Some(h);

    let report = apply(&mut sim, SocialIntent::Accept { from: a, to: b });

    assert_eq!(report.pairings, 1);
    assert_eq!(sim.creature(a).unwrap().mate_id, Some(b));
    assert_eq!(sim.creature(b).unwrap().mate_id, Some(a), "pairing is two-sided");
    assert_eq!(sim.creature(b).unwrap().household_id, Some(h), "a couple shares one household");
}

#[test]
fn the_population_fixture_is_a_floor_not_a_cap() {
    let mut cfg = small();
    cfg.bench.maintain_population = Some(50);
    let mut sim = sim_with(44127, 50, cfg);
    for _ in 0..300 {
        step(&mut sim);
    }
    assert!(sim.alive() >= 50, "the floor holds: {}", sim.alive());
    assert!(sim.population_maintained, "a held run must be labelled as one");
}

fn square(width: u32) -> WorldConfig {
    let mut cfg = config();
    cfg.map.width = width;
    cfg.map.height = width;
    cfg
}

/// The full event log, the final state digest, and the digest after every tick.
fn history(seed: u64, creatures: u32, ticks: i64, cfg: WorldConfig) -> (String, u64, Vec<u64>) {
    let mut sim = sim_with(seed, creatures, cfg);
    let mut log = String::new();
    let mut per_tick = Vec::new();
    for _ in 0..ticks {
        step(&mut sim);
        for e in &sim.ctx.events {
            log.push_str(&e.digest_line());
            log.push('\n');
        }
        per_tick.push(sim.state_digest());
    }
    (log, sim.state_digest(), per_tick)
}

#[test]
fn two_thousand_ticks_from_one_seed_produce_an_identical_event_log() {
    let mut cfg = square(256);
    cfg.bench.maintain_population = Some(120);

    let (log_a, digest_a, ticks_a) = history(44127, 120, 2_000, cfg);
    let (log_b, digest_b, ticks_b) = history(44127, 120, 2_000, cfg);

    assert!(!log_a.is_empty(), "a run that logs nothing proves nothing");
    assert!(log_a.lines().count() > 10_000, "only {} lines", log_a.lines().count());
    assert!(log_a == log_b, "the event logs diverge");

    let diverged = ticks_a.iter().zip(&ticks_b).position(|(a, b)| a != b);
    assert_eq!(diverged, None, "world state diverged at tick {diverged:?}");
    assert_eq!(digest_a, digest_b);
}

#[test]
fn a_different_seed_is_a_different_history() {
    let cfg = square(256);
    let (log_a, _, _) = history(44127, 60, 300, cfg);
    let (log_b, _, _) = history(9_001, 60, 300, cfg);
    assert_ne!(log_a, log_b, "the seed has to matter");
}

#[test]
fn a_reloaded_world_continues_exactly_where_it_left_off() {
    let mut cfg = square(192);
    cfg.bench.maintain_population = Some(80);
    let seed = 44127u64;
    let (halt, total) = (240i64, 480i64);

    let mut straight = sim_with(seed, 80, cfg);
    for _ in 0..total {
        step(&mut straight);
    }

    let mut first = sim_with(seed, 80, cfg);
    for _ in 0..halt {
        step(&mut first);
        first.start_save(false);
        first.finish_save();
    }
    first.start_save(true);
    first.finish_save();
    let halted_digest = first.state_digest();
    for s in first.ctx.structures.items.iter_mut() {
        s.occupants = 0;
    }
    let saved = Loaded {
        nodes: first.ctx.world.nodes,
        creatures: first.town.creatures,
        structures: first.ctx.structures,
        households: first.town.households,
        relationships: first.town.relationships,
        courtships: first.town.courtships,
        next_creature_id: first.register.next_id,
        deaths: first.deaths,
        total_births: first.register.total_births,
        tick: halt,
    };

    let mut resumed = fresh(seed, cfg);
    assert!(resumed.can_resume(&saved));
    resumed.load_from(saved);

    assert_eq!(resumed.state_digest(), halted_digest, "reloading must reproduce the state that was saved");

    for _ in halt..total {
        step(&mut resumed);
    }

    assert_eq!(
        resumed.state_digest(),
        straight.state_digest(),
        "a resumed run must match an uninterrupted one tick for tick"
    );
    assert_eq!(resumed.alive(), straight.alive());
    assert_eq!(resumed.deaths.by_cause, straight.deaths.by_cause);
}

#[test]
fn a_store_goes_to_the_nearest_of_the_children() {
    let cfg = small();
    let mut sim = fresh(44127, cfg);
    let (a, b, parents_home) = couple_at_home(&mut sim, 50.0);
    let stands = sim.town.households.get(parents_home).unwrap().shelter_id.unwrap();
    let (px, py) = {
        let s = sim.ctx.structures.get(stands).expect("the old home stands somewhere");
        (s.x, s.y)
    };
    let mut homes = Vec::new();
    for away in [40, 3, 3] {
        let shelter = sim.ctx.structures.add(shelter_at(px + away, py));
        let child = sim.spawn_at(px, py, Sex::Female, 300, 2);
        let ci = index(&sim, child);
        sim.town.creatures[ci].mother_id = Some(a);
        sim.town.creatures[ci].father_id = Some(b);
        let home = sim.town.households.found(Some(shelter), child, None, 0, &cfg);
        sim.town.creatures[ci].household_id = Some(home);
        homes.push(home);
    }
    for id in [a, b] {
        let i = index(&sim, id);
        sim.town.creatures[i].health = n(0.0);
        sim.town.creatures[i].hunger = n(0.0);
    }
    let mut report = TickReport::new(0);
    resolve(&mut sim, &mut report);

    let held: Vec<f32> = homes.iter().map(|h| v(sim.town.households.get(*h).unwrap().stored_food())).collect();
    assert_eq!(held[0], 0.0, "the first founded is far away");
    assert!(held[1] > 0.0, "the nearest inherits, the lower id among equals");
    assert_eq!(held[2], 0.0);
}

#[test]
fn needs_stay_between_nothing_and_full() {
    let mut sim = sim_with(44127, 12, small());
    let mut wear: Vec<(i64, f32)> = sim.town.creatures.iter().map(|c| (c.id, v(c.wear))).collect();
    for _ in 0..120 {
        sim.open_tick();
        for c in &sim.town.creatures {
            for need in [c.hunger, c.thirst, c.fatigue, c.warmth, c.health] {
                assert!((0.0..=100.0).contains(&v(need)), "{}", v(need));
            }
            let before = wear.iter().find(|w| w.0 == c.id).unwrap().1;
            assert!(v(c.wear) >= before);
        }
        wear = sim.town.creatures.iter().map(|c| (c.id, v(c.wear))).collect();
    }
    assert!(wear.iter().any(|w| w.1 > 0.0), "nobody went hungry");
}

#[test]
fn everything_in_sight_is_indexed_when_a_tick_begins() {
    let mut sim = sim_with(44127, 4, small());
    sim.open_tick();
    let mut found = Vec::new();
    for (i, node) in sim.ctx.world.nodes.iter().enumerate() {
        if node.kind == NodeKind::Sheep && v(node.quantity) <= 0.0 {
            continue;
        }
        sim.node_index.near(&sim.ctx.world, node.x, node.y, 0, &mut found);
        assert!(found.contains(&(i as u32)));
    }
}

#[test]
fn the_same_decisions_make_the_same_history() {
    let mut a = sim_with(44127, 20, small());
    let mut b = sim_with(44127, 20, small());
    for _ in 0..60 {
        let alive = a.alive() as u32;
        let (ra, rb) = (step(&mut a), step(&mut b));
        assert_eq!((ra.tick, ra.acted), (a.ctx.tick, alive));
        assert_eq!((ra.acted, ra.births, ra.deaths), (rb.acted, rb.births, rb.deaths));
        assert_eq!(a.state_digest(), b.state_digest());
        let told = |s: &Sim| s.ctx.events.iter().map(|e| e.digest_line()).collect::<Vec<_>>();
        assert_eq!(told(&a), told(&b));
    }
}

#[test]
fn a_tick_takes_only_what_it_asked_for() {
    let mut sim = sim_with(44127, 3, small());
    let mut course = Course::begin(&sim, None, 0);
    let z = Deviates { boldness: n(0.0), industry: n(0.0), sociability: n(0.0), caution: n(0.0) };
    assert_eq!(course.advance(&mut sim, News::Born(z)), Err(Snag::Unfitting));
    assert_eq!((course.phase, sim.ctx.tick), (Phase::World, 0));
    for _ in 0..3 {
        course.advance(&mut sim, News::Go).unwrap();
    }
    assert_eq!((course.phase, sim.ctx.tick), (Phase::Habits, 1), "without a model there are no answers");
    let i = match course.errand(&sim) {
        Errand::Decide(i) => i,
        other => panic!("{other:?}"),
    };
    let mut astray = reflex(&sim, i);
    astray.steps[0].path = vec![(sim.ctx.world.width, 0)];
    let rng = sim.ctx.rng;
    assert_eq!(course.advance(&mut sim, News::Habit(astray, rng)), Err(Snag::OffMap));
    assert!(sim.town.creatures[i].plan.is_none(), "nothing happened");
    let plan = reflex(&sim, i);
    course.advance(&mut sim, News::Habit(plan, rng)).unwrap();
    assert!(sim.town.creatures[i].plan.is_some());
}

#[test]
fn what_is_not_written_stays_to_be_written() {
    let mut sim = fresh(44127, small());
    let (a, _, home) = couple_at_home(&mut sim, 5.0);
    let first = sim.start_save(false);
    assert_eq!((first.homes.len(), first.born.len()), (1, 2));
    let again = sim.start_save(false);
    assert_eq!((again.homes, again.born), (first.homes, first.born), "deciding writes nothing");

    sim.homes_saved();
    let later = sim.start_save(false);
    assert_eq!((later.homes.len(), later.born.len()), (0, 2));
    sim.newborn_taken();
    assert_eq!(sim.start_save(false).born.len(), 0);

    sim.town.households.get_mut(home).unwrap().dirty = true;
    let i = index(&sim, a);
    sim.town.creatures[i].health = n(0.0);
    sim.town.creatures[i].hunger = n(0.0);
    let mut report = TickReport::new(0);
    resolve(&mut sim, &mut report);
    assert_eq!(sim.pending_dead.len(), 1);
    sim.finish_save();
    let plan = sim.start_save(false);
    assert_eq!((plan.homes.len(), plan.born.len(), sim.pending_dead.len()), (0, 0, 0));
}

#[test]
fn an_accident_is_what_its_victim_died_of() {
    let mut sim = fresh(44127, small());
    sim.ctx.cfg.hazards.accident_per_tick = n(1.0);
    let id = sim.spawn_at(20, 20, Sex::Female, 200, 1);
    let i = index(&sim, id);
    sim.ctx.world.nodes.push(ResourceNode {
        kind: NodeKind::Wood,
        x: 20,
        y: 20,
        quantity: n(40.0),
        max_quantity: n(40.0),
        regen_rate: n(0.0),
    });
    let node = (sim.ctx.world.nodes.len() - 1) as u32;
    sim.town.creatures[i].health = n(1.0);
    let mut plan = reflex(&sim, i);
    plan.steps = vec![Step::new(Goal::ChopWood, Target::Node(node), 3)];
    sim.town.creatures[i].plan = Some(plan);
    let mut report = TickReport::new(0);
    sim.act(&mut report);
    assert_eq!(sim.town.creatures[i].trauma, Some((DeathCause::Accident, 0)));
    assert_eq!(v(sim.town.creatures[i].health), 0.0);
    resolve(&mut sim, &mut report);
    assert_eq!(died_of(&sim, DeathCause::Accident), 1);
}
