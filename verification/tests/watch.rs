//! What is shown, asked and written down.

use life_zone::actions::{Goal, Step, Target};
use life_zone::chronicle::{collapse_routine_events, Diaries};
use life_zone::config::{
    ActionsConfig, BenchConfig, DeliberationConfig, FeaturesConfig, HazardsConfig, KnowledgeConfig, LifespanConfig,
    MapConfig, NeedsConfig, PersistenceConfig, ReproductionConfig, ResourcesConfig, WorldConfig,
};
use life_zone::creature::{Addresses, Creature, Inventory, ItemKind, LifeStage, Plan, Sex, Traits};
use life_zone::detail::detail_for;
use life_zone::display::{collect_ticker, collective_map, creature_dots, dot, take_census};
use life_zone::event::{Event, EventKind};
use life_zone::knowledge::{Belief, BeliefKind, Estimate};
use life_zone::num::{num, Num};
use life_zone::pace::{creature_budget, SpeedMode};
use life_zone::records::{PhaseTimings, TickReport};
use life_zone::runner::{
    creature_is_alive, grid_fits, measured_pace, nodes_due, nodes_snapshot, picture_due, rest_after, snapshot,
    terrain_snapshot, Controls, Effect, Feed, ModelState, NullSink, SimCommand, Snapshot, SnapshotSink,
};
use life_zone::saving::{belief_rows, born_rows, checkpoint_due, known_tiles, sample_due};
use life_zone::terrain::Terrain;
use life_zone::thinking::{
    expire_calls, rank_candidates, Answer, Asking, Candidate, Completion, Model, Proposal, Posting, ThinkCost, Verdict, Waiting,
};
use life_zone::tick::{can_start, Sim};
use life_zone::world::{Founder, World};

fn n(v: f32) -> Num {
    num(v.to_bits())
}

fn v(x: Num) -> f32 {
    f32::from_bits(x.bits)
}

/// The settings the tests run with.
fn config() -> WorldConfig {
    WorldConfig {
        map: MapConfig { width: 512, height: 512, chunk_size: 32, founder_count: 8 },
        lifespan: LifespanConfig {
            baseline_ticks: 672,
            ceiling_ticks: 840,
            infant_until_tick: 168,
            elder_from_tick: 588,
            unsheltered_night_penalty_ticks: n(2.0),
            malnutrition_aging_multiplier: n(1.5),
        },
        needs: NeedsConfig {
            hunger_decay_per_tick: n(0.9),
            thirst_decay_per_tick: n(1.4),
            fatigue_decay_per_tick: n(1.0),
            warmth_decay_night: n(2.0),
            deficit_threshold: n(30.0),
            critical_threshold: n(12.0),
            health_erosion_per_tick: n(1.0),
            health_regen_per_tick: n(0.5),
        },
        actions: ActionsConfig {
            carry_capacity: n(20.0),
            move_speed: n(2.0),
            gather_forage_per_tick: n(2.0),
            night_forage_scale: n(0.5),
            chop_wood_per_tick: n(1.5),
            harvest_wheat_per_tick: n(3.0),
            drink_restore: n(60.0),
            eat_portion: n(2.0),
            rest_restore: n(8.0),
            rest_restore_sheltered: n(14.0),
            fire_wood_cost: n(2.0),
            fire_warmth: n(6.0),
            fire_warmth_radius: 2,
            shelter_warmth: n(4.0),
            shelter_wood_cost: n(12.0),
            shelter_build_ticks: 6,
            shelter_capacity: 6,
            shelter_decay_per_tick: n(0.0005),
            slaughter_yield: n(12.0),
            plant_ticks: 4,
            tend_ticks: 2,
            night_start_hour: 20,
            night_end_hour: 6,
        },
        resources: ResourcesConfig {
            forage_spoil_ticks: 48,
            meat_spoil_ticks: 96,
            grain_spoil_ticks: None,
            fire_fuel_burn_per_tick: n(0.5),
            sheep_flocks: 6,
            wheat_growth_ticks: 72,
            wood_density: n(0.02),
            forage_density: n(0.03),
            soil_density: n(0.05),
            wood_regen_per_tick: n(0.01),
            forage_regen_per_tick: n(0.02),
        },
        hazards: HazardsConfig {
            accident_per_tick: n(0.0004),
            illness_per_tick: n(0.0002),
            illness_low_health_multiplier: n(3.0),
        },
        reproduction: ReproductionConfig {
            courtship_offer_ticks: 20,
            gestation_ticks: 72,
            birth_spacing_ticks: 96,
            store_reserve: n(12.0),
            health_floor: n(50.0),
            birth_store_cost: n(6.0),
            mutation_sigma: n(0.08),
            childbirth_mortality: n(0.0),
        },
        knowledge: KnowledgeConfig {
            observation_radius: 6,
            max_beliefs_held: 48,
            confidence_decay_per_tick: n(0.0025),
            per_hop_penalty: n(0.15),
            teach_fidelity: n(0.98),
            ambient_confidence: n(0.35),
            ambient_share_chance: n(0.02),
            share_belief_count: 3,
            teach_belief_count: 8,
        },
        deliberation: DeliberationConfig {
            horizon_cap_travel: 24,
            horizon_cap_gather: 16,
            horizon_cap_construction: 24,
            horizon_cap_crisis: 6,
            dispatch_ttl_ticks: 40,
            budget_observe: 2,
        },
        persistence: PersistenceConfig { checkpoint_interval_ticks: 100, sample_interval_ticks: 24 },
        features: FeaturesConfig {
            spoilage: true,
            fires: true,
            wheat: true,
            sheep: true,
            knowledge_sharing: true,
            llm: false,
        },
        bench: BenchConfig { maintain_population: None, initial_creatures: None },
    }
}

/// A healthy adult.
fn test_creature() -> Creature {
    Creature {
        id: 1,
        name: "Test".to_string(),
        sex: Sex::Female,
        generation: 1,
        mother_id: None,
        father_id: None,
        household_id: None,
        birth_tick: 0,
        death_tick: None,
        death_cause: None,
        x: 10,
        y: 10,
        life_stage: LifeStage::Adult,
        hunger: n(100.0),
        thirst: n(100.0),
        fatigue: n(100.0),
        warmth: n(100.0),
        health: n(100.0),
        lifespan_ticks: n(672.0),
        wear: n(0.0),
        traits: Traits::default(),
        inventory: Inventory::new(),
        plan: None,
        beliefs: Vec::new(),
        last_deliberation_tick: None,
        deliberation_pressure: n(0.0),
        lifetime_deliberations: 0,
        lifetime_think_fatigue: n(0.0),
        in_shelter: None,
        exposed_ticks: 0,
        at_fire: false,
        trauma: None,
        mate_id: None,
        paired_tick: None,
        pregnancy: None,
        last_birth_tick: None,
        children_born: 0,
        guardian_id: None,
        taught_count: 0,
        shared_count: 0,
        dirty: true,
    }
}

fn quiet_sim() -> Sim {
    let world = World {
        width: 64,
        height: 64,
        chunk_size: 32,
        seed: 5,
        tiles: vec![Terrain::Grass; 64 * 64],
        nodes: Vec::new(),
        founders: vec![Founder { x: 20, y: 20, female: true }, Founder { x: 21, y: 20, female: false }],
    };
    let cfg = config();
    assert!(can_start(&world, &cfg));
    let mut sim = Sim::new(3, world, cfg, 11);
    sim.spawn_founders();
    sim
}

fn resting(tick: i64) -> Plan {
    Plan {
        steps: vec![Step::new(Goal::MoveTo, Target::Tile(4, 5), 3), Step::new(Goal::Rest, Target::Nothing, 2)],
        step_index: 1,
        horizon: 8,
        ticks_remaining: 6,
        set_tick: tick,
        rationale: "tired".to_string(),
        tier: 2,
        addresses: Addresses::Rest,
    }
}

#[test]
fn a_run_cannot_start_off_the_map() {
    let mut world = quiet_sim().ctx.world;
    let mut cfg = config();
    assert!(can_start(&world, &cfg));
    cfg.actions.night_end_hour = 30;
    assert!(can_start(&world, &cfg), "a night that ends past midnight is a night");
    cfg.actions.night_end_hour = u32::MAX - 23;
    assert!(!can_start(&world, &cfg), "the length of a night is counted");
    cfg = config();
    world.founders.push(Founder { x: 64, y: 0, female: true });
    assert!(!can_start(&world, &cfg));
    world.founders.pop();
    world.tiles.pop();
    assert!(!can_start(&world, &cfg));
}

#[test]
fn news_is_newest_first_and_kept_short() {
    let mut lines = Vec::new();
    let events = vec![
        Event::new(1, EventKind::Born, 4),
        Event::new(1, EventKind::Drank, 4),
        Event::new(2, EventKind::Died, 5).with("cause", "OLD_AGE").with_int("age", 600),
        Event::new(2, EventKind::FireLit, 6).at(7, 8),
    ];
    collect_ticker(&mut lines, &events);
    let told: Vec<(&str, &str, &str)> = lines.iter().map(|l| (l.kind, l.text.as_str(), l.tone)).collect();
    assert_eq!(
        told,
        vec![
            (EventKind::FireLit.as_str(), "#6 lit a fire at 7,8", ""),
            (EventKind::Died.as_str(), "#5 died \u{2014} OLD_AGE", "death"),
            (EventKind::Born.as_str(), "#4 was born", "birth"),
        ]
    );
    for i in 0..60 {
        collect_ticker(&mut lines, &vec![Event::new(i, EventKind::FellIll, i)]);
    }
    assert_eq!(lines.len(), 40);
    assert_eq!(lines[0].text, "#59 fell ill");
    assert_eq!(lines[0].tone, "death");
}

#[test]
fn a_death_is_told_by_its_first_word() {
    let mut lines = Vec::new();
    let mut e = Event::new(1, EventKind::Died, 9);
    e.payload = "\t cause=cause=ACCIDENT\nage=4".to_string();
    collect_ticker(&mut lines, &vec![e]);
    assert_eq!(lines[0].text, "#9 died \u{2014} ACCIDENT");
}

#[test]
fn what_anybody_knows_lights_the_map() {
    let k = config().knowledge;
    let mut c = test_creature();
    c.beliefs.clear();
    let mut b = Belief {
        kind: BeliefKind::Water,
        x: 17,
        y: 9,
        estimate: Estimate::Plentiful,
        confidence: n(0.5),
        learned_tick: 0,
        last_verified_tick: 0,
        source_creature_id: None,
        hops: 0,
        origin_creature_id: Some(1),
        origin_tick: 0,
    };
    c.beliefs.push(b);
    b.confidence = n(1.0);
    b.x = 500;
    c.beliefs.push(b);
    let (grid, dim, cell) = collective_map(&vec![c], 60, 0, &k);
    assert_eq!((dim, cell, grid.len()), (8, 8, 64));
    assert_eq!(grid[8 + 2], 127);
    assert_eq!(grid[8 + 7], 255, "what lies beyond the edge is drawn at it");
    assert_eq!(grid.iter().filter(|&&x| x > 0).count(), 2);
}

#[test]
fn a_dot_carries_its_flags() {
    let cfg = config();
    let mut c = test_creature();
    c.hunger = n(10.0);
    c.at_fire = true;
    c.plan = Some(resting(0));
    let mut waiting = Waiting::new();
    waiting.insert(1, 5);
    let d = dot(&c, cfg.needs.deficit_threshold, &waiting);
    assert_eq!((d.id, d.stage, d.flags), (1, 1, 1 + 16 + 32 + 64));
    let dots = creature_dots(&vec![test_creature()], cfg.needs.deficit_threshold, &Waiting::new());
    assert_eq!(dots[0].flags, 0);
}

#[test]
fn a_census_counts_everybody_once() {
    let mut a = test_creature();
    a.mate_id = Some(2);
    let mut b = test_creature();
    b.life_stage = LifeStage::Infant;
    b.generation = 4;
    let mut c = test_creature();
    c.life_stage = LifeStage::Elder;
    c.plan = Some(resting(0));
    let r = take_census(&vec![a, b, c]);
    assert_eq!((r.infants, r.adults, r.elders), (1, 1, 1));
    assert_eq!((r.paired, r.expecting, r.on_model_plans, r.deepest_generation), (1, 0, 1, 4));
    assert_eq!(take_census(&Vec::new()).deepest_generation, 1);
}

#[test]
fn looking_at_a_creature_shows_all_of_it() {
    let mut sim = quiet_sim();
    let cfg = sim.ctx.cfg;
    let (a, b) = (sim.town.creatures[0].id, sim.town.creatures[1].id);
    let home = sim.town.households.found(Some(9), a, Some(b), 0, &cfg);
    sim.town.households.get_mut(home).unwrap().store.add(ItemKind::Grain, n(2.5), 0);
    for i in 0..2 {
        let other = if i == 0 { b } else { a };
        let c = &mut sim.town.creatures[i];
        c.household_id = Some(home);
        c.mate_id = Some(other);
        c.health = n(100.0);
        c.life_stage = LifeStage::Adult;
        c.beliefs.clear();
    }
    let c = &mut sim.town.creatures[0];
    c.plan = Some(resting(0));
    c.inventory = Inventory::new();
    c.inventory.add(ItemKind::Wood, n(1.0), 0);
    c.inventory.add(ItemKind::Forage, n(2.0), 0);
    c.inventory.add(ItemKind::Forage, n(3.0), 10);
    c.mother_id = Some(777);
    let belief = Belief {
        kind: BeliefKind::Water,
        x: 22,
        y: 20,
        estimate: Estimate::Plentiful,
        confidence: n(1.0),
        learned_tick: 0,
        last_verified_tick: 0,
        source_creature_id: None,
        hops: 0,
        origin_creature_id: Some(b),
        origin_tick: 0,
    };
    c.thirst = n(40.0);
    c.beliefs.push(belief);
    c.beliefs.push(Belief { x: 30, origin_creature_id: Some(777), ..belief });
    c.beliefs.push(Belief { x: 40, origin_creature_id: Some(a), ..belief });

    let d = detail_for(&sim.town.creatures, &sim.town.households, &sim.ctx.world, &cfg, 20, a).unwrap();
    assert_eq!(d.id, a);
    assert_eq!(d.household_members, 2);
    assert_eq!(v(d.household_store), 2.5);
    assert_eq!(v(d.household_grain), 2.5);
    assert_eq!(d.mate, Some((b, sim.town.creatures[1].name.clone())));
    assert_eq!(d.mother, None, "the dead have no name here");
    assert_eq!(d.carrying.len(), 2);
    assert_eq!((d.carrying[0].kind, d.carrying[0].spoils_in), (ItemKind::Wood, None));
    assert_eq!((d.carrying[1].kind, d.carrying[1].spoils_in), (ItemKind::Forage, Some(28)));
    assert_eq!(v(d.carrying[1].quantity), 5.0);
    assert_eq!(d.plan_addresses, "Rest");
    assert_eq!(d.steps.len(), 2);
    assert_eq!(d.steps[0].label, "MOVE_TO 4,5");
    assert!(d.steps[0].done && d.steps[1].current);
    assert_eq!((d.belief_count, d.inherited_beliefs, d.from_the_dead), (3, 2, 1));
    assert_eq!(d.beliefs.iter().map(|b| b.x).collect::<Vec<_>>(), vec![22, 30, 40]);
    assert_eq!(d.cannot_yet, Some("needs 10 more put by".to_string()), "twelve less two and a half, to even");
    assert!(detail_for(&sim.town.creatures, &sim.town.households, &sim.ctx.world, &cfg, 20, 99).is_none());
}

#[test]
fn somebody_without_a_plan_has_none_to_show() {
    let sim = quiet_sim();
    let id = sim.town.creatures[0].id;
    let d = detail_for(&sim.town.creatures, &sim.town.households, &sim.ctx.world, &sim.ctx.cfg, 5, id).unwrap();
    assert_eq!(d.plan_addresses, "None");
    assert_eq!((d.plan_horizon, d.plan_remaining, d.plan_tier), (0, 0, 1));
    assert!(d.steps.is_empty() && d.cannot_yet.is_none());
}

#[test]
fn a_step_runs_so_many_ticks_and_pauses() {
    let mut c = Controls::new();
    assert!(c.should_tick());
    assert_eq!(c.apply(SimCommand::Step(3)), Effect::Carry);
    let mut ticks = 0;
    while c.should_tick() {
        c.after_tick();
        ticks += 1;
    }
    assert_eq!(ticks, 3);
    assert!(!c.running);
    c.apply(SimCommand::Step(0));
    assert_eq!(c.steps_left, 1);
}

#[test]
fn commands_do_what_they_say() {
    let mut c = Controls::new();
    assert_eq!(c.apply(SimCommand::Pause), Effect::Flush);
    assert!(!c.should_tick());
    assert_eq!(c.apply(SimCommand::Play), Effect::Carry);
    assert!(c.should_tick());
    assert_eq!(c.apply(SimCommand::SetMode(SpeedMode::Deep)), Effect::Carry);
    assert_eq!(c.mode, SpeedMode::Deep);
    assert_eq!(c.apply(SimCommand::Select(Some(4))), Effect::Show);
    assert_eq!(c.selected, Some(4));
    let new = SimCommand::Regenerate { seed: 7, creatures: 9 };
    assert_eq!(c.apply(new), Effect::Regenerate { seed: 7, creatures: 9 });
    assert_eq!(c.apply(SimCommand::Shutdown), Effect::Stop);
}

#[test]
fn ticks_are_paced_by_the_mode() {
    assert_eq!(SpeedMode::Observe.tick_interval(true), Some(1_000));
    assert_eq!(SpeedMode::Observe.tick_interval(false), Some(140));
    assert_eq!(SpeedMode::Deep.tick_interval(true), Some(2_000));
    assert_eq!(SpeedMode::Focus.tick_interval(false), Some(220));
    assert_eq!(SpeedMode::FastForward.tick_interval(true), None);
    assert_eq!(rest_after(SpeedMode::Observe, false, 40_000_000), Some(100_000_000));
    assert_eq!(rest_after(SpeedMode::Observe, false, 150_000_000), None);
    assert_eq!(rest_after(SpeedMode::FastForward, false, 0), None);
    assert!(picture_due(true, 0) && picture_due(false, 66_000_000) && !picture_due(false, 65_999_999));
    assert!(nodes_due(900_000_001) && !nodes_due(900_000_000));
    assert_eq!(v(measured_pace(n(0.25), None, n(1.0))), 4.0);
    assert_eq!(v(measured_pace(n(0.25), Some(n(0.5)), n(1.0))), 2.0);
    assert_eq!(v(measured_pace(n(0.0), Some(n(0.5)), n(7.0))), 7.0);
    assert_eq!(v(measured_pace(n(0.000001), None, n(1.0))), 1.0 / 0.001f32);
    let mut cfg = config();
    assert_eq!(creature_budget(&cfg), 8);
    cfg.bench.initial_creatures = Some(500);
    assert_eq!(creature_budget(&cfg), 500);
}

#[test]
fn a_picture_shows_the_world_as_it_stands() {
    let mut sim = quiet_sim();
    let cfg = sim.ctx.cfg;
    let id = sim.town.creatures[0].id;
    let home = sim.town.households.found(Some(9), id, None, 0, &cfg);
    sim.town.households.get_mut(home).unwrap().store.add(ItemKind::Grain, n(30.0), 0);
    let mut controls = Controls::new();
    controls.apply(SimCommand::Select(Some(id)));
    let mut feed = Feed::new();
    let mut report = TickReport::new(1);
    report.beliefs_taught = 3;
    for i in 0..70 {
        feed.after_tick(&vec![Event::new(i, EventKind::Born, i)], &report, 500);
    }
    feed.republish_nodes();
    assert!(grid_fits(64) && !grid_fits(u32::MAX));
    let model = ModelState { enabled: true, in_flight: 2 };
    let s = snapshot(&sim, &controls, &feed, model, PhaseTimings::default());
    assert_eq!((s.tick, s.day, s.hour, s.population), (0, 0, 0, 2));
    assert!(s.night && s.running);
    assert_eq!(s.adults, 2);
    assert_eq!((s.households, s.households_at_reserve, v(s.mean_store)), (1, 1, 30.0));
    assert_eq!(s.beliefs_taught, 210);
    assert_eq!(feed.recent.len(), 64);
    assert_eq!((v(s.tick_ms), v(s.ticks_per_second)), (0.5, 2000.0));
    assert_eq!((s.llm_enabled, s.llm_in_flight, v(s.fallback_rate)), (true, 2, 0.0));
    assert_eq!(s.creatures.len(), 2);
    assert_eq!(s.events.len(), 40);
    assert_eq!(s.nodes_version, 2);
    assert_eq!(s.selected.unwrap().id, id);
    assert_eq!((s.known_dim, s.known_cell, s.known.len()), (8, 8, 64));
    feed.start_over();
    assert!(feed.ticker.is_empty());
    let blank = Snapshot::default();
    assert_eq!((blank.deepest_generation, blank.known_cell), (1, 8));
    let land = terrain_snapshot(&sim.ctx.world);
    assert_eq!((land.width, land.seed, land.bytes.len(), land.founders.len()), (64, 5, 64 * 64, 2));
    assert_eq!(nodes_snapshot(4, &sim.ctx.world).version, 4);
    assert!(creature_is_alive(&sim.town.creatures[0]));
    NullSink.publish(std::sync::Arc::new(blank));
}

fn answer(id: i64, issued: i64, raw: Option<&str>) -> Completion {
    Completion {
        creature_id: id,
        issued_tick: issued,
        depth: "SHALLOW".to_string(),
        prompt_hash: "h".to_string(),
        prompt_text: "p".to_string(),
        crisis_exempt: false,
        repaired: false,
        answer: raw.map(|r| Answer {
            raw: r.to_string(),
            latency_ms: 40,
            prompt_tokens: 10,
            cached_tokens: 4,
            response_tokens: 2,
        }),
    }
}

fn cost() -> ThinkCost {
    ThinkCost { age_weight: n(1.0), fatigue: n(2.0), hunger: n(1.0) }
}

fn model() -> Model {
    Model { name: "m".to_string(), retain_prompt_text_ticks: None }
}

#[test]
fn thinking_is_paid_for_when_it_is_asked_for() {
    let mut sim = quiet_sim();
    let mut report = TickReport::new(0);
    let before = v(sim.town.creatures[0].fatigue);
    sim.ask(0, cost(), &mut report);
    let id = sim.town.creatures[0].id;
    assert!(sim.thinking.waiting.contains(id));
    assert_eq!(sim.thinking.waiting.pending_ids(), vec![id]);
    assert_eq!(v(sim.town.creatures[0].fatigue), before - 2.0);
    assert_eq!((sim.thinking.stats.dispatched, report.llm_dispatched), (1, 1));

    let candidates = vec![
        Candidate { place: 0, pressure: n(9.0), crisis: false, affordable: true, worth_asking: true },
        Candidate { place: 1, pressure: n(1.0), crisis: false, affordable: true, worth_asking: true },
    ];
    let order = rank_candidates(&candidates, &sim.town.creatures, &sim.thinking.waiting);
    assert_eq!(order, vec![1], "nobody is asked twice at once");
    let fresh = Waiting::new();
    assert_eq!(rank_candidates(&candidates, &sim.town.creatures, &fresh), vec![0, 1]);
    let mut round = Asking::begin(&candidates, &sim.town.creatures, &fresh, 1);
    assert_eq!(round.whom(false), None, "there is no room");
    assert_eq!(round.whom(true), Some(0));
    round.note(Posting::Nothing);
    assert_eq!((round.whom(true), round.sent), (Some(1), 0), "being passed over costs nothing");
    round.note(Posting::Sent);
    assert_eq!((round.whom(true), round.sent), (None, 1));

    let mut round = Asking::begin(&candidates, &sim.town.creatures, &fresh, 1);
    round.note(Posting::Sent);
    assert_eq!((round.whom(true), round.next), (None, 1), "the budget is spent");

    let mut round = Asking::begin(&candidates, &sim.town.creatures, &fresh, 9);
    assert_eq!(round.whom(true), Some(0));
    round.note(Posting::Full);
    assert_eq!(round.whom(true), None, "nobody took it");

    expire_calls(&mut sim.thinking, 40, 40);
    assert!(sim.thinking.waiting.contains(id));
    expire_calls(&mut sim.thinking, 40, 41);
    assert!(!sim.thinking.waiting.contains(id));
    assert_eq!(sim.thinking.stats.expired, 1);
}

#[test]
fn a_good_answer_becomes_a_plan() {
    let mut sim = quiet_sim();
    let mut report = TickReport::new(0);
    sim.ask(0, cost(), &mut report);
    let id = sim.town.creatures[0].id;
    let proposal = Proposal {
        steps: vec![Step::new(Goal::Rest, Target::Nothing, 2)],
        horizon: 6,
        rationale: "rest".to_string(),
        addresses: Addresses::Rest,
    };
    let verdict = Verdict::Proposed(proposal);
    assert!(sim.can_judge(&verdict));
    sim.take_answer(&answer(id, 0, Some("{}")), verdict, cost(), &model(), &mut report);
    let plan = sim.town.creatures[0].plan.as_ref().expect("the answer was used");
    assert_eq!((plan.tier, plan.horizon), (2, 6));
    assert_eq!((sim.thinking.stats.accepted, report.llm_accepted), (1, 1));
    assert!(!sim.thinking.waiting.contains(id));
    assert_eq!(sim.thinking.decisions.len(), 1);
    assert!(!sim.thinking.decisions[0].fallback_used);
    assert_eq!(v(sim.thinking.stats.mean_latency_ms()), 40.0);
}

#[test]
fn what_leads_off_the_map_is_neither_judged_nor_followed() {
    let sim = quiet_sim();
    let empty = Proposal {
        steps: Vec::new(),
        horizon: 1,
        rationale: String::new(),
        addresses: Addresses::Nothing,
    };
    assert!(!sim.can_judge(&Verdict::Proposed(empty)));
    let drink = |x: u32| {
        Verdict::Proposed(Proposal {
            steps: vec![Step::new(Goal::Drink, Target::Tile(x, 63), 1)],
            horizon: 1,
            rationale: String::new(),
            addresses: Addresses::Water,
        })
    };
    assert!(sim.can_judge(&drink(63)) && !sim.can_judge(&drink(64)));
    assert!(sim.can_judge(&Verdict::Refused("x".to_string())));
    let mut plan = resting(0);
    assert!(sim.can_follow(&plan));
    plan.steps[0].path.push((64, 0));
    assert!(!sim.can_follow(&plan));
}

#[test]
fn a_refused_answer_changes_no_plan_and_is_recorded() {
    let mut sim = quiet_sim();
    let mut report = TickReport::new(0);
    sim.town.creatures[0].plan = Some(resting(0));
    let id = sim.town.creatures[0].id;
    sim.take_answer(&answer(id, 0, Some("?")), Verdict::Refused("PARSE".to_string()), cost(), &model(), &mut report);
    assert_eq!(sim.town.creatures[0].plan.as_ref().unwrap().rationale, "tired");
    assert_eq!(sim.thinking.stats.rejected, 1);
    assert_eq!(sim.thinking.decisions.len(), 1);
    assert!(sim.thinking.decisions[0].fallback_used);

    sim.take_answer(&answer(id, 0, None), Verdict::Refused("TIMEOUT".to_string()), cost(), &model(), &mut report);
    assert_eq!((sim.thinking.stats.failed, sim.thinking.stats.rejected), (1, 2));
    sim.take_answer(&answer(404, 0, Some("late")), Verdict::Refused("x".to_string()), cost(), &model(), &mut report);
    assert_eq!(sim.thinking.stats.rejected, 3, "an answer for the dead is counted too");
    assert_eq!(v(sim.thinking.stats.fallback_rate()), 1.0);
}

#[test]
fn the_routine_of_a_tick_takes_few_rows() {
    let mut events = vec![
        Event::new(7, EventKind::Drank, 1),
        Event::new(7, EventKind::Ate, 1).with_num("qty", n(1.5)),
        Event::new(7, EventKind::Ate, 2).with_num("qty", n(0.25)),
        Event::new(7, EventKind::Born, 3),
        Event::new(7, EventKind::Rested, 2),
    ];
    collapse_routine_events(&mut events, 7);
    assert!(events.iter().any(|e| e.kind == EventKind::Born));
    assert!(events.iter().all(|e| e.kind != EventKind::Drank && e.kind != EventKind::Rested));
    assert!(events.iter().any(|e| e.payload.contains("1.75")), "meals are counted in what was eaten");
}

#[test]
fn a_diary_keeps_what_is_worth_telling() {
    let mut d = Diaries::new();
    d.record_personal_events(&vec![
        Event::new(3, EventKind::ShelterBuilt, 1),
        Event::new(3, EventKind::Drank, 1),
        Event::new(4, EventKind::Paired, 1).target(2),
    ]);
    let told = d.recent(1);
    assert_eq!(told.len(), 2);
    assert!(told.iter().any(|s| s.contains("you built a shelter")));
    assert!(told.iter().any(|s| s.contains("you paired with #2")));
    d.forget(1);
    assert!(d.recent(1).is_empty());
}

#[test]
fn samples_fall_between_checkpoints() {
    assert!(checkpoint_due(true, 100, 7));
    assert!(checkpoint_due(false, 100, 200));
    assert!(checkpoint_due(false, 0, 7));
    assert!(!checkpoint_due(false, 100, 201));
    assert!(sample_due(24, 12) && sample_due(24, 36) && !sample_due(24, 24) && !sample_due(0, 12));
}

#[test]
fn beliefs_are_written_in_turn() {
    let mut people = Vec::new();
    for id in [1i64, 2, 121, 122] {
        let mut c = test_creature();
        c.id = id;
        people.push(c);
    }
    assert_eq!(belief_rows(&people, 1, false), vec![0, 2]);
    assert_eq!(belief_rows(&people, 242, false), vec![1, 3]);
    assert_eq!(belief_rows(&people, 5, true), vec![0, 1, 2, 3]);
    assert_eq!(born_rows(&people, &vec![122, 2]), vec![1, 3]);
    assert_eq!(known_tiles(&people), 0);
}

#[test]
fn small_questions_about_a_creature() {
    let cfg = config();
    let mut c = test_creature();
    assert!(!c.is_paired() && c.is_courtable(&cfg.lifespan, 0));
    assert_eq!(v(c.lifespan_modifier(&cfg.lifespan)), 1.0);
    assert_eq!(c.age(30), 30);
    c.mate_id = Some(3);
    assert!(c.is_paired() && !c.is_courtable(&cfg.lifespan, 0));
    assert_eq!(Goal::Drink.horizon_cap(&cfg), 6);
    assert_eq!(Goal::MoveTo.horizon_cap(&cfg), 24);
    let mut plan = resting(0);
    assert!(!plan.is_done());
    plan.current_mut().unwrap().elapsed = 1;
    assert_eq!(plan.current().unwrap().elapsed, 1);
    let mut sim = quiet_sim();
    sim.set_next_creature_id(-4);
    assert_eq!(sim.next_creature_id(), 1);
}
