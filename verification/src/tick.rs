//! The tick.
//!
//! A tick runs in a fixed order: the world, needs, plans, deliberation, action,
//! resolution. Creatures are visited in ascending order of id, and every random
//! draw comes from one stream seeded by the run and the tick, so the same run
//! comes out the same. What asks a model, makes a plan or a normal deviate, or
//! reads a clock happens between the parts that stand here.

use crate::acting::{kept_self, phase_act, plan_holds, round_from, round_of, stage_of, stands, RoundCounts};
use crate::actions::{setting_of, steps_of, ActionCtx, Goal, Step};
use crate::birth::{begin_birth, cradle_of, delivered, due_in, due_mothers, finish_birth, laboured, Deviates, Labour};
use crate::chance::Stream;
use crate::chronicle::{all_noted_down, collapse_routine_events, folded, Diaries};
use crate::config::WorldConfig;
use crate::courting::{ambient, ambient_observation, conceive, conceived, cooled, expire_courtships};
use crate::creature::{people_of, plan_of, Creature, CreatureV, Plan, Sex};
use crate::death::{bury, toll_from, toll_of, Deaths, Toll};
use crate::digest::{state_bytes, state_digest};
use crate::economy::{is_night, NodeIndex, Structures};
use crate::estates::{estates_settled, settle_estates};
use crate::event::log_of;
use crate::history::{
    acting, beginning, by_answer, by_asking, by_habit, charted, closing, crowd_of, dawning, delivering, ending, feeling,
    labouring, lemma_opened, lemma_opening, meeting, opening, reviewing, Moment,
};
use crate::keeping::{
    is_sound, lemma_ambient_keeps, lemma_conceiving_keeps, lemma_delivery_is_sound, lemma_estates_keep,
    lemma_intents_keep, lemma_kept_again, lemma_kept_is_sound, lemma_kept_update, lemma_labour_keeps,
    lemma_living_are_sound, lemma_needs_keep, lemma_review_keeps, lemma_season_keeps, lemma_spawned_is_sound, sound,
};
use crate::needs::{born_timely, needs_met, phase_needs, timely};
use crate::num::{num, Num, NOTHING};
use crate::nursery::{
    brood_of, hearth_of, hold_census, missing, only_told, place_of as where_born, populated, settled, settled_by, spawn_at,
    spawn_founders, spawn_population, spawned, Brood, Place, Register,
};
use crate::pace::SpeedMode;
use crate::pathfind::{is_map, path_inside, Pathfinder};
use crate::perception::WorldCache;
use crate::plans::{abandoned_in, endings_in, flagged_in, phase_plans, reviewed};
use crate::records::{more_by, LlmStats, PlanOutcome, Tally, TickReport};
use crate::saving::{
    belief_rows, born_rows, checkpoint_due, clean_homes, cleaning, dirty_homes, dirty_in, is_checkpoint, is_sample, known_tiles, named_in,
    occupied, sample_due, seat_occupants, slice_of, tiles_known,
};
use crate::season::{phase_world, season_of, turned, Season};
use crate::social::{
    ends, ends_before, homes_of, in_order, seen, Bystander, Courtships, CreatureIndex, CrowdV, Households, Relation,
    Relationships, SocialIntent,
};
use crate::thinking::{
    adopt_completion, adopt_reflex, answered, asked, desk_of, expected_latency, is_judgeable,
    observed_latency_ticks, plan_from, record_dispatch, reflexed, scene_of, Completion, Desk, Model, Scene,
    ThinkCost, Thinking, Verdict, Waiting,
};
use crate::town::{
    affair_of, apply_social_intents, index_of, intents_applied, is_here, lemma_place, place_of, Affair, Town, TownV,
};
use crate::world::{groups, hash_of, Founder, Ground, ResourceNode, World};
use vstd::prelude::*;

verus! {

/// 8.0
pub const USUAL_PACE: u32 = 0x4100_0000;

/// 0.5
pub const NO_WAIT: u32 = 0x3F00_0000;

/// Tiles to a side of a cell of the spatial indexes.
pub const CELL: u32 = 8;

/// Sets the stream of a tick apart from that of world generation.
pub const TICK_SALT: u64 = 0x514E_4700;

pub const TICK_STRIDE: u64 = 0x9E37_79B9_7F4A_7C15;

/// The seed of one tick's stream. A tick's draws depend on the run and the tick
/// alone, never on how many draws earlier ticks made, so a run that is resumed
/// draws what it would have drawn.
pub open spec fn tick_seed(seed: u64, tick: i64) -> u64 {
    (seed ^ TICK_SALT).wrapping_add((tick as u64).wrapping_mul(TICK_STRIDE))
}

pub fn tick_rng(seed: u64, tick: i64) -> (s: Stream)
    ensures
        s == (Stream { seed: tick_seed(seed, tick), pos: 0 }),
{
    Stream::seeded((seed ^ TICK_SALT).wrapping_add((tick as u64).wrapping_mul(TICK_STRIDE)))
}

/// The simulation. It owns all world state.
pub struct Sim {
    pub world_id: i64,
    pub seed: u64,
    /// The world and everything else an action needs.
    pub ctx: ActionCtx,
    pub town: Town,
    /// Rebuilt at the start of every tick, so deliberation and action see the
    /// same population: adjacency cannot change underneath a decision that was
    /// made on it.
    pub people: CreatureIndex,
    pub cache: WorldCache,
    pub node_index: NodeIndex,
    pub register: Register,
    pub diaries: Diaries,
    pub thinking: Thinking,
    pub plan_outcomes: Vec<PlanOutcome>,
    pub deaths: Deaths,
    /// The dead whose last state is still to be recorded.
    pub pending_dead: Vec<Creature>,
    pub flagged: Vec<usize>,
    pub intents: Vec<SocialIntent>,
    pub scratch: Vec<u32>,
    /// Set when the population is held by the measurement fixture, so a run made
    /// that way is never mistaken for one that sustained itself.
    pub population_maintained: bool,
    pub mode: SpeedMode,
    /// Whoever is being inspected, if anyone.
    pub selected: Option<i64>,
    pub ticks_per_second: Num,
}

pub open spec fn founders_on_map(world: &World) -> bool {
    forall|i: int|
        0 <= i < world.founders@.len() ==> world.inside(
            (#[trigger] world.founders@[i]).x as int,
            world.founders@[i].y as int,
        )
}

/// Whether a run can be made in a world with some settings.
pub open spec fn can_begin(world: &World, cfg: &WorldConfig) -> bool {
    &&& is_map(world.ground())
    &&& world.nodes@.len() <= u32::MAX
    &&& founders_on_map(world)
    &&& is_sane(cfg)
}

pub fn can_start(world: &World, cfg: &WorldConfig) -> (r: bool)
    ensures
        r == can_begin(world, cfg),
{
    if world.width == 0 || world.height == 0 {
        return false;
    }
    proof {
        let (w, h) = (world.width, world.height);
        assert(w * h <= 0xffff_ffff * 0xffff_ffff) by (nonlinear_arith)
            requires
                0 <= w <= 0xffff_ffff,
                0 <= h <= 0xffff_ffff,
        ;
    }
    let area: u64 = world.width as u64 * world.height as u64;
    if area > u32::MAX as u64 || world.tiles.len() as u64 != area || world.nodes.len() > u32::MAX as usize {
        return false;
    }
    for i in 0..world.founders.len()
        invariant
            forall|j: int|
                0 <= j < i ==> world.inside(
                    (#[trigger] world.founders@[j]).x as int,
                    world.founders@[j].y as int,
                ),
    {
        let f = world.founders[i];
        if f.x >= world.width || f.y >= world.height {
            assert(!world.inside(world.founders@[i as int].x as int, world.founders@[i as int].y as int));
            return false;
        }
    }
    cfg.actions.night_start_hour as u64 <= 24 + cfg.actions.night_end_hour as u64 && cfg.actions.night_end_hour as u64 + 24 <= u32::MAX as u64
        && cfg.knowledge.observation_radius as u64 * 4 <= u32::MAX as u64
}

/// Settings a run can be made with.
pub open spec fn is_sane(cfg: &WorldConfig) -> bool {
    &&& cfg.actions.night_start_hour <= 24 + cfg.actions.night_end_hour
    &&& 24 + cfg.actions.night_end_hour <= u32::MAX
    &&& cfg.knowledge.observation_radius * 4 <= u32::MAX
}

impl Sim {
    pub open spec fn ground(&self) -> Ground {
        self.ctx.world.ground()
    }

    pub open spec fn persons(&self) -> Seq<CreatureV> {
        people_of(self.town.creatures@)
    }

    /// Everything belongs to the same map, and everybody is on it.
    pub open spec fn wf(&self) -> bool {
        &&& is_map(self.ground())
        &&& self.ctx.pathfinder.wf()
        &&& self.ctx.pathfinder.fits(self.ground())
        &&& self.ctx.pathfinder.cache_serves(self.ground())
        &&& self.cache.maps(self.ground())
        &&& self.node_index.grid.wf()
        &&& self.node_index.grid.spans(self.ctx.world.width, self.ctx.world.height, CELL)
        &&& self.node_index.refers_into(self.ctx.world.nodes@)
        &&& self.people.wf()
        &&& self.people.grid.spans(self.ctx.world.width, self.ctx.world.height, CELL)
        &&& self.town.wf()
        &&& self.thinking.waiting.wf()
        &&& self.diaries.wf()
        &&& founders_on_map(&self.ctx.world)
        &&& is_sane(&self.ctx.cfg)
        &&& 0 <= self.ctx.tick
        &&& timely(self.ctx.tick as int)
        &&& sound(self.ground(), self.persons(), self.register.next_id)
    }

    /// Everybody has an id below another.
    pub open spec fn all_below(&self, id: i64) -> bool {
        forall|i: int| 0 <= i < self.persons().len() ==> (#[trigger] self.persons()[i]).id < id
    }

    /// Nothing is near the end of what can be counted.
    pub open spec fn roomy(&self) -> bool {
        &&& self.ctx.world.nodes@.len() < 0x4000_0000
        &&& self.town.creatures@.len() < 0x4000_0000
        &&& self.ctx.structures.items@.len() <= u32::MAX
        &&& self.ctx.structures.next_id < 0x2000_0000_0000_0000
        &&& self.register.next_id < 0x2000_0000_0000_0000
        &&& self.ctx.tick < 0x2000_0000_0000_0000
        &&& self.ctx.events@.len() <= u32::MAX
        &&& self.thinking.stats.answers() <= u64::MAX
    }

    pub fn has_room(&self) -> (r: bool)
        ensures
            r == self.roomy(),
    {
        let s = &self.thinking.stats;
        self.ctx.world.nodes.len() < 0x4000_0000 && self.town.creatures.len() < 0x4000_0000
            && self.ctx.structures.items.len() <= u32::MAX as usize && self.ctx.structures.next_id
            < 0x2000_0000_0000_0000 && self.register.next_id < 0x2000_0000_0000_0000 && self.ctx.tick
            < 0x2000_0000_0000_0000 && self.ctx.events.len() <= u32::MAX as usize && s.accepted as u128
            + s.rejected as u128 + s.failed as u128 <= u64::MAX as u128
    }

    pub fn new(world_id: i64, world: World, cfg: WorldConfig, seed: u64) -> (sim: Self)
        requires
            can_begin(&world, &cfg),
        ensures
            sim.wf(),
            sim.world_id == world_id,
            sim.seed == seed,
            sim.ctx.world == world,
            sim.ctx.cfg == cfg,
            sim.ctx.tick == 0,
            sim.ctx.rng == (Stream { seed: tick_seed(seed, 0), pos: 0 }),
            sim.ctx.events@.len() == 0,
            sim.ctx.structures.items@.len() == 0,
            sim.ctx.structures.next_id == 1,
            sim.town.creatures@.len() == 0,
            sim.town.households.items@.len() == 0,
            sim.town.households.next_id == 1,
            sim.town.relationships.edges@.len() == 0,
            sim.town.courtships.offers@.len() == 0,
            sim.register.next_id == 1,
            sim.register.total_births == 0,
            sim.register.pending@.len() == 0,
            sim.deaths == (Deaths { by_cause: Tally::zero(), total: 0 }),
            sim.mode == SpeedMode::Observe,
            sim.selected is None,
            !sim.population_maintained,
            sim.town.transmissions@.len() == 0,
            sim.thinking.waiting.calls@.len() == 0,
            sim.thinking.stats.answers() == 0 && sim.thinking.stats.dispatched == 0,
            sim.thinking.decisions@.len() == 0,
            sim.plan_outcomes@.len() == 0,
            sim.pending_dead@.len() == 0,
            sim.flagged@.len() == 0,
            sim.intents@.len() == 0,
            sim.ctx.night == is_night(0, &cfg),
            sim.ticks_per_second == num(USUAL_PACE),
            sim.node_index.covers(world.nodes@, world.nodes@.len() as int),
            sim.moment() == beginning(world.ground(), world.nodes@, world.founders@, cfg, seed),
    {
        proof {
            lemma_cells_fit(world.width, world.height);
        }
        let cache = WorldCache::build(&world);
        let node_index = NodeIndex::new(&world, CELL);
        let pathfinder = Pathfinder::new(&world);
        let people = CreatureIndex::new(world.width, world.height, CELL);
        let night = is_night(0, &cfg);
        let ctx = ActionCtx {
            world,
            structures: Structures::new(),
            pathfinder,
            cfg,
            tick: 0,
            rng: tick_rng(seed, 0),
            events: Vec::new(),
            night,
            gathered: num(NOTHING),
            eaten: num(NOTHING),
        };
        let sim = Sim {
            world_id,
            seed,
            ctx,
            town: Town {
                creatures: Vec::new(),
                households: Households::new(),
                relationships: Relationships::new(),
                courtships: Courtships::new(),
                transmissions: Vec::new(),
            },
            people,
            cache,
            node_index,
            register: Register { next_id: 1, total_births: 0, pending: Vec::new() },
            diaries: Diaries::new(),
            thinking: Thinking { waiting: Waiting::new(), stats: LlmStats::new(), decisions: Vec::new() },
            plan_outcomes: Vec::new(),
            deaths: Deaths { by_cause: Tally::new(), total: 0 },
            pending_dead: Vec::new(),
            flagged: Vec::new(),
            intents: Vec::new(),
            scratch: Vec::new(),
            population_maintained: false,
            mode: SpeedMode::Observe,
            selected: None,
            ticks_per_second: num(USUAL_PACE),
        };
        proof {
            sim.people.lemma_crowd();
            assert(sim.moment() == beginning(world.ground(), world.nodes@, world.founders@, cfg, seed));
        }
        sim
    }

    pub fn alive(&self) -> (n: usize)
        ensures
            n == self.town.creatures@.len(),
    {
        self.town.creatures.len()
    }

    pub fn next_creature_id(&self) -> (id: i64)
        ensures
            id == self.register.next_id,
    {
        self.register.next_id
    }

    /// Where ids go on from. Never below one.
    pub fn set_next_creature_id(&mut self, id: i64)
        ensures
            *final(self) == (Sim {
                register: Register {
                    next_id: if id > 1 {
                        id
                    } else {
                        1
                    },
                    ..old(self).register
                },
                ..*old(self)
            }),
            old(self).wf() && old(self).all_below(id) ==> final(self).wf(),
    {
        self.register.next_id = if id > 1 {
            id
        } else {
            1
        };
        proof {
            if old(self).wf() && old(self).all_below(id) {
                assert forall|i: int| 0 <= i < self.persons().len() implies is_sound(
                    self.ground(),
                    #[trigger] self.persons()[i],
                    self.register.next_id,
                ) by {
                    assert(is_sound(
                        self.ground(),
                        old(self).persons()[i],
                        old(self).register.next_id,
                    ));
                }
            }
        }
    }

    pub fn creature(&self, id: i64) -> (r: Option<&Creature>)
        ensures
            match r {
                Some(c) => c.id == id && is_here(self.persons(), id) && *c == self.town.creatures@[place_of(
                    self.persons(),
                    id,
                )],
                None => !is_here(self.persons(), id),
            },
    {
        match index_of(&self.town.creatures, id) {
            Some(i) => Some(&self.town.creatures[i]),
            None => None,
        }
    }
}

/// A map has no more cells than tiles.
proof fn lemma_cells_fit(width: u32, height: u32)
    requires
        width > 0,
        height > 0,
        width * height <= u32::MAX,
    ensures
        groups(width, CELL) * groups(height, CELL) <= u32::MAX,
{
    let (a, b) = (groups(width, CELL), groups(height, CELL));
    assert(a == (width + 7) / 8);
    assert(b == (height + 7) / 8);
    assert(a * b <= width * height) by (nonlinear_arith)
        requires
            0 <= a <= width,
            0 <= b <= height,
    ;
}

/// Somebody came, and was told of; nothing else is changed.
pub open spec fn only_newcomers(after: &Sim, before: &Sim) -> bool {
    &&& *after == (Sim {
        ctx: after.ctx,
        town: after.town,
        register: after.register,
        scratch: after.scratch,
        ..*before
    })
    &&& only_told(&after.ctx, &before.ctx)
    &&& after.town == (Town { creatures: after.town.creatures, ..before.town })
}

impl Sim {
    /// Puts one creature into the world, as somebody of an age who was here
    /// already.
    pub fn spawn_at(&mut self, x: u32, y: u32, sex: Sex, age: i64, generation: i32) -> (id: i64)
        requires
            old(self).wf(),
            old(self).roomy(),
            old(self).ctx.world.inside(x as int, y as int),
            -0x1000_0000_0000_0000 < age < 0x1000_0000_0000_0000,
        ensures
            id == old(self).register.next_id,
            brood_of(&final(self).town.creatures, &final(self).register, &final(self).ctx) == spawned(
                brood_of(&old(self).town.creatures, &old(self).register, &old(self).ctx),
                where_born(&old(self).ctx, old(self).node_index@),
                x,
                y,
                sex,
                age,
                generation,
            ),
            final(self).wf(),
            final(self).town.creatures@.len() == old(self).town.creatures@.len() + 1,
            only_newcomers(final(self), old(self)),
            final(self).moment() == old(self).moment().with_brood(
                spawned(old(self).moment().brood(), old(self).moment().place(), x, y, sex, age, generation),
            ),
    {
        proof {
            lemma_spawned_is_sound(
                brood_of(&self.town.creatures, &self.register, &self.ctx),
                where_born(&self.ctx, self.node_index@),
                x,
                y,
                sex,
                age,
                generation,
            );
        }
        spawn_at(
            &mut self.town.creatures,
            &mut self.register,
            &mut self.ctx,
            &self.cache,
            &self.node_index,
            &mut self.scratch,
            x,
            y,
            sex,
            age,
            generation,
        )
    }

    /// Turns the founders of the world into creatures.
    pub fn spawn_founders(&mut self)
        requires
            old(self).wf(),
            old(self).roomy(),
            old(self).town.creatures@.len() + old(self).ctx.world.founders@.len() <= u32::MAX,
        ensures
            brood_of(&final(self).town.creatures, &final(self).register, &final(self).ctx) == settled_by(
                brood_of(&old(self).town.creatures, &old(self).register, &old(self).ctx),
                where_born(&old(self).ctx, old(self).node_index@),
                old(self).ctx.world.founders@,
                old(self).ctx.world.founders@.len(),
            ),
            final(self).wf(),
            only_newcomers(final(self), old(self)),
            final(self).moment() == old(self).moment().with_brood(
                settled_by(
                    old(self).moment().brood(),
                    old(self).moment().place(),
                    old(self).ctx.world.founders@,
                    old(self).ctx.world.founders@.len(),
                ),
            ),
    {
        let ghost founders = self.ctx.world.founders@;
        spawn_founders(
            &mut self.town.creatures,
            &mut self.register,
            &mut self.ctx,
            &self.cache,
            &self.node_index,
            &mut self.scratch,
        );
        proof {
            lemma_settled_count(
                brood_of(&old(self).town.creatures, &old(self).register, &old(self).ctx),
                where_born(&old(self).ctx, old(self).node_index@),
                founders,
                founders.len(),
            );
        }
    }

    /// Seeds a population around the hearth of the founders, so it starts as a
    /// community rather than scattered across the map.
    pub fn spawn_population(&mut self, n: u32)
        requires
            old(self).wf(),
            old(self).roomy(),
            old(self).town.creatures@.len() + n <= u32::MAX,
        ensures
            brood_of(&final(self).town.creatures, &final(self).register, &final(self).ctx) == populated(
                brood_of(&old(self).town.creatures, &old(self).register, &old(self).ctx),
                where_born(&old(self).ctx, old(self).node_index@),
                hearth_of(old(self).ground(), old(self).ctx.world.founders@),
                n as nat,
            ),
            final(self).wf(),
            final(self).town.creatures@.len() == old(self).town.creatures@.len() + n,
            only_newcomers(final(self), old(self)),
            final(self).moment() == old(self).moment().with_brood(
                populated(
                    old(self).moment().brood(),
                    old(self).moment().place(),
                    hearth_of(old(self).ground(), old(self).ctx.world.founders@),
                    n as nat,
                ),
            ),
    {
        spawn_population(
            &mut self.town.creatures,
            &mut self.register,
            &mut self.ctx,
            &self.cache,
            &self.node_index,
            &mut self.scratch,
            n,
        );
        proof {
            lemma_populated_count(
                brood_of(&old(self).town.creatures, &old(self).register, &old(self).ctx),
                where_born(&old(self).ctx, old(self).node_index@),
                hearth_of(old(self).ground(), old(self).ctx.world.founders@),
                n as nat,
            );
        }
    }
}

proof fn lemma_settled_count(b: Brood, p: Place, founders: Seq<Founder>, n: nat)
    ensures
        settled_by(b, p, founders, n).people.len() == b.people.len() + n,
    decreases n,
{
    if n > 0 {
        lemma_settled_count(b, p, founders, (n - 1) as nat);
    }
}

proof fn lemma_populated_count(b: Brood, p: Place, hearth: (u32, u32), n: nat)
    ensures
        populated(b, p, hearth, n).people.len() == b.people.len() + n,
    decreases n,
{
    if n > 0 {
        lemma_populated_count(b, p, hearth, (n - 1) as nat);
    }
}

/// What the first half of a tick comes to.
#[verifier::ext_equal]
pub struct Opening {
    pub season: Season,
    pub flagged: Seq<usize>,
    pub outcomes: Seq<PlanOutcome>,
    pub abandoned: u32,
}

pub open spec fn reviews(crit: Num, tick: i64) -> spec_fn(CreatureV) -> CreatureV {
    |c: CreatureV| reviewed(c, crit, tick).c
}

/// The world turns, needs are felt, and commitments are reviewed.
pub open spec fn opened(a: Season, g: Ground, cfg: &WorldConfig, tick: i64) -> Opening {
    let s = turned(a, g, cfg, tick);
    let (people, log, rng) = needs_met(s.people, s.structures, cfg, tick, s.rng, s.log);
    let crit = cfg.needs.critical_threshold;
    Opening {
        season: Season { people: people.map_values(reviews(crit, tick)), log, rng, ..s },
        flagged: flagged_in(people, people.len(), crit, tick),
        outcomes: endings_in(people, people.len(), crit, tick),
        abandoned: abandoned_in(people, people.len(), crit, tick, 0),
    }
}

pub open spec fn sighting(tick: i64, cfg: &WorldConfig) -> spec_fn(CreatureV) -> Bystander {
    |c: CreatureV| seen(c, tick, &cfg.knowledge)
}

impl Sim {
    /// How a tick finds the world: what was told before the first tick is still
    /// to be recorded, and what was told in any later one has been.
    pub open spec fn at_dawn(&self) -> Season {
        Season {
            rng: Stream { seed: tick_seed(self.seed, (self.ctx.tick + 1) as i64), pos: 0 },
            log: if self.ctx.tick > 0 {
                Seq::empty()
            } else {
                log_of(self.ctx.events@)
            },
            ..season_of(self.town.creatures@, self.town.households.items@, &self.ctx, num(NOTHING))
        }
    }

    /// A tick begins: the clock moves on, what the last one left for the display is
    /// cleared away, and the world turns.
    pub fn begin_tick(&mut self) -> (report: TickReport)
        requires
            old(self).wf(),
            old(self).roomy(),
        ensures
            final(self).wf(),
            (final(self).moment(), report) == dawning(old(self).moment()),
            final(self).ctx.tick == old(self).ctx.tick + 1,
            final(self).ctx.night == is_night(final(self).ctx.tick, &old(self).ctx.cfg),
            final(self).ground() == old(self).ground(),
            season_of(
                final(self).town.creatures@,
                final(self).town.households.items@,
                &final(self).ctx,
                report.food_spoiled,
            ) == turned(old(self).at_dawn(), old(self).ground(), &old(self).ctx.cfg, final(self).ctx.tick),
            report == (TickReport {
                food_spoiled: report.food_spoiled,
                ..TickReport::blank(final(self).ctx.tick)
            }),
            final(self).node_index.covers(
                final(self).ctx.world.nodes@,
                final(self).ctx.world.nodes@.len() as int,
            ),
            *final(self) == (Sim {
                ctx: final(self).ctx,
                town: final(self).town,
                people: final(self).people,
                node_index: final(self).node_index,
                thinking: final(self).thinking,
                plan_outcomes: final(self).plan_outcomes,
                ..*old(self)
            }),
            final(self).thinking == (Thinking {
                decisions: final(self).thinking.decisions,
                ..old(self).thinking
            }),
            final(self).ctx == (ActionCtx {
                world: final(self).ctx.world,
                structures: final(self).ctx.structures,
                tick: final(self).ctx.tick,
                rng: final(self).ctx.rng,
                events: final(self).ctx.events,
                night: final(self).ctx.night,
                ..old(self).ctx
            }),
            final(self).town.relationships == old(self).town.relationships,
            final(self).town.courtships == old(self).town.courtships,
    {
        proof {
            reveal(dawning);
        }
        let ghost dawn = self.at_dawn();
        let ghost g = self.ground();
        let ghost cfg = self.ctx.cfg;
        if self.ctx.tick > 0 {
            self.ctx.events.clear();
        }
        let tick = self.ctx.tick + 1;
        self.ctx.tick = tick;
        self.ctx.rng = tick_rng(self.seed, tick);
        self.ctx.night = is_night(tick, &self.ctx.cfg);
        self.thinking.decisions.clear();
        self.plan_outcomes.clear();
        self.town.transmissions.clear();
        let mut report = TickReport::new(tick);
        assert(season_of(self.town.creatures@, self.town.households.items@, &self.ctx, num(NOTHING)) == dawn);
        report.food_spoiled = phase_world(
            &mut self.town.creatures,
            &mut self.town.households.items,
            &mut self.ctx,
        );
        let ghost s = turned(dawn, g, &cfg, tick);
        proof {
            lemma_season_keeps(dawn, g, &cfg, tick);
            lemma_kept_is_sound(g, s.people, dawn.people, self.register.next_id);
        }
        self.node_index.rebuild(&self.ctx.world);
        self.people.rebuild(&self.town.creatures, tick, &self.ctx.cfg.knowledge);
        assert(self.people.people@ == s.people.map_values(sighting(tick, &cfg)));
        proof {
            self.people.lemma_crowd();
            assert(old(self).moment().dawn() == dawn);
            assert(self.moment() == dawning(old(self).moment()).0);
        }
        report
    }

    /// Everybody feels their needs.
    pub fn feel_needs(&mut self)
        requires
            old(self).wf(),
        ensures
            final(self).wf(),
            final(self).moment() == feeling(old(self).moment()),
            (final(self).persons(), log_of(final(self).ctx.events@), final(self).ctx.rng) == needs_met(
                old(self).persons(),
                old(self).ctx.structures.items@,
                &old(self).ctx.cfg,
                old(self).ctx.tick,
                old(self).ctx.rng,
                log_of(old(self).ctx.events@),
            ),
            *final(self) == (Sim { ctx: final(self).ctx, town: final(self).town, ..*old(self) }),
            only_told(&final(self).ctx, &old(self).ctx),
            final(self).town == (Town { creatures: final(self).town.creatures, ..old(self).town }),
    {
        proof {
            reveal(feeling);
        }
        let ghost g = self.ground();
        let ghost m = self.moment();
        let ghost people = self.persons();
        proof {
            assert(born_timely(people)) by {
                assert forall|i: int| 0 <= i < people.len() implies timely(
                    (#[trigger] people[i]).birth_tick as int,
                ) by {
                    assert(is_sound(g, people[i], self.register.next_id));
                }
            }
            lemma_needs_keep(people, m.structures, &m.cfg, m.tick, m.rng, m.log);
        }
        phase_needs(&mut self.town.creatures, &mut self.ctx);
        proof {
            lemma_kept_is_sound(g, self.persons(), people, self.register.next_id);
            assert(self.moment() == feeling(m));
        }
    }

    /// Commitments are reviewed. Leaves those who need a plan flagged.
    pub fn review_plans(&mut self, report: &mut TickReport)
        requires
            old(self).wf(),
        ensures
            final(self).wf(),
            (final(self).moment(), *final(report)) == reviewing(old(self).moment(), *old(report)),
            ({
                let people = old(self).persons();
                let crit = old(self).ctx.cfg.needs.critical_threshold;
                let tick = old(self).ctx.tick;
                &&& final(self).persons() == people.map_values(reviews(crit, tick))
                &&& final(self).flagged@ == flagged_in(people, people.len(), crit, tick)
                &&& final(self).plan_outcomes@ == old(self).plan_outcomes@ + endings_in(people, people.len(), crit, tick)
                &&& *final(report) == (TickReport {
                    plans_abandoned: abandoned_in(people, people.len(), crit, tick, old(report).plans_abandoned),
                    ..*old(report)
                })
            }),
            *final(self) == (Sim {
                town: final(self).town,
                plan_outcomes: final(self).plan_outcomes,
                flagged: final(self).flagged,
                ..*old(self)
            }),
            final(self).town == (Town { creatures: final(self).town.creatures, ..old(self).town }),
    {
        proof {
            reveal(reviewing);
        }
        let ghost g = self.ground();
        let ghost m = self.moment();
        let ghost before = self.persons();
        let crit = self.ctx.cfg.needs.critical_threshold;
        let tick = self.ctx.tick;
        proof {
            lemma_review_keeps(before, crit, tick);
        }
        self.flagged = phase_plans(
            &mut self.town.creatures,
            crit,
            tick,
            &mut self.plan_outcomes,
            &mut report.plans_abandoned,
        );
        proof {
            let after = self.persons();
            assert(after == before.map_values(|c: CreatureV| reviewed(c, crit, tick).c));
            lemma_kept_is_sound(g, after, before, self.register.next_id);
            assert(after == before.map_values(reviews(crit, tick)));
            assert(self.moment() == reviewing(m, *old(report)).0);
        }
    }

    /// The first half of a tick, up to deliberation. Leaves those who need a plan
    /// flagged.
    pub fn open_tick(&mut self) -> (report: TickReport)
        requires
            old(self).wf(),
            old(self).roomy(),
        ensures
            final(self).wf(),
            (final(self).moment(), report) == opening(old(self).moment()),
            ({
                let o = opened(
                    old(self).at_dawn(),
                    old(self).ground(),
                    &old(self).ctx.cfg,
                    (old(self).ctx.tick + 1) as i64,
                );
                &&& final(self).ctx.world.nodes@ == o.season.nodes
                &&& final(self).ctx.structures.items@ == o.season.structures
                &&& final(self).persons() == o.season.people
                &&& final(self).town@.homes == o.season.homes
                &&& final(self).ctx.rng == o.season.rng
                &&& log_of(final(self).ctx.events@) == o.season.log
                &&& final(self).flagged@ == o.flagged
                &&& final(self).plan_outcomes@ == o.outcomes
                &&& report == (TickReport {
                    food_spoiled: o.season.spoiled,
                    plans_abandoned: o.abandoned,
                    ..TickReport::blank(final(self).ctx.tick)
                })
            }),
            final(self).ctx.tick == old(self).ctx.tick + 1,
            final(self).node_index.covers(
                final(self).ctx.world.nodes@,
                final(self).ctx.world.nodes@.len() as int,
            ),
            final(self).node_index.grid.spans(final(self).ctx.world.width, final(self).ctx.world.height, CELL),
            final(self).town.relationships == old(self).town.relationships,
            final(self).town.courtships == old(self).town.courtships,
            *final(self) == (Sim {
                ctx: final(self).ctx,
                town: final(self).town,
                people: final(self).people,
                node_index: final(self).node_index,
                thinking: final(self).thinking,
                plan_outcomes: final(self).plan_outcomes,
                flagged: final(self).flagged,
                ..*old(self)
            }),
            final(self).thinking == (Thinking {
                decisions: final(self).thinking.decisions,
                ..old(self).thinking
            }),
            final(self).ctx == (ActionCtx {
                world: final(self).ctx.world,
                structures: final(self).ctx.structures,
                tick: final(self).ctx.tick,
                rng: final(self).ctx.rng,
                events: final(self).ctx.events,
                night: final(self).ctx.night,
                ..old(self).ctx
            }),
    {
        let ghost m = self.moment();
        let mut report = self.begin_tick();
        self.feel_needs();
        self.review_plans(&mut report);
        proof {
            lemma_opening(m);
            lemma_opened(m);
            assert(old(self).at_dawn() == m.dawn());
        }
        report
    }
}

/// What acting adds to a report.
pub open spec fn with_acts(r: TickReport, c: RoundCounts) -> TickReport {
    TickReport {
        acted: c.acted,
        discoveries: c.discoveries,
        plans_abandoned: c.abandoned,
        food_gathered: c.gathered,
        food_eaten: c.eaten,
        ..r
    }
}

/// The town once everything that takes two has been settled, and the stream.
pub open spec fn met(
    a: Affair,
    intents: Seq<SocialIntent>,
    crowd: CrowdV,
    cfg: &WorldConfig,
    tick: i64,
    rng: Stream,
) -> (Affair, Stream) {
    let b = intents_applied(a, intents, intents.len(), &cfg.knowledge, tick);
    let (c, s) = ambient(b, crowd, cfg, tick, rng);
    let d = Affair { town: cooled(c.town, cfg.reproduction.courtship_offer_ticks, tick), ..c };
    (conceived(d, cfg, tick), s)
}

impl Sim {
    /// Everybody acts on their plan and looks around.
    pub fn act(&mut self, report: &mut TickReport)
        requires
            old(self).wf(),
            old(self).roomy(),
        ensures
            final(self).wf(),
            ({
                let r = round_of(
                    round_from(
                        old(self).persons(),
                        stage_of(&old(self).ctx),
                        old(self).plan_outcomes@,
                        old(report).plans_abandoned,
                        old(report).discoveries,
                        old(report).acted,
                    ),
                    old(self).persons().len(),
                    setting_of(&old(self).ctx),
                    old(self).node_index@,
                );
                &&& final(self).persons() == r.people
                &&& stage_of(&final(self).ctx) == r.stage
                &&& final(self).plan_outcomes@ == r.outcomes
                &&& *final(report) == with_acts(
                    *old(report),
                    (RoundCounts {
                        gathered: r.gathered,
                        eaten: r.eaten,
                        abandoned: r.abandoned,
                        discoveries: r.discoveries,
                        acted: r.acted,
                    }),
                )
            }),
            final(self).ctx.same_setting(&old(self).ctx),
            *final(self) == (Sim {
                ctx: final(self).ctx,
                town: final(self).town,
                scratch: final(self).scratch,
                plan_outcomes: final(self).plan_outcomes,
                ..*old(self)
            }),
            final(self).town == (Town { creatures: final(self).town.creatures, ..old(self).town }),
            (final(self).moment(), *final(report)) == acting(old(self).moment(), *old(report)),
    {
        proof {
            reveal(acting);
        }
        let ghost g = self.ground();
        let ghost before = self.persons();
        let counts = RoundCounts {
            gathered: num(NOTHING),
            eaten: num(NOTHING),
            abandoned: report.plans_abandoned,
            discoveries: report.discoveries,
            acted: report.acted,
        };
        proof {
            assert forall|i: int| 0 <= i < self.town.creatures@.len() implies stands(g, #[trigger] before[i]) by {
                assert(is_sound(g, before[i], self.register.next_id));
            }
        }
        let after = phase_act(
            &mut self.town.creatures,
            &mut self.ctx,
            &self.cache,
            &self.node_index,
            &mut self.scratch,
            &mut self.plan_outcomes,
            counts,
        );
        proof {
            let people = self.persons();
            assert forall|i: int| 0 <= i < people.len() implies is_sound(
                g,
                #[trigger] people[i],
                self.register.next_id,
            ) by {
                assert(is_sound(g, before[i], self.register.next_id));
                assert(kept_self(g, people[i], before[i]));
            }
            assert forall|i: int, j: int| 0 <= i < j < people.len() implies (#[trigger] people[i]).id < (
            #[trigger] people[j]).id by {
                assert(kept_self(g, people[i], before[i]));
                assert(kept_self(g, people[j], before[j]));
            }
        }
        report.acted = after.acted;
        report.discoveries = after.discoveries;
        report.plans_abandoned = after.abandoned;
        report.food_gathered = after.gathered;
        report.food_eaten = after.eaten;
        assert(self.moment() == acting(old(self).moment(), *old(report)).0);
    }

    /// Everything that takes two creatures to settle, up to conception. Social
    /// acts land first, because a creature fed this tick should not starve this
    /// tick. Gives the places of those whose time has come.
    pub fn meet(&mut self, report: &mut TickReport) -> (due: Vec<usize>)
        requires
            old(self).wf(),
            old(self).roomy(),
        ensures
            final(self).wf(),
            (affair_of(&final(self).town, &final(self).ctx.events, final(report)), final(self).ctx.rng) == met(
                affair_of(&old(self).town, &old(self).ctx.events, old(report)),
                old(self).intents@,
                old(self).people@,
                &old(self).ctx.cfg,
                old(self).ctx.tick,
                old(self).ctx.rng,
            ),
            final(self).intents@.len() == 0,
            due@ == due_in(final(self).persons(), final(self).persons().len(), old(self).ctx.tick),
            forall|k: int| 0 <= k < due@.len() ==> (#[trigger] due@[k]) < final(self).town.creatures@.len(),
            final(self).ctx == (ActionCtx {
                events: final(self).ctx.events,
                rng: final(self).ctx.rng,
                ..old(self).ctx
            }),
            *final(self) == (Sim {
                ctx: final(self).ctx,
                town: final(self).town,
                intents: final(self).intents,
                ..*old(self)
            }),
            (final(self).moment(), *final(report)) == meeting(old(self).moment(), *old(report)),
    {
        proof {
            reveal(meeting);
        }
        let ghost g = self.ground();
        let ghost cfg = self.ctx.cfg;
        let tick = self.ctx.tick;
        let ghost a = affair_of(&self.town, &self.ctx.events, report);
        apply_social_intents(
            &mut self.town,
            &mut self.ctx.events,
            report,
            &self.intents,
            &self.ctx.cfg.knowledge,
            tick,
        );
        let ghost b = affair_of(&self.town, &self.ctx.events, report);
        ambient_observation(
            &mut self.town,
            &self.ctx.events,
            report,
            &self.people,
            &self.ctx.cfg,
            tick,
            &mut self.ctx.rng,
        );
        let ghost c = affair_of(&self.town, &self.ctx.events, report);
        expire_courtships(&mut self.town, self.ctx.cfg.reproduction.courtship_offer_ticks, tick);
        let ghost d = affair_of(&self.town, &self.ctx.events, report);
        conceive(&mut self.town, &mut self.ctx.events, report, &self.ctx.cfg, tick);
        proof {
            let n = self.intents@.len();
            lemma_intents_keep(a, self.intents@, n, &cfg.knowledge, tick);
            lemma_ambient_keeps(b, self.people@, &cfg, tick, old(self).ctx.rng);
            lemma_conceiving_keeps(d, &cfg, tick);
            lemma_kept_again(c.town.people, b.town.people, a.town.people);
            lemma_kept_again(self.persons(), c.town.people, a.town.people);
            lemma_kept_is_sound(g, self.persons(), a.town.people, self.register.next_id);
        }
        self.intents.clear();
        assert(self.moment() == meeting(old(self).moment(), *old(report)).0);
        due_mothers(&self.town.creatures, tick)
    }

    /// The first half of a birth.
    pub fn begin_birth(&mut self, place: usize, report: &TickReport) -> (labour: Option<Labour>)
        requires
            old(self).wf(),
            place < old(self).town.creatures@.len(),
        ensures
            final(self).wf(),
            (cradle_of(&final(self).town, &final(self).register, &final(self).ctx, report), labour) == laboured(
                cradle_of(&old(self).town, &old(self).register, &old(self).ctx, report),
                place as int,
                &old(self).ctx.cfg,
                old(self).ctx.tick,
            ),
            labour matches Some(l) ==> l.place == place && final(self).ctx.world.inside(l.x as int, l.y as int),
            final(self).town.creatures@.len() == old(self).town.creatures@.len(),
            *final(self) == (Sim { ctx: final(self).ctx, town: final(self).town, ..*old(self) }),
            final(self).ctx == (ActionCtx { rng: final(self).ctx.rng, ..old(self).ctx }),
            (final(self).moment(), labour) == labouring(old(self).moment(), *report, place as int),
    {
        proof {
            reveal(labouring);
        }
        let tick = self.ctx.tick;
        let ghost k = cradle_of(&self.town, &self.register, &self.ctx, report);
        proof {
            lemma_labour_keeps(k, place as int, &self.ctx.cfg, tick);
            lemma_kept_is_sound(
                self.ground(),
                laboured(k, place as int, &self.ctx.cfg, tick).0.town.people,
                k.town.people,
                self.register.next_id,
            );
            assert(is_sound(self.ground(), k.town.people[place as int], self.register.next_id));
        }
        begin_birth(
            &mut self.town,
            &mut self.ctx.rng,
            place,
            &self.ctx.cfg,
            tick,
            &self.register,
            &self.ctx.events,
            report,
        )
    }

    /// The second half of a birth.
    pub fn finish_birth(&mut self, l: Labour, z: Deviates, report: &mut TickReport)
        requires
            old(self).wf(),
            old(self).roomy(),
            l.place < old(self).town.creatures@.len(),
            old(self).ctx.world.inside(l.x as int, l.y as int),
        ensures
            final(self).wf(),
            cradle_of(&final(self).town, &final(self).register, &final(self).ctx, final(report)) == delivered(
                cradle_of(&old(self).town, &old(self).register, &old(self).ctx, old(report)),
                where_born(&old(self).ctx, old(self).node_index@),
                l,
                z,
            ),
            final(self).town.creatures@.len() == old(self).town.creatures@.len() + 1,
            *final(self) == (Sim {
                ctx: final(self).ctx,
                town: final(self).town,
                register: final(self).register,
                scratch: final(self).scratch,
                ..*old(self)
            }),
            only_told(&final(self).ctx, &old(self).ctx),
            (final(self).moment(), *final(report)) == delivering(old(self).moment(), *old(report), l, z),
    {
        proof {
            reveal(delivering);
        }
        proof {
            lemma_delivery_is_sound(
                cradle_of(&self.town, &self.register, &self.ctx, report),
                where_born(&self.ctx, self.node_index@),
                l,
                z,
            );
        }
        finish_birth(
            &mut self.town,
            &mut self.register,
            &mut self.ctx,
            &self.cache,
            &self.node_index,
            &mut self.scratch,
            report,
            l,
            z,
        );
    }
}

/// The town after the deaths of a tick: where anybody died, what the dead left is
/// settled.
pub open spec fn laid_to_rest(town: TownV, t: Toll, waiting: nat, tick: i64) -> Affair {
    let a = Affair { town: TownV { people: t.living, ..town }, log: t.log, report: t.report };
    if t.dead.len() > waiting {
        estates_settled(a, t.structures, t.dead, tick)
    } else {
        a
    }
}

/// The diaries without those of the dead from a place in the list on.
pub open spec fn closed_books(
    book: Map<i64, Seq<Seq<char>>>,
    dead: Seq<CreatureV>,
    from: nat,
    to: nat,
) -> Map<i64, Seq<Seq<char>>>
    decreases to,
{
    if to <= from {
        book
    } else {
        closed_books(book, dead, from, (to - 1) as nat).remove(dead[to - 1].id)
    }
}

/// The census held, where a run holds one.
pub open spec fn census_held(a: Affair, b: Brood, p: Place, hearth: (u32, u32), target: Option<u32>) -> (
    Brood,
    TickReport,
) {
    match target {
        None => (b, a.report),
        Some(n) => {
            let short = missing(b.people, n);
            (
                settled(b, p, hearth, short),
                TickReport { settlers: more_by(a.report.settlers, short), ..a.report },
            )
        },
    }
}

impl Sim {
    /// What the deaths of this tick come to.
    pub open spec fn toll(&self, report: TickReport) -> Toll {
        toll_of(
            toll_from(Seq::empty(), people_of(self.pending_dead@), &self.ctx, self.deaths, report),
            self.persons(),
            self.persons().len(),
            self.ctx.tick,
        )
    }

    /// Deaths, their consequences, and the census.
    #[verifier::rlimit(40)]
    pub fn end_lives(&mut self, report: &mut TickReport)
        requires
            old(self).wf(),
            old(self).roomy(),
        ensures
            final(self).wf(),
            ({
                let t = old(self).toll(*old(report));
                let a = laid_to_rest(old(self).town@, t, old(self).pending_dead@.len(), old(self).ctx.tick);
                let b = Brood {
                    people: a.town.people,
                    next_id: old(self).register.next_id,
                    total_births: old(self).register.total_births,
                    pending: old(self).register.pending@,
                    log: a.log,
                    rng: old(self).ctx.rng,
                };
                &&& (
                brood_of(&final(self).town.creatures, &final(self).register, &final(self).ctx), *final(report))
                    == census_held(
                    a,
                    b,
                    where_born(&old(self).ctx, old(self).node_index@),
                    hearth_of(old(self).ground(), old(self).ctx.world.founders@),
                    old(self).ctx.cfg.bench.maintain_population,
                )
                &&& final(self).town@ == (TownV { people: final(self).persons(), ..a.town })
                &&& final(self).ctx.structures.items@ == t.structures
                &&& final(self).deaths == (Deaths { by_cause: t.by_cause, total: t.total })
                &&& people_of(final(self).pending_dead@) == t.dead
                &&& final(self).diaries@ == closed_books(
                    old(self).diaries@,
                    t.dead,
                    old(self).pending_dead@.len(),
                    t.dead.len(),
                )
            }),
            *final(self) == (Sim {
                ctx: final(self).ctx,
                town: final(self).town,
                register: final(self).register,
                deaths: final(self).deaths,
                pending_dead: final(self).pending_dead,
                diaries: final(self).diaries,
                scratch: final(self).scratch,
                population_maintained: old(self).population_maintained
                    || old(self).ctx.cfg.bench.maintain_population is Some,
                ..*old(self)
            }),
            final(self).ctx == (ActionCtx {
                structures: final(self).ctx.structures,
                rng: final(self).ctx.rng,
                events: final(self).ctx.events,
                ..old(self).ctx
            }),
            final(self).ctx.structures.next_id == old(self).ctx.structures.next_id,
            (final(self).moment(), *final(report)) == ending(old(self).moment(), *old(report)),
    {
        proof {
            reveal(ending);
        }
        let ghost g = self.ground();
        let tick = self.ctx.tick;
        let ghost t = self.toll(*report);
        let ghost town0 = self.town@;
        let waiting: usize = self.pending_dead.len();
        proof {
            assert(born_timely(self.persons())) by {
                assert forall|i: int| 0 <= i < self.persons().len() implies timely(
                    (#[trigger] self.persons()[i]).birth_tick as int,
                ) by {
                    assert(is_sound(g, self.persons()[i], self.register.next_id));
                }
            }
            lemma_living_are_sound(
                g,
                toll_from(Seq::empty(), people_of(self.pending_dead@), &self.ctx, self.deaths, *report),
                self.persons(),
                self.persons().len(),
                tick,
                self.register.next_id,
            );
        }
        bury(
            &mut self.town.creatures,
            &mut self.pending_dead,
            &mut self.ctx,
            &mut self.deaths,
            report,
        );
        let ghost gone = people_of(self.pending_dead@);
        let ghost book = self.diaries@;
        assert(gone == t.dead);
        proof {
            lemma_toll_grows(
                toll_from(
                    Seq::empty(),
                    people_of(old(self).pending_dead@),
                    &old(self).ctx,
                    old(self).deaths,
                    *old(report),
                ),
                old(self).persons(),
                old(self).persons().len(),
                tick,
            );
        }
        let all: usize = self.pending_dead.len();
        for i in waiting..all
            invariant
                waiting <= all == self.pending_dead@.len(),
                gone == people_of(self.pending_dead@),
                self.diaries.wf(),
                self.diaries@ == closed_books(book, gone, waiting as nat, i as nat),
                *self == (Sim {
                    town: self.town,
                    pending_dead: self.pending_dead,
                    ctx: self.ctx,
                    deaths: self.deaths,
                    diaries: self.diaries,
                    ..*old(self)
                }),
                self.town == (Town { creatures: self.town.creatures, ..old(self).town }),
                self.ctx == (ActionCtx {
                    events: self.ctx.events,
                    structures: self.ctx.structures,
                    ..old(self).ctx
                }),
                t.living == people_of(self.town.creatures@),
                t.log == log_of(self.ctx.events@),
                t.structures == self.ctx.structures.items@,
                self.ctx.structures.next_id == old(self).ctx.structures.next_id,
                self.deaths == (Deaths { by_cause: t.by_cause, total: t.total }),
                t.dead == gone,
        {
            assert(gone[i as int] == self.pending_dead@[i as int]@);
            self.diaries.forget(self.pending_dead[i].id);
        }
        if self.pending_dead.len() > waiting {
            proof {
                lemma_estates_keep(
                    affair_of(&self.town, &self.ctx.events, report),
                    self.ctx.structures.items@,
                    gone,
                    tick,
                );
                lemma_kept_is_sound(
                    g,
                    estates_settled(
                        affair_of(&self.town, &self.ctx.events, report),
                        self.ctx.structures.items@,
                        gone,
                        tick,
                    ).town.people,
                    t.living,
                    self.register.next_id,
                );
            }
            settle_estates(
                &mut self.town,
                &self.pending_dead,
                &mut self.ctx.events,
                report,
                &self.ctx.structures,
                tick,
            );
        }
        let ghost a = laid_to_rest(town0, t, waiting as nat, tick);
        assert(affair_of(&self.town, &self.ctx.events, report) == a);
        if let Some(target) = self.ctx.cfg.bench.maintain_population {
            self.population_maintained = true;
            hold_census(
                &mut self.town.creatures,
                &mut self.register,
                &mut self.ctx,
                &self.cache,
                &self.node_index,
                &mut self.scratch,
                target,
                &mut report.settlers,
            );
        }
        proof {
            let m = old(self).moment();
            assert(old(self).toll(*old(report)) == t);
            assert(Brood { people: a.town.people, log: a.log, ..m.brood() } == (Brood {
                people: a.town.people,
                next_id: old(self).register.next_id,
                total_births: old(self).register.total_births,
                pending: old(self).register.pending@,
                log: a.log,
                rng: old(self).ctx.rng,
            }));
            assert(self.moment() == ending(m, *old(report)).0);
        }
    }

    /// The last of a tick: diaries, the routine folded away, and the report
    /// completed.
    pub fn close_tick(&mut self, report: &mut TickReport)
        requires
            old(self).wf(),
            old(self).roomy(),
        ensures
            final(self).wf(),
            final(self).diaries@ == all_noted_down(
                old(self).diaries@,
                log_of(old(self).ctx.events@),
                old(self).ctx.events@.len(),
            ),
            log_of(final(self).ctx.events@) == folded(log_of(old(self).ctx.events@), old(self).ctx.tick),
            *final(report) == (TickReport {
                population: old(self).town.creatures@.len() as u32,
                mean_latency_ms: if old(self).thinking.stats.answers() > 0 {
                    Some(old(self).thinking.stats.latency())
                } else {
                    old(report).mean_latency_ms
                },
                ..*old(report)
            }),
            *final(self) == (Sim { ctx: final(self).ctx, diaries: final(self).diaries, ..*old(self) }),
            final(self).ctx == (ActionCtx { events: final(self).ctx.events, ..old(self).ctx }),
            (final(self).moment(), *final(report)) == closing(old(self).moment(), *old(report)),
    {
        proof {
            reveal(closing);
        }
        self.diaries.record_personal_events(&self.ctx.events);
        let tick = self.ctx.tick;
        collapse_routine_events(&mut self.ctx.events, tick);
        report.population = self.town.creatures.len() as u32;
        if self.thinking.stats.answered() > 0 {
            report.mean_latency_ms = Some(self.thinking.stats.mean_latency_ms());
        }
    }
}

fn routes_inside(world: &World, steps: &Vec<Step>) -> (r: bool)
    ensures
        r == (forall|k: int|
            0 <= k < steps@.len() ==> path_inside(world.ground(), (#[trigger] steps_of(steps@)[k]).path)),
{
    let ghost g = world.ground();
    for k in 0..steps.len()
        invariant
            g == world.ground(),
            forall|j: int| 0 <= j < k ==> path_inside(g, (#[trigger] steps_of(steps@)[j]).path),
    {
        let path = &steps[k].path;
        assert(steps_of(steps@)[k as int].path == path@);
        for i in 0..path.len()
            invariant
                g == world.ground(),
                k < steps@.len(),
                *path == steps@[k as int].path,
                steps_of(steps@)[k as int].path == path@,
                forall|j: int| 0 <= j < i ==> g.inside((#[trigger] path@[j]).0 as int, path@[j].1 as int),
        {
            if path[i].0 >= world.width || path[i].1 >= world.height {
                assert(!g.inside(path@[i as int].0 as int, path@[i as int].1 as int));
                assert(!path_inside(g, steps_of(steps@)[k as int].path));
                return false;
            }
        }
    }
    true
}

impl Sim {
    /// Whether every route of a plan stays on the map.
    pub fn can_follow(&self, plan: &Plan) -> (r: bool)
        ensures
            r == plan_holds(self.ground(), Some(plan@)),
    {
        routes_inside(&self.ctx.world, &plan.steps)
    }

    /// Whether an answer can be judged: a proposal has a first step, aimed at the
    /// map where it reads the ground, and its routes stay on it.
    pub fn can_judge(&self, verdict: &Verdict) -> (r: bool)
        ensures
            r == (is_judgeable(verdict, &self.ctx.world) && routes_hold(self.ground(), verdict)),
    {
        match verdict {
            Verdict::Refused(_) => true,
            Verdict::Proposed(p) => {
                if p.steps.len() == 0 {
                    return false;
                }
                let world = &self.ctx.world;
                let first = &p.steps[0];
                let reads = matches!(first.goal, Goal::Drink | Goal::PlantWheat | Goal::BuildShelter);
                if reads {
                    if let Some((x, y)) = first.target.tile(world) {
                        let (w, px, py) = (world.width, x, y);
                        assert(py * w <= 0xffff_ffff * 0xffff_ffff) by (nonlinear_arith)
                            requires
                                0 <= py <= 0xffff_ffff,
                                0 <= w <= 0xffff_ffff,
                        ;
                        let at: u128 = y as u128 * world.width as u128 + x as u128;
                        if at >= world.tiles.len() as u128 {
                            return false;
                        }
                    }
                }
                routes_inside(world, &p.steps)
            },
        }
    }
}

/// The list of the dead only grows.
proof fn lemma_toll_grows(t: Toll, people: Seq<CreatureV>, n: nat, tick: i64)
    ensures
        toll_of(t, people, n, tick).dead.len() >= t.dead.len(),
    decreases n,
{
    if n > 0 {
        lemma_toll_grows(t, people, (n - 1) as nat, tick);
    }
}

/// Whether the routes of a proposal, if there is one, stay on the map.
pub open spec fn routes_hold(g: Ground, verdict: &Verdict) -> bool {
    verdict matches Verdict::Proposed(p) ==> plan_holds(g, Some(plan_from(*p, 0)))
}

impl Sim {
    pub open spec fn desk(&self, report: &TickReport) -> Desk {
        desk_of(&self.town.creatures, &self.thinking, &self.ctx.events, report)
    }

    pub open spec fn scene(&self) -> Scene {
        scene_of(&self.ctx.world, &self.ctx.structures, &self.ctx.cfg, self.ctx.tick)
    }

    /// Everybody was born within reach of this tick.
    proof fn lemma_ages(&self)
        requires
            self.wf(),
        ensures
            forall|i: int|
                0 <= i < self.town.creatures@.len() ==> i64::MIN <= (#[trigger] self.town.creatures@[i])@.age(
                    self.ctx.tick,
                ) <= i64::MAX,
    {
        assert forall|i: int| 0 <= i < self.town.creatures@.len() implies i64::MIN <= (
        #[trigger] self.town.creatures@[i])@.age(self.ctx.tick) <= i64::MAX by {
            assert(is_sound(self.ground(), self.persons()[i], self.register.next_id));
        }
    }

    /// Gives a creature the plan that the reflex policy has for it.
    pub fn adopt_reflex(&mut self, i: usize, plan: Plan, enabled: bool, report: &mut TickReport)
        requires
            old(self).wf(),
            i < old(self).town.creatures@.len(),
            plan_holds(old(self).ground(), Some(plan@)),
        ensures
            final(self).wf(),
            final(self).desk(final(report)) == reflexed(
                old(self).desk(old(report)),
                i as int,
                plan@,
                enabled,
                old(self).scene(),
            ),
            *final(self) == (Sim { town: final(self).town, thinking: final(self).thinking, ..*old(self) }),
            final(self).town == (Town { creatures: final(self).town.creatures, ..old(self).town }),
            (final(self).moment(), *final(report)) == by_habit(
                old(self).moment(),
                *old(report),
                i as int,
                plan@,
                enabled,
            ),
    {
        let ghost before = self.persons();
        let ghost g = self.ground();
        proof {
            self.lemma_ages();
        }
        adopt_reflex(
            &mut self.town.creatures,
            &mut self.thinking,
            &self.ctx.events,
            report,
            i,
            plan,
            enabled,
            &self.ctx.world,
            &self.ctx.structures,
            &self.ctx.cfg,
            self.ctx.tick,
        );
        proof {
            lemma_replanned_is_sound(g, self.persons(), before, i as int, self.register.next_id);
        }
    }

    /// Takes delivery of one answer.
    pub fn take_answer(
        &mut self,
        done: &Completion,
        verdict: Verdict,
        cost: ThinkCost,
        model: &Model,
        report: &mut TickReport,
    )
        requires
            old(self).wf(),
            is_judgeable(&verdict, &old(self).ctx.world),
            routes_hold(old(self).ground(), &verdict),
        ensures
            final(self).wf(),
            final(self).desk(final(report)) == answered(
                old(self).desk(old(report)),
                done,
                &verdict,
                cost,
                model,
                old(self).scene(),
            ),
            final(self).town == (Town { creatures: final(self).town.creatures, ..old(self).town }),
            *final(self) == (Sim {
                ctx: final(self).ctx,
                town: final(self).town,
                thinking: final(self).thinking,
                ..*old(self)
            }),
            final(self).ctx == (ActionCtx { events: final(self).ctx.events, ..old(self).ctx }),
            (final(self).moment(), *final(report)) == by_answer(
                old(self).moment(),
                *old(report),
                done,
                &verdict,
                cost,
                model,
            ),
    {
        let ghost before = self.persons();
        let ghost g = self.ground();
        let ghost judged = verdict;
        proof {
            self.lemma_ages();
            lemma_place(before, done.creature_id);
        }
        adopt_completion(
            &mut self.town.creatures,
            &mut self.thinking,
            &mut self.ctx.events,
            report,
            done,
            verdict,
            cost,
            model,
            &self.ctx.world,
            &self.ctx.structures,
            &self.ctx.cfg,
            self.ctx.tick,
        );
        proof {
            let after = self.persons();
            let i = place_of(before, done.creature_id);
            if i < before.len() && after != before {
                assert(judged is Proposed);
                let p = judged->Proposed_0;
                assert(plan_holds(g, Some(plan_from(p, 0))));
                assert(plan_from(p, 0).steps == plan_from(p, self.ctx.tick).steps);
                assert(after == before.update(i, after[i]));
                lemma_replanned_is_sound(g, after, before, i, self.register.next_id);
            }
        }
    }

    /// Records that a creature was asked to think.
    pub fn ask(&mut self, i: usize, cost: ThinkCost, report: &mut TickReport)
        requires
            old(self).wf(),
            i < old(self).town.creatures@.len(),
        ensures
            final(self).wf(),
            final(self).desk(final(report)) == asked(old(self).desk(old(report)), i as int, cost, old(self).ctx.tick),
            *final(self) == (Sim { town: final(self).town, thinking: final(self).thinking, ..*old(self) }),
            final(self).town == (Town { creatures: final(self).town.creatures, ..old(self).town }),
            (final(self).moment(), *final(report)) == by_asking(old(self).moment(), *old(report), i as int, cost),
    {
        let ghost before = self.persons();
        let ghost g = self.ground();
        record_dispatch(
            &mut self.town.creatures,
            &mut self.thinking,
            &self.ctx.events,
            report,
            i,
            cost,
            self.ctx.tick,
        );
        proof {
            let after = self.persons();
            assert(after == before.update(i as int, after[i as int]));
            lemma_kept_update(before, i as int, after[i as int]);
            lemma_kept_is_sound(g, after, before, self.register.next_id);
        }
    }

    /// How long an answer is expected to take, in ticks. Where the tick waits for
    /// its answers the round trip is nothing.
    pub fn expected_wait(&self) -> (r: Num)
        ensures
            r == if self.mode == SpeedMode::Deep {
                num(NO_WAIT)
            } else {
                expected_latency(self.thinking.stats)
            },
    {
        if self.mode == SpeedMode::Deep {
            num(NO_WAIT)
        } else {
            observed_latency_ticks(&self.thinking.stats)
        }
    }
}

/// One creature given a plan that holds.
proof fn lemma_replanned_is_sound(g: Ground, after: Seq<CreatureV>, before: Seq<CreatureV>, i: int, next_id: i64)
    requires
        sound(g, before, next_id),
        0 <= i < before.len(),
        after == before.update(i, after[i]),
        after[i].id == before[i].id,
        after[i].x == before[i].x,
        after[i].y == before[i].y,
        after[i].birth_tick == before[i].birth_tick,
        plan_holds(g, after[i].plan),
    ensures
        sound(g, after, next_id),
{
    assert forall|k: int| 0 <= k < after.len() implies is_sound(g, #[trigger] after[k], next_id) by {
        assert(is_sound(g, before[k], next_id));
    }
    assert forall|k: int, j: int| 0 <= k < j < after.len() implies (#[trigger] after[k]).id < (#[trigger] after[j]).id by {
        assert(before[k].id < before[j].id);
    }
}

/// What is to be written for a tick.
#[derive(Debug)]
pub struct SavePlan {
    pub checkpoint: bool,
    pub sample: bool,
    /// How much of the map the living know between them, where samples are taken.
    pub known_tiles: Option<u32>,
    /// The places of the homes, the newly born and the believers to be written.
    pub homes: Vec<usize>,
    pub born: Vec<usize>,
    pub believers: Vec<usize>,
}

/// What a run resumes from.
pub struct Loaded {
    pub nodes: Vec<ResourceNode>,
    pub creatures: Vec<Creature>,
    pub structures: Structures,
    pub households: Households,
    pub relationships: Relationships,
    pub courtships: Courtships,
    pub next_creature_id: i64,
    pub deaths: Deaths,
    pub total_births: u64,
    pub tick: i64,
}

/// A run goes on from what was read back: that is its state, everybody has a seat
/// where they were, and nothing else is changed.
pub open spec fn resumed_from(before: &Sim, after: &Sim, from: &Loaded) -> bool {
    &&& *after == (Sim {
        ctx: after.ctx,
        town: after.town,
        people: after.people,
        node_index: after.node_index,
        register: after.register,
        deaths: from.deaths,
        ..*before
    })
    &&& after.ctx == (ActionCtx {
        world: after.ctx.world,
        structures: after.ctx.structures,
        tick: from.tick,
        rng: Stream { seed: tick_seed(before.seed, from.tick), pos: 0 },
        ..before.ctx
    })
    &&& after.ctx.world == (World { nodes: from.nodes, ..before.ctx.world })
    &&& after.ctx.structures.items@ == occupied(
        from.structures.items@,
        people_of(from.creatures@),
        from.creatures@.len(),
    )
    &&& after.ctx.structures.next_id == from.structures.next_id
    &&& after.town == (Town {
        creatures: from.creatures,
        households: from.households,
        relationships: from.relationships,
        courtships: from.courtships,
        ..before.town
    })
    &&& after.register == (Register {
        next_id: from.next_creature_id,
        total_births: from.total_births,
        ..before.register
    })
    &&& after.node_index@ == charted(before.ground(), from.nodes@)
    &&& after.people@ == crowd_of(before.ground(), people_of(from.creatures@), &before.ctx.cfg, from.tick)
}

/// Whether what was stored is the state of a run. The seats that are taken are
/// not stored: they follow from who is where.
pub open spec fn holds(from: &Loaded, run: &Sim) -> bool {
    &&& from.nodes@ == run.ctx.world.nodes@
    &&& people_of(from.creatures@) == run.persons()
    &&& occupied(from.structures.items@, people_of(from.creatures@), from.creatures@.len())
        == run.ctx.structures.items@
    &&& from.structures.next_id == run.ctx.structures.next_id
    &&& homes_of(from.households.items@) == homes_of(run.town.households.items@)
    &&& from.households.next_id == run.town.households.next_id
    &&& from.relationships.edges@ == run.town.relationships.edges@
    &&& from.courtships.offers@ == run.town.courtships.offers@
    &&& from.next_creature_id == run.register.next_id
    &&& from.total_births == run.register.total_births
    &&& from.deaths == run.deaths
    &&& from.tick == run.ctx.tick
}

impl Sim {
    /// Decides what is written for this tick. Nothing counts as written yet.
    pub fn start_save(&self, force: bool) -> (plan: SavePlan)
        requires
            self.wf(),
        ensures
            plan.checkpoint == is_checkpoint(
                force,
                self.ctx.cfg.persistence.checkpoint_interval_ticks,
                self.ctx.tick,
            ),
            plan.sample == is_sample(self.ctx.cfg.persistence.sample_interval_ticks, self.ctx.tick),
            plan.known_tiles == if plan.sample {
                Some((tiles_known(self.persons(), self.persons().len()).len() % 0x1_0000_0000) as u32)
            } else {
                None
            },
            plan.homes@ == dirty_in(self.town@.homes, self.town@.homes.len()),
            plan.born@ == named_in(self.persons(), self.persons().len(), self.register.pending@),
            plan.believers@ == slice_of(self.persons(), self.persons().len(), self.ctx.tick, force),
    {
        let tick = self.ctx.tick;
        let checkpoint = checkpoint_due(force, self.ctx.cfg.persistence.checkpoint_interval_ticks, tick);
        let sample = sample_due(self.ctx.cfg.persistence.sample_interval_ticks, tick);
        let known = if sample {
            Some(known_tiles(&self.town.creatures))
        } else {
            None
        };
        let homes = dirty_homes(&self.town.households.items);
        let born = born_rows(&self.town.creatures, &self.register.pending);
        let believers = belief_rows(&self.town.creatures, tick, force);
        SavePlan { checkpoint, sample, known_tiles: known, homes, born, believers }
    }

    /// The homes have been written. Whatever becomes of the rest, they are not
    /// written again until they change.
    pub fn homes_saved(&mut self)
        ensures
            final(self).town@ == (TownV { homes: old(self).town@.homes.map_values(cleaning()), ..old(self).town@ }),
            *final(self) == (Sim { town: final(self).town, ..*old(self) }),
            old(self).wf() ==> final(self).wf(),
            final(self).moment() == (Moment { town: final(self).town@, ..old(self).moment() }),
    {
        clean_homes(&mut self.town.households.items);
    }

    /// The newly born are about to be written, which is tried once.
    pub fn newborn_taken(&mut self)
        ensures
            final(self).register.pending@.len() == 0,
            *final(self) == (Sim {
                register: Register { pending: final(self).register.pending, ..old(self).register },
                ..*old(self)
            }),
            old(self).wf() ==> final(self).wf(),
            final(self).moment() == (Moment { newborn: Seq::empty(), ..old(self).moment() }),
    {
        self.register.pending.clear();
        assert(self.moment() == (Moment { newborn: Seq::empty(), ..old(self).moment() }));
    }

    /// Everything has been written: no home and nobody newly born is to be written
    /// again, and the dead need not be kept.
    pub fn finish_save(&mut self)
        ensures
            final(self).town@ == (TownV { homes: old(self).town@.homes.map_values(cleaning()), ..old(self).town@ }),
            final(self).register.pending@.len() == 0,
            final(self).pending_dead@.len() == 0,
            *final(self) == (Sim {
                town: final(self).town,
                register: Register { pending: final(self).register.pending, ..old(self).register },
                pending_dead: final(self).pending_dead,
                ..*old(self)
            }),
            old(self).wf() ==> final(self).wf(),
            final(self).moment() == (Moment {
                town: final(self).town@,
                newborn: Seq::empty(),
                dead: Seq::empty(),
                ..old(self).moment()
            }),
    {
        self.homes_saved();
        self.newborn_taken();
        self.pending_dead.clear();
        assert(people_of(self.pending_dead@) == Seq::<CreatureV>::empty());
    }

    /// Goes on from where a run was saved. The world it resumes into is the one
    /// it left, and draws what it would have drawn.
    pub fn load_from(&mut self, from: Loaded)
        requires
            old(self).wf(),
            old(self).resumes(&from),
        ensures
            final(self).wf(),
            resumed_from(old(self), final(self), &from),
            final(self).node_index.covers(
                final(self).ctx.world.nodes@,
                final(self).ctx.world.nodes@.len() as int,
            ),
            final(self).node_index.grid.spans(final(self).ctx.world.width, final(self).ctx.world.height, CELL),
    {
        let ghost cfg = self.ctx.cfg;
        self.ctx.world.nodes = from.nodes;
        self.town.creatures = from.creatures;
        self.ctx.structures = from.structures;
        self.town.households = from.households;
        self.town.relationships = from.relationships;
        self.town.courtships = from.courtships;
        self.register.next_id = from.next_creature_id;
        self.register.total_births = from.total_births;
        self.deaths = from.deaths;
        seat_occupants(&mut self.ctx.structures, &self.town.creatures);
        self.ctx.tick = from.tick;
        self.ctx.rng = tick_rng(self.seed, from.tick);
        self.node_index.rebuild(&self.ctx.world);
        self.people.rebuild(&self.town.creatures, from.tick, &self.ctx.cfg.knowledge);
        assert(self.people.people@ == people_of(from.creatures@).map_values(sighting(from.tick, &cfg)));
        proof {
            self.people.lemma_crowd();
        }
        assert(resumed_from(old(self), self, &from));
    }

    /// What the digest of a run is taken over.
    pub open spec fn state(&self) -> Seq<u8> {
        state_bytes(
            self.ctx.tick,
            self.persons(),
            self.ctx.world.nodes@,
            homes_of(self.town.households.items@),
            self.town.relationships.edges@,
            self.deaths.by_cause,
        )
    }

    /// A digest of everything the run has produced.
    pub fn state_digest(&self) -> (h: u64)
        ensures
            h == hash_of(self.state()),
    {
        state_digest(self.ctx.tick, &self.town, &self.ctx.world.nodes, &self.deaths.by_cause)
    }

    /// Whether a run can go on from what was read back.
    pub fn can_resume(&self, from: &Loaded) -> (r: bool)
        requires
            self.wf(),
        ensures
            r == self.resumes(from),
    {
        if from.nodes.len() > u32::MAX as usize || from.creatures.len() > u32::MAX as usize || from.tick < 0 || from.tick
            >= 0x4000_0000_0000_0000 {
            return false;
        }
        in_order_of_ends(&from.relationships.edges) && are_sound(
            &self.ctx.world,
            &from.creatures,
            from.next_creature_id,
        )
    }

    pub open spec fn resumes(&self, from: &Loaded) -> bool {
        &&& from.nodes@.len() <= u32::MAX
        &&& from.creatures@.len() <= u32::MAX
        &&& from.relationships.wf()
        &&& 0 <= from.tick
        &&& timely(from.tick as int)
        &&& sound(self.ground(), people_of(from.creatures@), from.next_creature_id)
    }
}

fn in_order_of_ends(edges: &Vec<Relation>) -> (r: bool)
    ensures
        r == in_order(edges@),
{
    for i in 0..edges.len()
        invariant
            forall|a: int, b: int|
                0 <= a < b < i ==> ends_before(ends(#[trigger] edges@[a]), ends(#[trigger] edges@[b])),
    {
        if i > 0 {
            let (x, y) = (edges[i - 1], edges[i]);
            if !(x.from < y.from || (x.from == y.from && x.to < y.to)) {
                assert(!ends_before(ends(edges@[i - 1]), ends(edges@[i as int])));
                return false;
            }
        }
        assert forall|a: int, b: int| 0 <= a < b < i + 1 implies ends_before(
            ends(#[trigger] edges@[a]),
            ends(#[trigger] edges@[b]),
        ) by {
            if b == i && a < i - 1 {
                assert(ends_before(ends(edges@[a]), ends(edges@[i - 1])));
            }
        }
    }
    true
}

fn is_path_inside(world: &World, path: &Vec<(u32, u32)>) -> (r: bool)
    ensures
        r == path_inside(world.ground(), path@),
{
    for k in 0..path.len()
        invariant
            forall|j: int|
                0 <= j < k ==> world.ground().inside((#[trigger] path@[j]).0 as int, path@[j].1 as int),
    {
        let (x, y) = path[k];
        if !world.in_bounds(x as i64, y as i64) {
            assert(!world.ground().inside(path@[k as int].0 as int, path@[k as int].1 as int));
            return false;
        }
    }
    true
}

fn is_plan_inside(world: &World, plan: &Option<Plan>) -> (r: bool)
    ensures
        r == plan_holds(world.ground(), plan_of(*plan)),
{
    match plan {
        None => true,
        Some(p) => {
            for k in 0..p.steps.len()
                invariant
                    plan_of(*plan) == Some(p@),
                    forall|j: int|
                        0 <= j < k ==> path_inside(world.ground(), (#[trigger] p@.steps[j]).path),
            {
                assert(p@.steps[k as int] == p.steps@[k as int]@);
                if !is_path_inside(world, &p.steps[k].path) {
                    assert(!path_inside(world.ground(), p@.steps[k as int].path));
                    return false;
                }
            }
            true
        },
    }
}

/// Whether a population is fit to go on with.
fn are_sound(world: &World, creatures: &Vec<Creature>, next_id: i64) -> (r: bool)
    ensures
        r == sound(world.ground(), people_of(creatures@), next_id),
{
    let ghost people = people_of(creatures@);
    for i in 0..creatures.len()
        invariant
            people == people_of(creatures@),
            forall|j: int| 0 <= j < i ==> is_sound(world.ground(), #[trigger] people[j], next_id),
            forall|a: int, b: int| 0 <= a < b < i ==> (#[trigger] people[a]).id < (#[trigger] people[b]).id,
    {
        let c = &creatures[i];
        assert(people[i as int] == c@);
        let fit = c.id < next_id && world.in_bounds(c.x as i64, c.y as i64) && is_plan_inside(world, &c.plan)
            && c.birth_tick > -0x4000_0000_0000_0000 && c.birth_tick < 0x4000_0000_0000_0000;
        if !fit {
            assert(!is_sound(world.ground(), people[i as int], next_id));
            return false;
        }
        if i > 0 {
            assert(people[i - 1] == creatures@[i - 1]@);
            if creatures[i - 1].id >= c.id {
                assert(!(people[i - 1].id < people[i as int].id));
                return false;
            }
        }
        assert forall|a: int, b: int| 0 <= a < b < i + 1 implies (#[trigger] people[a]).id < (#[trigger] people[b]).id by {
            if b == i && a < i - 1 {
                assert(people[a].id < people[i - 1].id);
            }
        }
    }
    true
}

/// What a tick draws depends on the run and the tick alone: a run that was
/// resumed draws what an uninterrupted one would have drawn.
pub proof fn law_a_resumed_run_draws_the_same(a: &Sim, b: &Sim)
    requires
        a.seed == b.seed,
        a.ctx.tick == b.ctx.tick,
    ensures
        a.at_dawn().rng == b.at_dawn().rng,
{
}

} // verus!
