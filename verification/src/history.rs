//! The course of a run.
//!
//! A moment is everything that what comes next can depend on. Each part of a tick
//! takes one moment to the next, given what is decided from outside: the plans
//! that habit makes, the answers of a model, and the deviates of the newborn. So
//! the same start and the same decisions make the same history, and a run that was
//! put away and taken up again goes on as if it had never stopped.

use crate::acting::{law_everybody_acts, round_from, round_of, RoundCounts, Stage};
use crate::actions::Setting;
use crate::birth::{delivered, due_in, laboured, Cradle, Deviates, Labour};
use crate::chance::Stream;
use crate::chronicle::folded;
use crate::config::{KnowledgeConfig, WorldConfig};
use crate::courting::{all_tried, ambient, cooled, overhearing, overheard, prospects, EARSHOT};
use crate::creature::{people_of, Batch, CreatureV, PlanV};
use crate::death::{toll_of, Deaths, Toll};
use crate::economy::{
    dist2, hour_of, is_indexed, is_night, lemma_in_square, reported, square_of, stands_of, Structure,
};
use crate::estates::{all_bequeathed, all_mourned, among_the_living, bereaved, closing_up, left_behind};
use crate::event::{log_of, EventV};
use crate::grid::{lemma_grid_over_reaches, map_grid, GridV};
use crate::needs::{dawned, decayed, exposures, lemma_plagued, needs_met};
use crate::num::{num, NOTHING};
use crate::nursery::{hearth_of, Brood, Place};
use crate::pathfind::is_map;
use crate::plans::{abandoned_in, endings_in, flagged_in};
use crate::records::{decisions_of, swelled, DecisionV, LlmStats, PlanOutcome, Tally, TickReport};
use crate::season::{turned, Season};
use crate::social::{clear_of, lemma_bonds_settle_edges, spots_of, CrowdV, SocialIntent};
use crate::thinking::{
    answered, asked, reflexed, still_wanted, Call, Completion, Desk, Model, Scene, ThinkCost, Verdict,
};
use crate::tick::{
    census_held, holds, laid_to_rest, met, opened, resumed_from, reviews, sighting, tick_seed, with_acts, Loaded, Sim, CELL,
};
use crate::town::{intents_applied, lemma_place, Affair, TownV};
use crate::world::{groups, lemma_group_of, Founder, Ground, ResourceNode};
use vstd::prelude::*;

verus! {

/// Everything that the course of a run depends on.
#[verifier::ext_equal]
pub struct Moment {
    pub seed: u64,
    pub cfg: WorldConfig,
    pub ground: Ground,
    pub founders: Seq<Founder>,
    /// How far a search for a route goes.
    pub cap: nat,
    pub nodes: Seq<ResourceNode>,
    pub structures: Seq<Structure>,
    pub next_structure: i64,
    pub tick: i64,
    pub night: bool,
    pub rng: Stream,
    pub log: Seq<EventV>,
    pub town: TownV,
    /// Where the nodes stood, and who stood where, when the tick began.
    pub sights: GridV,
    pub crowd: CrowdV,
    pub next_id: i64,
    pub total_births: u64,
    /// The newborn and the dead who are still to be recorded.
    pub newborn: Seq<i64>,
    pub dead: Seq<CreatureV>,
    pub deaths: Deaths,
    pub calls: Seq<Call>,
    pub stats: LlmStats,
    pub decisions: Seq<DecisionV>,
    pub outcomes: Seq<PlanOutcome>,
    pub flagged: Seq<usize>,
    pub intents: Seq<SocialIntent>,
}

impl Moment {
    pub open spec fn stage(self) -> Stage {
        Stage {
            nodes: self.nodes,
            structures: self.structures,
            next_id: self.next_structure,
            rng: self.rng,
            log: self.log,
        }
    }

    pub open spec fn setting(self) -> Setting {
        Setting { ground: self.ground, cfg: self.cfg, tick: self.tick, night: self.night, cap: self.cap }
    }

    pub open spec fn place(self) -> Place {
        Place { ground: self.ground, nodes: self.nodes, index: self.sights, cfg: self.cfg, tick: self.tick }
    }

    pub open spec fn scene(self) -> Scene {
        Scene {
            ground: self.ground,
            nodes: self.nodes,
            structures: self.structures,
            cfg: self.cfg,
            tick: self.tick,
        }
    }

    pub open spec fn brood(self) -> Brood {
        Brood {
            people: self.town.people,
            next_id: self.next_id,
            total_births: self.total_births,
            pending: self.newborn,
            log: self.log,
            rng: self.rng,
        }
    }

    pub open spec fn with_brood(self, b: Brood) -> Moment {
        Moment {
            town: TownV { people: b.people, ..self.town },
            next_id: b.next_id,
            total_births: b.total_births,
            newborn: b.pending,
            log: b.log,
            rng: b.rng,
            ..self
        }
    }

    pub open spec fn cradle(self, report: TickReport) -> Cradle {
        Cradle {
            town: self.town,
            next_id: self.next_id,
            total_births: self.total_births,
            pending: self.newborn,
            log: self.log,
            rng: self.rng,
            report,
        }
    }

    pub open spec fn with_cradle(self, k: Cradle) -> Moment {
        Moment {
            town: k.town,
            next_id: k.next_id,
            total_births: k.total_births,
            newborn: k.pending,
            log: k.log,
            rng: k.rng,
            ..self
        }
    }

    pub open spec fn desk(self, report: TickReport) -> Desk {
        Desk {
            people: self.town.people,
            calls: self.calls,
            stats: self.stats,
            decisions: self.decisions,
            log: self.log,
            report,
        }
    }

    pub open spec fn with_desk(self, d: Desk) -> Moment {
        Moment {
            town: TownV { people: d.people, ..self.town },
            calls: d.calls,
            stats: d.stats,
            decisions: d.decisions,
            log: d.log,
            ..self
        }
    }

    /// How the next tick finds the world. What was told before the first tick is
    /// still to be recorded; what was told in any later one has been.
    pub open spec fn dawn(self) -> Season {
        Season {
            nodes: self.nodes,
            structures: self.structures,
            people: self.town.people,
            homes: self.town.homes,
            rng: Stream { seed: tick_seed(self.seed, (self.tick + 1) as i64), pos: 0 },
            log: if self.tick > 0 {
                Seq::empty()
            } else {
                self.log
            },
            spoiled: num(NOTHING),
        }
    }
}

/// The nodes of a map as an index over all of them has them.
pub open spec fn charted(g: Ground, nodes: Seq<ResourceNode>) -> GridV {
    map_grid(g.width, g.height, CELL, stands_of(nodes))
}

/// A population as it is seen while a tick lasts.
pub open spec fn crowd_of(g: Ground, people: Seq<CreatureV>, cfg: &WorldConfig, tick: i64) -> CrowdV {
    let seen = people.map_values(sighting(tick, cfg));
    CrowdV { grid: map_grid(g.width, g.height, CELL, spots_of(seen)), people: seen }
}

/// Nothing in sight is missed: from a tile of the map an index over all the nodes
/// reports exactly those within the radius, but for dead sheep.
pub proof fn law_nothing_in_sight_is_missed(g: Ground, nodes: Seq<ResourceNode>, x: u32, y: u32, radius: u32, i: u32)
    requires
        is_map(g),
        g.inside(x as int, y as int),
        i < nodes.len() <= u32::MAX,
    ensures
        reported(charted(g, nodes), nodes, x, y, radius, i) <==> is_indexed(nodes[i as int]) && dist2(
            nodes[i as int].x,
            nodes[i as int].y,
            x,
            y,
        ) <= square_of(radius),
{
    let n = nodes[i as int];
    lemma_group_of(x as int, g.width, CELL);
    lemma_group_of(y as int, g.height, CELL);
    assert(groups(g.width, CELL) <= u32::MAX && groups(g.height, CELL) <= u32::MAX);
    lemma_grid_over_reaches(
        CELL,
        groups(g.width, CELL) as u32,
        groups(g.height, CELL) as u32,
        stands_of(nodes),
        x,
        y,
        radius,
        i,
    );
    if dist2(n.x, n.y, x, y) <= square_of(radius) {
        lemma_in_square(n.x, n.y, x, y, radius);
    }
}

impl Sim {
    pub open spec fn moment(&self) -> Moment {
        Moment {
            seed: self.seed,
            cfg: self.ctx.cfg,
            ground: self.ground(),
            founders: self.ctx.world.founders@,
            cap: self.ctx.pathfinder.node_cap as nat,
            nodes: self.ctx.world.nodes@,
            structures: self.ctx.structures.items@,
            next_structure: self.ctx.structures.next_id,
            tick: self.ctx.tick,
            night: self.ctx.night,
            rng: self.ctx.rng,
            log: log_of(self.ctx.events@),
            town: self.town@,
            sights: self.node_index@,
            crowd: self.people@,
            next_id: self.register.next_id,
            total_births: self.register.total_births,
            newborn: self.register.pending@,
            dead: people_of(self.pending_dead@),
            deaths: self.deaths,
            calls: self.thinking.waiting.calls@,
            stats: self.thinking.stats,
            decisions: decisions_of(self.thinking.decisions@),
            outcomes: self.plan_outcomes@,
            flagged: self.flagged@,
            intents: self.intents@,
        }
    }
}

/// How far a search for a route goes, unless it is told otherwise.
pub const USUAL_CAP: u32 = 6000;

/// The moment a run is made in a world: nobody is there yet.
pub open spec fn beginning(
    g: Ground,
    nodes: Seq<ResourceNode>,
    founders: Seq<Founder>,
    cfg: WorldConfig,
    seed: u64,
) -> Moment {
    Moment {
        seed,
        cfg,
        ground: g,
        founders,
        cap: USUAL_CAP as nat,
        nodes,
        structures: Seq::empty(),
        next_structure: 1,
        tick: 0,
        night: is_night(0, &cfg),
        rng: Stream { seed: tick_seed(seed, 0), pos: 0 },
        log: Seq::empty(),
        town: TownV {
            people: Seq::empty(),
            homes: Seq::empty(),
            next_home: 1,
            bonds: Map::empty(),
            offers: Seq::empty(),
            sent: Seq::empty(),
        },
        sights: charted(g, nodes),
        crowd: crowd_of(g, Seq::empty(), &cfg, 0),
        next_id: 1,
        total_births: 0,
        newborn: Seq::empty(),
        dead: Seq::empty(),
        deaths: Deaths { by_cause: Tally::zero(), total: 0 },
        calls: Seq::empty(),
        stats: LlmStats::zero(),
        decisions: Seq::empty(),
        outcomes: Seq::empty(),
        flagged: Seq::empty(),
        intents: Seq::empty(),
    }
}

/// A tick has begun, and the world has turned.
#[verifier::opaque]
pub open spec fn dawning(m: Moment) -> (Moment, TickReport) {
    let tick = (m.tick + 1) as i64;
    let s = turned(m.dawn(), m.ground, &m.cfg, tick);
    (
        Moment {
            tick,
            night: is_night(tick, &m.cfg),
            nodes: s.nodes,
            structures: s.structures,
            rng: s.rng,
            log: s.log,
            town: TownV { people: s.people, homes: s.homes, sent: Seq::empty(), ..m.town },
            sights: charted(m.ground, s.nodes),
            crowd: crowd_of(m.ground, s.people, &m.cfg, tick),
            decisions: Seq::empty(),
            outcomes: Seq::empty(),
            ..m
        },
        TickReport { food_spoiled: s.spoiled, ..TickReport::blank(tick) },
    )
}

/// Needs have been felt.
#[verifier::opaque]
pub open spec fn feeling(m: Moment) -> Moment {
    let (people, log, rng) = needs_met(m.town.people, m.structures, &m.cfg, m.tick, m.rng, m.log);
    Moment { town: TownV { people, ..m.town }, log, rng, ..m }
}

/// Commitments have been reviewed.
#[verifier::opaque]
pub open spec fn reviewing(m: Moment, report: TickReport) -> (Moment, TickReport) {
    let crit = m.cfg.needs.critical_threshold;
    let people = m.town.people;
    (
        Moment {
            town: TownV { people: people.map_values(reviews(crit, m.tick)), ..m.town },
            flagged: flagged_in(people, people.len(), crit, m.tick),
            outcomes: m.outcomes + endings_in(people, people.len(), crit, m.tick),
            ..m
        },
        TickReport {
            plans_abandoned: abandoned_in(people, people.len(), crit, m.tick, report.plans_abandoned),
            ..report
        },
    )
}

/// The first half of a tick, up to deliberation.
#[verifier::opaque]
pub open spec fn opening(m: Moment) -> (Moment, TickReport) {
    let tick = (m.tick + 1) as i64;
    let o = opened(m.dawn(), m.ground, &m.cfg, tick);
    let s = turned(m.dawn(), m.ground, &m.cfg, tick);
    (
        Moment {
            tick,
            night: is_night(tick, &m.cfg),
            nodes: o.season.nodes,
            structures: o.season.structures,
            rng: o.season.rng,
            log: o.season.log,
            town: TownV { people: o.season.people, homes: o.season.homes, sent: Seq::empty(), ..m.town },
            sights: charted(m.ground, s.nodes),
            crowd: crowd_of(m.ground, s.people, &m.cfg, tick),
            decisions: Seq::empty(),
            outcomes: o.outcomes,
            flagged: o.flagged,
            ..m
        },
        TickReport { food_spoiled: o.season.spoiled, plans_abandoned: o.abandoned, ..TickReport::blank(tick) },
    )
}

/// The first half of a tick has three parts.
pub proof fn lemma_opening(m: Moment)
    ensures
        ({
            let (a, r) = dawning(m);
            opening(m) == reviewing(feeling(a), r)
        }),
{
    reveal(dawning);
    reveal(feeling);
    reveal(reviewing);
    reveal(opening);
    let (a, r) = dawning(m);
    let b = feeling(a);
    let people = b.town.people;
    let ended = endings_in(people, people.len(), m.cfg.needs.critical_threshold, b.tick);
    assert(Seq::<PlanOutcome>::empty() + ended == ended);
    assert(opening(m).0 == reviewing(b, r).0);
}

/// What the first half of a tick comes to, part by part.
pub proof fn lemma_opened(m: Moment)
    ensures
        ({
            let tick = (m.tick + 1) as i64;
            let o = opened(m.dawn(), m.ground, &m.cfg, tick);
            let (a, r) = opening(m);
            &&& a.nodes == o.season.nodes
            &&& a.structures == o.season.structures
            &&& a.town.people == o.season.people
            &&& a.town.homes == o.season.homes
            &&& a.rng == o.season.rng
            &&& a.log == o.season.log
            &&& a.flagged == o.flagged
            &&& a.outcomes == o.outcomes
            &&& a.night == is_night(tick, &m.cfg)
            &&& r == (TickReport {
                food_spoiled: o.season.spoiled,
                plans_abandoned: o.abandoned,
                ..TickReport::blank(tick)
            })
        }),
{
    reveal(opening);
}

/// Somebody given a plan by habit.
pub open spec fn by_habit(m: Moment, report: TickReport, i: int, plan: PlanV, enabled: bool) -> (
    Moment,
    TickReport,
) {
    let d = reflexed(m.desk(report), i, plan, enabled, m.scene());
    (m.with_desk(d), d.report)
}

/// An answer taken.
pub open spec fn by_answer(
    m: Moment,
    report: TickReport,
    done: &Completion,
    verdict: &Verdict,
    cost: ThinkCost,
    model: &Model,
) -> (Moment, TickReport) {
    let d = answered(m.desk(report), done, verdict, cost, model, m.scene());
    (m.with_desk(d), d.report)
}

/// A question asked.
pub open spec fn by_asking(m: Moment, report: TickReport, i: int, cost: ThinkCost) -> (Moment, TickReport) {
    let d = asked(m.desk(report), i, cost, m.tick);
    (m.with_desk(d), d.report)
}

/// Everybody has acted.
#[verifier::opaque]
pub open spec fn acting(m: Moment, report: TickReport) -> (Moment, TickReport) {
    let r = round_of(
        round_from(
            m.town.people,
            m.stage(),
            m.outcomes,
            report.plans_abandoned,
            report.discoveries,
            report.acted,
        ),
        m.town.people.len(),
        m.setting(),
        m.sights,
    );
    (
        Moment {
            nodes: r.stage.nodes,
            structures: r.stage.structures,
            next_structure: r.stage.next_id,
            rng: r.stage.rng,
            log: r.stage.log,
            town: TownV { people: r.people, ..m.town },
            outcomes: r.outcomes,
            ..m
        },
        with_acts(
            report,
            RoundCounts {
                gathered: r.gathered,
                eaten: r.eaten,
                abandoned: r.abandoned,
                discoveries: r.discoveries,
                acted: r.acted,
            },
        ),
    )
}

/// Everything that takes two is settled.
#[verifier::opaque]
pub open spec fn meeting(m: Moment, report: TickReport) -> (Moment, TickReport) {
    let (a, rng) = met(
        Affair { town: m.town, log: m.log, report },
        m.intents,
        m.crowd,
        &m.cfg,
        m.tick,
        m.rng,
    );
    (Moment { town: a.town, log: a.log, rng, intents: Seq::empty(), ..m }, a.report)
}

/// A birth begun.
#[verifier::opaque]
pub open spec fn labouring(m: Moment, report: TickReport, place: int) -> (Moment, Option<Labour>) {
    let (k, labour) = laboured(m.cradle(report), place, &m.cfg, m.tick);
    (m.with_cradle(k), labour)
}

/// A birth finished.
#[verifier::opaque]
pub open spec fn delivering(m: Moment, report: TickReport, l: Labour, z: Deviates) -> (Moment, TickReport) {
    let k = delivered(m.cradle(report), m.place(), l, z);
    (m.with_cradle(k), k.report)
}

/// The deaths of a tick, and the census.
#[verifier::opaque]
pub open spec fn ending(m: Moment, report: TickReport) -> (Moment, TickReport) {
    let t = toll_of(
        Toll {
            living: Seq::empty(),
            dead: m.dead,
            structures: m.structures,
            log: m.log,
            by_cause: m.deaths.by_cause,
            total: m.deaths.total,
            report,
        },
        m.town.people,
        m.town.people.len(),
        m.tick,
    );
    let a = laid_to_rest(m.town, t, m.dead.len(), m.tick);
    let (b, r) = census_held(
        a,
        Brood { people: a.town.people, log: a.log, ..m.brood() },
        m.place(),
        hearth_of(m.ground, m.founders),
        m.cfg.bench.maintain_population,
    );
    (
        Moment {
            structures: t.structures,
            dead: t.dead,
            deaths: Deaths { by_cause: t.by_cause, total: t.total },
            ..(Moment { town: a.town, ..m }).with_brood(b)
        },
        r,
    )
}

/// The last of a tick.
#[verifier::opaque]
pub open spec fn closing(m: Moment, report: TickReport) -> (Moment, TickReport) {
    (
        Moment { log: folded(m.log, m.tick), ..m },
        TickReport {
            population: m.town.people.len() as u32,
            mean_latency_ms: if m.stats.answers() > 0 {
                Some(m.stats.latency())
            } else {
                report.mean_latency_ms
            },
            ..report
        },
    )
}

/// What may happen between the opening of a tick and its acts.
pub enum Move {
    /// Habit has drawn from the stream.
    Drawn(Stream),
    Habit(int, PlanV, bool),
    Answer(Completion, Verdict, ThinkCost, Model),
    /// Calls that nobody waits for any more are given up.
    Lapse(u32),
    Question(int, ThinkCost),
    Intent(SocialIntent),
}

pub open spec fn moved(m: Moment, report: TickReport, a: Move) -> (Moment, TickReport) {
    match a {
        Move::Drawn(rng) => (Moment { rng, ..m }, report),
        Move::Habit(i, plan, enabled) => by_habit(m, report, i, plan, enabled),
        Move::Answer(done, verdict, cost, model) => by_answer(m, report, &done, &verdict, cost, &model),
        Move::Lapse(ttl) => {
            let calls = m.calls.filter(still_wanted(m.tick, ttl));
            (
                Moment {
                    calls,
                    stats: LlmStats {
                        expired: swelled(m.stats.expired, (m.calls.len() - calls.len()) as nat),
                        ..m.stats
                    },
                    ..m
                },
                report,
            )
        },
        Move::Question(i, cost) => by_asking(m, report, i, cost),
        Move::Intent(intent) => (Moment { intents: m.intents.push(intent), ..m }, report),
    }
}

/// The first `n` moves made.
pub open spec fn deliberating(m: Moment, report: TickReport, moves: Seq<Move>, n: nat) -> (Moment, TickReport)
    decreases n,
{
    if n == 0 {
        (m, report)
    } else {
        let (b, r) = deliberating(m, report, moves, (n - 1) as nat);
        moved(b, r, moves[n - 1])
    }
}

/// The first `n` of those whose time has come have given birth.
pub open spec fn bearing(m: Moment, report: TickReport, due: Seq<usize>, z: Seq<Deviates>, n: nat) -> (
    Moment,
    TickReport,
)
    decreases n,
{
    if n == 0 {
        (m, report)
    } else {
        let (b, r) = bearing(m, report, due, z, (n - 1) as nat);
        let (c, labour) = labouring(b, r, due[n - 1] as int);
        match labour {
            Some(l) => delivering(c, r, l, z[n - 1]),
            None => (c, r),
        }
    }
}

/// Everything about a tick that is decided from outside.
pub struct Decisions {
    pub moves: Seq<Move>,
    pub deviates: Seq<Deviates>,
}

/// A whole tick: the moment after it, with what was told in it, and its report.
pub open spec fn ticked(m: Moment, d: Decisions) -> (Moment, TickReport) {
    let (a, ra) = opening(m);
    let (b, rb) = deliberating(a, ra, d.moves, d.moves.len());
    let (c, rc) = acting(b, rb);
    let (e, re) = meeting(c, rc);
    let due = due_in(e.town.people, e.town.people.len(), e.tick);
    let (f, rf) = bearing(e, re, due, d.deviates, due.len());
    let (g, rg) = ending(f, rf);
    closing(g, rg)
}

/// The moment and the report after the first `n` of some ticks.
pub open spec fn after_ticks(m: Moment, r: TickReport, course: Seq<Decisions>, n: nat) -> (Moment, TickReport)
    decreases n,
{
    if n == 0 {
        (m, r)
    } else {
        ticked(after_ticks(m, r, course, (n - 1) as nat).0, course[n - 1])
    }
}

/// Whether the next tick finds two moments alike: they differ at most in what a
/// tick leaves behind for the display and makes anew when it begins. What was told
/// counts only before the first tick, where it is still to be recorded.
pub open spec fn alike_at_dawn(a: Moment, b: Moment) -> bool {
    &&& a == (Moment {
        night: a.night,
        rng: a.rng,
        log: a.log,
        town: TownV { sent: a.town.sent, ..b.town },
        sights: a.sights,
        crowd: a.crowd,
        decisions: a.decisions,
        outcomes: a.outcomes,
        flagged: a.flagged,
        ..b
    })
    &&& a.tick > 0 || a.log == b.log
}

/// A tick that finds two moments alike, and in which the same is decided, takes
/// them to one and the same moment: the same people and world, the same events in
/// the same order, the same report.
pub proof fn law_the_same_tick_follows(a: Moment, b: Moment, d: Decisions)
    requires
        alike_at_dawn(a, b),
    ensures
        opening(a) == opening(b),
        ticked(a, d) == ticked(b, d),
{
    reveal(opening);
    assert(a.dawn() == b.dawn());
    assert(opening(a).0 == opening(b).0);
}

/// The same start and the same decisions make the same history: after every number
/// of ticks the moments are the same, with all that was told in the last of them,
/// and so are the reports.
pub proof fn law_history_repeats_itself(
    a: Moment,
    b: Moment,
    ra: TickReport,
    rb: TickReport,
    course: Seq<Decisions>,
    n: nat,
)
    requires
        alike_at_dawn(a, b),
        0 < n <= course.len(),
    ensures
        after_ticks(a, ra, course, n) == after_ticks(b, rb, course, n),
    decreases n,
{
    if n == 1 {
        assert(after_ticks(a, ra, course, 0).0 == a);
        assert(after_ticks(b, rb, course, 0).0 == b);
        law_the_same_tick_follows(a, b, course[0]);
        assert(after_ticks(a, ra, course, 1) == ticked(a, course[0]));
        assert(after_ticks(b, rb, course, 1) == ticked(b, course[0]));
    } else {
        law_history_repeats_itself(a, b, ra, rb, course, (n - 1) as nat);
    }
}

/// Runs at the same moment have the same digest, as many people, and the same toll
/// of deaths.
pub proof fn law_the_digest_follows_the_moment(a: &Sim, b: &Sim)
    requires
        a.wf(),
        b.wf(),
        a.moment() == b.moment(),
    ensures
        a.state() == b.state(),
        a.town.creatures@.len() == b.town.creatures@.len(),
        a.deaths == b.deaths,
{
    assert(a.moment().town == b.moment().town);
    assert(a.persons().len() == a.town.creatures@.len());
    assert(b.persons().len() == b.town.creatures@.len());
    lemma_bonds_settle_edges(a.town.relationships.edges@, b.town.relationships.edges@);
}

/// Whether a run was made for the same world as another, and has as much in hand
/// that is not put away: nothing unrecorded, unanswered or intended that the other
/// has not.
pub open spec fn made_for(fresh: &Sim, run: &Sim) -> bool {
    &&& fresh.seed == run.seed
    &&& fresh.ctx.cfg == run.ctx.cfg
    &&& fresh.ground() == run.ground()
    &&& fresh.ctx.world.founders@ == run.ctx.world.founders@
    &&& fresh.ctx.pathfinder.node_cap == run.ctx.pathfinder.node_cap
    &&& fresh.register.pending@ == run.register.pending@
    &&& people_of(fresh.pending_dead@) == people_of(run.pending_dead@)
    &&& fresh.thinking.waiting.calls@ == run.thinking.waiting.calls@
    &&& fresh.thinking.stats == run.thinking.stats
    &&& fresh.intents@ == run.intents@
    &&& run.ctx.tick > 0 || log_of(fresh.ctx.events@) == log_of(run.ctx.events@)
}

/// A run that is taken up from what was put away of it has the digest it had, and
/// goes on as it would have without the break: whatever number of ticks follow, with
/// the same decided in each, both come to the same moments and reports.
pub proof fn law_a_resumed_run_goes_on_as_it_was(
    run: &Sim,
    from: &Loaded,
    before: &Sim,
    after: &Sim,
    r: TickReport,
    course: Seq<Decisions>,
    n: nat,
)
    requires
        holds(from, run),
        made_for(before, run),
        resumed_from(before, after, from),
        0 < n <= course.len(),
    ensures
        after.state() == run.state(),
        after.town.creatures@.len() == run.town.creatures@.len(),
        after.deaths == run.deaths,
        after.ctx.tick == run.ctx.tick,
        alike_at_dawn(after.moment(), run.moment()),
        after_ticks(after.moment(), r, course, n) == after_ticks(run.moment(), r, course, n),
{
    assert(after.ground() == before.ground());
    assert(after.persons().len() == after.town.creatures@.len());
    assert(run.persons().len() == run.town.creatures@.len());
    let (a, b) = (after.moment(), run.moment());
    assert(a.town == (TownV { sent: a.town.sent, ..b.town }));
    assert(alike_at_dawn(a, b));
    law_history_repeats_itself(a, b, r, r, course, n);
}

/// A run made anew in the world of another, which has put away all it had in hand
/// and asked nobody anything, is made for it.
pub proof fn law_a_new_run_can_take_up_another(fresh: &Sim, run: &Sim, nodes: Seq<ResourceNode>)
    requires
        fresh.moment() == beginning(
            run.ground(),
            nodes,
            run.ctx.world.founders@,
            run.ctx.cfg,
            run.seed,
        ),
        run.ctx.tick > 0,
        run.moment().cap == USUAL_CAP,
        run.moment().newborn.len() == 0,
        run.moment().dead.len() == 0,
        run.moment().calls.len() == 0,
        run.moment().stats == LlmStats::zero(),
        run.moment().intents.len() == 0,
    ensures
        made_for(fresh, run),
{
    let (a, b) = (fresh.moment(), run.moment());
    assert(a.newborn == b.newborn && a.dead == b.dead && a.calls == b.calls && a.intents == b.intents);
}

/// Moves of a run that asks no model anything.
pub open spec fn is_unaided(a: Move) -> bool {
    a is Drawn || a is Habit || a is Intent
}

proof fn lemma_unaided(m: Moment, report: TickReport, moves: Seq<Move>, n: nat)
    requires
        n <= moves.len(),
        forall|i: int| 0 <= i < moves.len() ==> is_unaided(#[trigger] moves[i]),
    ensures
        deliberating(m, report, moves, n).0.calls == m.calls,
        deliberating(m, report, moves, n).0.stats == m.stats,
    decreases n,
{
    if n > 0 {
        lemma_unaided(m, report, moves, (n - 1) as nat);
        assert(is_unaided(moves[n - 1]));
    }
}

proof fn lemma_bearing(m: Moment, report: TickReport, due: Seq<usize>, z: Seq<Deviates>, n: nat)
    ensures
        ({
            let (b, r) = bearing(m, report, due, z, n);
            &&& same_acts(r, report)
            &&& b.calls == m.calls
            &&& b.stats == m.stats
            &&& b.intents == m.intents
            &&& b.tick == m.tick
            &&& b.cap == m.cap
        }),
    decreases n,
{
    reveal(labouring);
    reveal(delivering);
    if n > 0 {
        lemma_bearing(m, report, due, z, (n - 1) as nat);
    }
}

/// A run that asks no model anything has no call out and no answer counted that it
/// had not before a tick, and no intent is left over from one.
pub proof fn law_an_unaided_tick_asks_nobody(m: Moment, d: Decisions)
    requires
        forall|i: int| 0 <= i < d.moves.len() ==> is_unaided(#[trigger] d.moves[i]),
    ensures
        ticked(m, d).0.calls == m.calls,
        ticked(m, d).0.stats == m.stats,
        ticked(m, d).0.intents.len() == 0,
{
    reveal(opening);
    reveal(acting);
    reveal(meeting);
    reveal(ending);
    reveal(closing);
    let (a, ra) = opening(m);
    lemma_unaided(a, ra, d.moves, d.moves.len());
    let (b, rb) = deliberating(a, ra, d.moves, d.moves.len());
    let (c, rc) = acting(b, rb);
    let (e, re) = meeting(c, rc);
    let due = due_in(e.town.people, e.town.people.len(), e.tick);
    lemma_bearing(e, re, due, d.deviates, due.len());
}

/// Reports of the same tick, in which as many acted.
pub open spec fn same_acts(a: TickReport, b: TickReport) -> bool {
    a.tick == b.tick && a.acted == b.acted
}

proof fn lemma_intents_report(a: Affair, intents: Seq<SocialIntent>, n: nat, k: &KnowledgeConfig, tick: i64)
    ensures
        same_acts(intents_applied(a, intents, n, k, tick).report, a.report),
    decreases n,
{
    if n > 0 {
        lemma_intents_report(a, intents, (n - 1) as nat, k, tick);
    }
}

proof fn lemma_overheard_report(a: Affair, pairs: Seq<(i64, i64)>, n: nat, k: &KnowledgeConfig, tick: i64)
    ensures
        same_acts(overheard(a, pairs, n, k, tick).report, a.report),
    decreases n,
{
    if n > 0 {
        lemma_overheard_report(a, pairs, (n - 1) as nat, k, tick);
    }
}

proof fn lemma_tried_report(a: Affair, list: Seq<(usize, usize, i64)>, n: nat, cfg: &WorldConfig, tick: i64)
    ensures
        same_acts(all_tried(a, list, n, cfg, tick).report, a.report),
    decreases n,
{
    if n > 0 {
        lemma_tried_report(a, list, (n - 1) as nat, cfg, tick);
    }
}

proof fn lemma_meeting_report(m: Moment, report: TickReport)
    ensures
        same_acts(meeting(m, report).1, report),
{
    reveal(meeting);
    let (cfg, tick) = (&m.cfg, m.tick);
    let a = Affair { town: m.town, log: m.log, report };
    lemma_intents_report(a, m.intents, m.intents.len(), &cfg.knowledge, tick);
    let b = intents_applied(a, m.intents, m.intents.len(), &cfg.knowledge, tick);
    let radius = if cfg.knowledge.observation_radius < EARSHOT {
        cfg.knowledge.observation_radius
    } else {
        EARSHOT
    };
    let (pairs, s) = overhearing(
        b.town.people,
        b.town.people.len(),
        m.crowd,
        cfg.knowledge.ambient_share_chance,
        radius,
        m.rng,
    );
    lemma_overheard_report(b, pairs, pairs.len(), &cfg.knowledge, tick);
    let (c, t) = ambient(b, m.crowd, cfg, tick, m.rng);
    let e = Affair { town: cooled(c.town, cfg.reproduction.courtship_offer_ticks, tick), ..c };
    let list = prospects(e.town.people, e.town.people.len());
    lemma_tried_report(e, list, list.len(), cfg, tick);
}

proof fn lemma_toll_report(t: Toll, people: Seq<CreatureV>, n: nat, tick: i64)
    ensures
        same_acts(toll_of(t, people, n, tick).report, t.report),
    decreases n,
{
    if n > 0 {
        lemma_toll_report(t, people, (n - 1) as nat, tick);
    }
}

proof fn lemma_bereaved_report(a: Affair, n: nat, id: i64, tick: i64)
    ensures
        bereaved(a, n, id, tick).report == a.report,
    decreases n,
{
    if n > 0 {
        lemma_bereaved_report(a, (n - 1) as nat, id, tick);
    }
}

proof fn lemma_mourned_report(a: Affair, dead: Seq<CreatureV>, n: nat, tick: i64)
    ensures
        all_mourned(a, dead, n, tick).report == a.report,
    decreases n,
{
    if n > 0 {
        lemma_mourned_report(a, dead, (n - 1) as nat, tick);
        let b = all_mourned(a, dead, (n - 1) as nat, tick);
        let id = dead[n - 1].id;
        let c = Affair { town: TownV { offers: b.town.offers.filter(clear_of(id)), ..b.town }, ..b };
        lemma_bereaved_report(c, c.town.people.len(), id, tick);
    }
}

proof fn lemma_bequeathed_report(
    a: Affair,
    structures: Seq<Structure>,
    estates: Seq<(i64, Seq<Batch>)>,
    n: nat,
    tick: i64,
)
    ensures
        all_bequeathed(a, structures, estates, n, tick).report == a.report,
    decreases n,
{
    if n > 0 {
        lemma_bequeathed_report(a, structures, estates, (n - 1) as nat, tick);
    }
}

proof fn lemma_ending_report(m: Moment, report: TickReport)
    ensures
        same_acts(ending(m, report).1, report),
{
    reveal(ending);
    let start = Toll {
        living: Seq::empty(),
        dead: m.dead,
        structures: m.structures,
        log: m.log,
        by_cause: m.deaths.by_cause,
        total: m.deaths.total,
        report,
    };
    lemma_toll_report(start, m.town.people, m.town.people.len(), m.tick);
    let t = toll_of(start, m.town.people, m.town.people.len(), m.tick);
    let a = Affair { town: TownV { people: t.living, ..m.town }, log: t.log, report: t.report };
    lemma_mourned_report(a, t.dead, t.dead.len(), m.tick);
    let b = all_mourned(a, t.dead, t.dead.len(), m.tick);
    let estates = left_behind(b.town.homes, b.town.people);
    let c = Affair {
        town: TownV {
            bonds: among_the_living(b.town.bonds, b.town.people),
            homes: b.town.homes.map_values(closing_up(b.town.people, m.tick)),
            ..b.town
        },
        ..b
    };
    lemma_bequeathed_report(c, t.structures, estates, estates.len(), m.tick);
}

/// Whether the moves are about somebody in a population of a size.
pub open spec fn are_about(moves: Seq<Move>, people: nat) -> bool {
    forall|k: int|
        0 <= k < moves.len() ==> match #[trigger] moves[k] {
            Move::Habit(i, _, _) => 0 <= i < people,
            Move::Question(i, _) => 0 <= i < people,
            _ => true,
        }
}

pub proof fn lemma_deliberating(m: Moment, report: TickReport, moves: Seq<Move>, n: nat)
    requires
        n <= moves.len(),
        are_about(moves, m.town.people.len()),
    ensures
        same_acts(deliberating(m, report, moves, n).1, report),
        deliberating(m, report, moves, n).0.tick == m.tick,
        deliberating(m, report, moves, n).0.town.people.len() == m.town.people.len(),
        deliberating(m, report, moves, n).0.flagged == m.flagged,
    decreases n,
{
    if n > 0 {
        lemma_deliberating(m, report, moves, (n - 1) as nat);
        if let Move::Answer(done, verdict, cost, model) = moves[n - 1] {
            let (b, r) = deliberating(m, report, moves, (n - 1) as nat);
            lemma_place(b.town.people, done.creature_id);
        }
    }
}

/// Nobody comes or goes while a tick opens.
pub proof fn lemma_opening_count(m: Moment)
    ensures
        opening(m).0.town.people.len() == m.town.people.len(),
{
    reveal(opening);
    let tick = (m.tick + 1) as i64;
    let s = turned(m.dawn(), m.ground, &m.cfg, tick);
    let hungry = s.people.map_values(|c: CreatureV| decayed(c, s.structures, &m.cfg, tick));
    let (risen, said) = if hour_of(tick) == m.cfg.actions.night_end_hour {
        (hungry.map_values(|c: CreatureV| dawned(c, &m.cfg)), s.log + exposures(hungry, &m.cfg, tick))
    } else {
        (hungry, s.log)
    };
    lemma_plagued(risen, s.people.len(), &m.cfg, tick, s.rng, said);
}

/// A tick is one tick: it is counted and reported as the next, and where everybody
/// has a plan once it has been thought over, as many act as were alive before it.
pub proof fn law_a_tick_is_one_tick(m: Moment, d: Decisions)
    requires
        m.tick < i64::MAX,
        m.town.people.len() <= u32::MAX,
        are_about(d.moves, m.town.people.len()),
    ensures
        ticked(m, d).0.tick == m.tick + 1,
        ticked(m, d).1.tick == m.tick + 1,
        ({
            let (a, ra) = opening(m);
            let (b, rb) = deliberating(a, ra, d.moves, d.moves.len());
            &&& b.town.people.len() == m.town.people.len()
            &&& (forall|i: int| 0 <= i < b.town.people.len() ==> (#[trigger] b.town.people[i]).plan is Some)
                ==> ticked(m, d).1.acted == m.town.people.len()
        }),
{
    reveal(opening);
    reveal(acting);
    reveal(meeting);
    reveal(ending);
    reveal(closing);
    let (a, ra) = opening(m);
    lemma_opening_count(m);
    lemma_deliberating(a, ra, d.moves, d.moves.len());
    let (b, rb) = deliberating(a, ra, d.moves, d.moves.len());
    let (c, rc) = acting(b, rb);
    if forall|i: int| 0 <= i < b.town.people.len() ==> (#[trigger] b.town.people[i]).plan is Some {
        law_everybody_acts(
            round_from(b.town.people, b.stage(), b.outcomes, rb.plans_abandoned, rb.discoveries, rb.acted),
            b.town.people.len(),
            b.setting(),
            b.sights,
        );
    }
    let (e, re) = meeting(c, rc);
    lemma_meeting_report(c, rc);
    let due = due_in(e.town.people, e.town.people.len(), e.tick);
    lemma_bearing(e, re, due, d.deviates, due.len());
    let (f, rf) = bearing(e, re, due, d.deviates, due.len());
    lemma_ending_report(f, rf);
}

} // verus!
