//! Death, and what it leaves behind: widows, orphans, and the stores of homes
//! that nobody lives in any more.

use crate::actions::{vacate, vacated, ActionCtx};
use crate::creature::{people_of, Creature, CreatureV, DeathCause};
use crate::economy::Structure;
use crate::event::{event_of, log_of, Event, EventKind, EventV};
use crate::lists::{lemma_filter_start, lemma_filter_step};
use crate::needs::{born_timely, timely};
use crate::num::{num, of_int, NOTHING};
use crate::records::{count_one, one_more, swell, swelled, Tally, TickReport};
use crate::town::say;
use vstd::prelude::*;

verus! {

/// Ticks for which an injury or illness is still what killed a creature.
pub const MOURNED: i64 = 48;

/// What a creature dies of at a tick, if it dies. An accident or illness in the
/// recent past is what killed it, not whichever need happened to be lowest when
/// it finally gave out.
pub open spec fn fate_of(c: CreatureV, tick: i64) -> Option<DeathCause> {
    if c.biological_age(tick).ge(c.lifespan_ticks) {
        Some(DeathCause::OldAge)
    } else if c.health.le(num(NOTHING)) {
        match c.trauma {
            Some((cause, at)) if tick - at <= MOURNED => Some(cause),
            _ => Some(c.worst_need_cause()),
        }
    } else {
        None
    }
}

pub fn fate(c: &Creature, tick: i64) -> (r: Option<DeathCause>)
    requires
        i64::MIN <= c@.age(tick) <= i64::MAX,
    ensures
        r == fate_of(c@, tick),
{
    if c.biological_age(tick).ge(c.lifespan_ticks) {
        Some(DeathCause::OldAge)
    } else if c.health.le(num(NOTHING)) {
        match c.trauma {
            Some((cause, at)) => if tick as i128 - at as i128 <= MOURNED as i128 {
                Some(cause)
            } else {
                Some(c.worst_need_cause())
            },
            None => Some(c.worst_need_cause()),
        }
    } else {
        None
    }
}

/// A creature as it is recorded for the last time.
pub open spec fn laid_out(c: CreatureV, cause: DeathCause, tick: i64) -> CreatureV {
    CreatureV {
        death_tick: Some(tick),
        death_cause: Some(cause),
        in_shelter: None,
        dirty: true,
        ..c
    }
}

/// Whether a creature lives through a tick.
pub open spec fn outlives(tick: i64) -> spec_fn(CreatureV) -> bool {
    |c: CreatureV| fate_of(c, tick) is None
}

/// What the deaths of a tick come to.
#[verifier::ext_equal]
pub struct Toll {
    /// The living and the dead, each in order.
    pub living: Seq<CreatureV>,
    pub dead: Seq<CreatureV>,
    pub structures: Seq<Structure>,
    pub log: Seq<EventV>,
    pub by_cause: Tally,
    pub total: u64,
    pub report: TickReport,
}

/// How a death is told.
pub open spec fn obituary(c: CreatureV, cause: DeathCause, tick: i64) -> EventV {
    event_of(tick, EventKind::Died, c.id).at(c.x, c.y).with("cause"@, cause.text()).with_int(
        "age"@,
        c.age(tick),
    ).with_int("expected"@, c.lifespan_ticks.integer_part())
}

/// The toll once the first `n` of a population have met their fate.
pub open spec fn toll_of(t: Toll, people: Seq<CreatureV>, n: nat, tick: i64) -> Toll
    decreases n,
{
    if n == 0 {
        t
    } else {
        let before = toll_of(t, people, (n - 1) as nat, tick);
        let c = people[n - 1];
        match fate_of(c, tick) {
            None => Toll { living: before.living.push(c), ..before },
            Some(cause) => Toll {
                living: before.living,
                dead: before.dead.push(laid_out(c, cause, tick)),
                structures: match c.in_shelter {
                    Some(id) => vacated(before.structures, id),
                    None => before.structures,
                },
                log: before.log.push(obituary(c, cause, tick)),
                by_cause: before.by_cause.raised(cause.slot() as int),
                total: swelled(before.total, 1),
                report: TickReport { deaths: one_more(before.report.deaths), ..before.report },
            },
        }
    }
}

/// The counts of the dead over a run.
#[derive(Debug, Clone, Copy, PartialEq, Eq, Structural)]
pub struct Deaths {
    pub by_cause: Tally,
    pub total: u64,
}

pub open spec fn toll_from(
    living: Seq<CreatureV>,
    dead: Seq<CreatureV>,
    ctx: &ActionCtx,
    deaths: Deaths,
    report: TickReport,
) -> Toll {
    Toll {
        living,
        dead,
        structures: ctx.structures.items@,
        log: log_of(ctx.events@),
        by_cause: deaths.by_cause,
        total: deaths.total,
        report,
    }
}

fn lay_out(c: &mut Creature, cause: DeathCause, ctx: &mut ActionCtx, deaths: &mut Deaths, report: &mut TickReport)
    requires
        i64::MIN <= old(c)@.age(old(ctx).tick) <= i64::MAX,
    ensures
        final(c)@ == laid_out(old(c)@, cause, old(ctx).tick),
        final(ctx).structures.items@ == (match old(c).in_shelter {
            Some(id) => vacated(old(ctx).structures.items@, id),
            None => old(ctx).structures.items@,
        }),
        final(ctx).structures.next_id == old(ctx).structures.next_id,
        log_of(final(ctx).events@) == log_of(old(ctx).events@).push(obituary(old(c)@, cause, old(ctx).tick)),
        *final(ctx) == (ActionCtx {
            events: final(ctx).events,
            structures: final(ctx).structures,
            ..*old(ctx)
        }),
        *final(deaths) == (Deaths {
            by_cause: old(deaths).by_cause.raised(cause.slot() as int),
            total: swelled(old(deaths).total, 1),
        }),
        *final(report) == (TickReport { deaths: one_more(old(report).deaths), ..*old(report) }),
{
    let tick = ctx.tick;
    c.death_tick = Some(tick);
    c.death_cause = Some(cause);
    c.dirty = true;
    deaths.by_cause.raise(cause.slot());
    deaths.total = swell(deaths.total, 1);
    report.deaths = count_one(report.deaths);
    let e = Event::new(tick, EventKind::Died, c.id).at(c.x, c.y).with("cause", cause.as_str()).with_int(
        "age",
        c.age(tick),
    ).with_int("expected", c.lifespan_ticks.to_i64());
    say(&mut ctx.events, e);
    if let Some(id) = c.in_shelter {
        vacate(&mut ctx.structures, id);
        c.in_shelter = None;
    }
}

/// Takes the dead out of the living, recording each for the last time.
pub fn bury(
    creatures: &mut Vec<Creature>,
    dead: &mut Vec<Creature>,
    ctx: &mut ActionCtx,
    deaths: &mut Deaths,
    report: &mut TickReport,
)
    requires
        timely(old(ctx).tick as int),
        born_timely(people_of(old(creatures)@)),
    ensures
        toll_from(
            people_of(final(creatures)@),
            people_of(final(dead)@),
            final(ctx),
            *final(deaths),
            *final(report),
        ) == toll_of(
            toll_from(Seq::empty(), people_of(old(dead)@), old(ctx), *old(deaths), *old(report)),
            people_of(old(creatures)@),
            old(creatures)@.len(),
            old(ctx).tick,
        ),
        final(ctx).structures.next_id == old(ctx).structures.next_id,
        *final(ctx) == (ActionCtx {
            events: final(ctx).events,
            structures: final(ctx).structures,
            ..*old(ctx)
        }),
{
    let tick = ctx.tick;
    let ghost people = people_of(creatures@);
    let ghost start = toll_from(Seq::empty(), people_of(dead@), ctx, *deaths, *report);
    let mut all: Vec<Creature> = Vec::new();
    std::mem::swap(&mut all, creatures);
    assert(people_of(creatures@) == Seq::<CreatureV>::empty());
    let ghost rows = all@;
    for c in iter: all.into_iter()
        invariant
            iter.seq() == rows,
            people == people_of(rows),
            timely(tick as int),
            born_timely(people),
            tick == ctx.tick,
            *ctx == (ActionCtx { events: ctx.events, structures: ctx.structures, ..*old(ctx) }),
            ctx.structures.next_id == old(ctx).structures.next_id,
            toll_from(people_of(creatures@), people_of(dead@), ctx, *deaths, *report) == toll_of(
                start,
                people,
                iter.index() as nat,
                tick,
            ),
    {
        let ghost i = iter.index() as int;
        let mut c = c;
        assert(people[i] == c@);
        assert(timely(people[i].birth_tick as int));
        let ghost living0 = people_of(creatures@);
        let ghost dead0 = people_of(dead@);
        match fate(&c, tick) {
            None => {
                let ghost v = c@;
                creatures.push(c);
                assert(people_of(creatures@) == living0.push(v));
            },
            Some(cause) => {
                lay_out(&mut c, cause, ctx, deaths, report);
                let ghost v = c@;
                dead.push(c);
                assert(people_of(dead@) == dead0.push(v));
            },
        }
    }
}

/// The dead leave the living, and nobody else does: those who outlive the tick
/// stay, in order, and everybody else is among the dead.
pub proof fn law_only_the_dead_leave(t: Toll, people: Seq<CreatureV>, n: nat, tick: i64)
    requires
        n <= people.len(),
    ensures
        toll_of(t, people, n, tick).living == t.living + people.take(n as int).filter(outlives(tick)),
        toll_of(t, people, n, tick).dead.len() == t.dead.len() + n - people.take(n as int).filter(
            outlives(tick),
        ).len(),
    decreases n,
{
    let p = outlives(tick);
    if n == 0 {
        lemma_filter_start(people, p);
        assert(t.living + Seq::<CreatureV>::empty() == t.living);
    } else {
        law_only_the_dead_leave(t, people, (n - 1) as nat, tick);
        lemma_filter_step(people, p, n - 1);
        let kept = people.take(n - 1).filter(p);
        assert((t.living + kept).push(people[n - 1]) == t.living + kept.push(people[n - 1]));
    }
}

/// Nobody in whom there is life dies of anything but age.
pub proof fn law_only_age_takes_the_well(c: CreatureV, tick: i64)
    requires
        !c.health.le(num(NOTHING)),
    ensures
        fate_of(c, tick) is None || fate_of(c, tick) == Some(DeathCause::OldAge),
{
}

/// Every death is told, in order, and its cause is always recorded.
pub proof fn law_every_death_is_told(t: Toll, people: Seq<CreatureV>, n: nat, tick: i64)
    requires
        n <= people.len(),
    ensures
        ({
            let r = toll_of(t, people, n, tick);
            &&& r.dead.len() >= t.dead.len()
            &&& r.log.len() == t.log.len() + (r.dead.len() - t.dead.len())
            &&& forall|k: int| 0 <= k < t.log.len() ==> #[trigger] r.log[k] == t.log[k]
            &&& forall|k: int|
                t.dead.len() <= k < r.dead.len() ==> {
                    let e = r.log[k - t.dead.len() + t.log.len()];
                    e.kind == EventKind::Died && e.actor_id == Some((#[trigger] r.dead[k]).id)
                        && r.dead[k].death_cause is Some && r.dead[k].death_tick == Some(tick)
                }
        }),
    decreases n,
{
    if n > 0 {
        law_every_death_is_told(t, people, (n - 1) as nat, tick);
        let before = toll_of(t, people, (n - 1) as nat, tick);
        let r = toll_of(t, people, n, tick);
        assert forall|k: int| t.dead.len() <= k < r.dead.len() implies {
            let e = r.log[k - t.dead.len() + t.log.len()];
            e.kind == EventKind::Died && e.actor_id == Some((#[trigger] r.dead[k]).id)
                && r.dead[k].death_cause is Some && r.dead[k].death_tick == Some(tick)
        } by {
            if k < before.dead.len() {
                assert(before.dead[k] == r.dead[k]);
                assert(before.log[k - t.dead.len() + t.log.len()] == r.log[k - t.dead.len() + t.log.len()]);
            }
        }
    }
}

/// Everybody in a tally.
pub open spec fn counted(tally: Tally) -> int {
    tally.slot0 + tally.slot1 + tally.slot2 + tally.slot3 + tally.slot4 + tally.slot5 + tally.slot6
}

/// The dead are counted once, under one cause, for as long as there are numbers to
/// count them with.
pub proof fn law_the_causes_add_up(t: Toll, people: Seq<CreatureV>, n: nat, tick: i64)
    requires
        n <= people.len(),
        counted(t.by_cause) == t.total,
        t.total + n <= u32::MAX,
    ensures
        counted(toll_of(t, people, n, tick).by_cause) == toll_of(t, people, n, tick).total,
        toll_of(t, people, n, tick).total <= t.total + n,
    decreases n,
{
    if n > 0 {
        law_the_causes_add_up(t, people, (n - 1) as nat, tick);
    }
}

/// Who dies, and of what. Age takes whoever has worn through their span, and nobody
/// else; of the rest, whoever has no health left dies, of the injury or illness of
/// the last forty-eight ticks if there was one, and otherwise of a want: of cold if
/// warmth was lowest, of thirst if that was, of hunger if neither was below it. All
/// others live.
pub proof fn law_who_dies_of_what(c: CreatureV, tick: i64)
    ensures
        ({
            let fate = fate_of(c, tick);
            let worn_out = c.lifespan_ticks.le(of_int(tick - c.birth_tick) + c.wear);
            let spent = !worn_out && c.health.le(num(0));
            let hurt = c.trauma matches Some(t) && tick - t.1 <= 48;
            &&& fate == Some(DeathCause::OldAge) <== worn_out
            &&& fate is None <==> !worn_out && !c.health.le(num(0))
            &&& spent && hurt ==> fate == Some((c.trauma->0).0)
            &&& spent && !hurt && c.warmth.lt(c.hunger) && c.warmth.lt(c.thirst) ==> fate == Some(DeathCause::Exposure)
            &&& spent && !hurt && c.thirst.lt(c.hunger) && !c.warmth.lt(c.thirst) ==> fate == Some(
                DeathCause::Dehydration,
            )
            &&& spent && !hurt && !c.thirst.lt(c.hunger) && !c.warmth.lt(c.hunger) ==> fate == Some(
                DeathCause::Starvation,
            )
        }),
{
}

/// Of each creature in turn, the living go on as they are; of the dead it is written
/// down when and of what they died, and nothing else of them changes, they are
/// counted under their cause and under no other, and their place under a roof is
/// free again.
pub proof fn law_the_dead_are_laid_out(t: Toll, people: Seq<CreatureV>, n: nat, tick: i64)
    requires
        0 < n <= people.len(),
    ensures
        ({
            let before = toll_of(t, people, (n - 1) as nat, tick);
            let after = toll_of(t, people, n, tick);
            let c = people[n - 1];
            let fate = fate_of(c, tick);
            &&& fate is None ==> after == (Toll { living: before.living.push(c), ..before })
            &&& fate is Some ==> {
                let cause = fate->0;
                &&& after.living == before.living
                &&& after.dead == before.dead.push(
                    CreatureV {
                        death_tick: Some(tick),
                        death_cause: fate,
                        in_shelter: None,
                        dirty: true,
                        ..c
                    },
                )
                &&& forall|k: DeathCause|
                    #![trigger after.by_cause.at(k.slot() as int)]
                    after.by_cause.at(k.slot() as int) == if k == cause {
                        one_more(before.by_cause.at(k.slot() as int))
                    } else {
                        before.by_cause.at(k.slot() as int)
                    }
                &&& after.report == (TickReport { deaths: one_more(before.report.deaths), ..before.report })
                &&& after.structures == match c.in_shelter {
                    Some(id) => vacated(before.structures, id),
                    None => before.structures,
                }
                &&& after.log.len() == before.log.len() + 1
                &&& after.log.last().kind == EventKind::Died && after.log.last().actor_id == Some(c.id)
                &&& after.log.last().x == Some(c.x) && after.log.last().y == Some(c.y)
            }
        }),
{
}

} // verus!
