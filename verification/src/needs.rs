//! Needs decay every tick, and health integrates sustained deficit.

use crate::actions::ActionCtx;
use crate::chance::{chacha_word, law_draws_are_below_one, Stream, Tape};
use crate::config::WorldConfig;
use crate::creature::{people_of, Creature, CreatureV, DeathCause, LifeStage};
use crate::economy::{
    dist2, hour_of, is_night, law_nearest_is_nearest, nearest_where, square_of, structure_at, Structure, Structures,
};
use crate::event::{event_of, log_of, Event, EventKind, EventV};
use crate::lists::{lemma_first_where, lemma_first_where_is};
use crate::num::{
    law_a_loss_shows, law_a_share_is_finite, law_a_share_is_no_more, law_a_share_of_something_is_finite,
    law_adding_leaves_no_less, law_less_can_be_taken, law_more_times_is_no_less, law_no_product_is_negative,
    law_nothing_changes_nothing, law_once_is_itself, law_products_commute, law_taking_leaves_no_more, law_what_is_left_is_a_share, lemma_negated_nan,
    lemma_signed, lemma_sum_at_most, lemma_units_monotone, num, of_int, product_of, sum_of, Num, FULL, INF_BITS, NOTHING,
    ONE,
};
use crate::records::{count_one, one_more};
use vstd::arithmetic::power2::*;
use vstd::prelude::*;

verus! {

/// 2.0
pub const TWO: u32 = 0x4000_0000;

/// 1.1: daylight warms, but by less than the night takes. A creature that never
/// finds a roof or lights a fire cools over days rather than recovering each
/// morning.
pub const DAYLIGHT: u32 = 0x3F8C_CCCD;

/// 1.35: thirst bites hardest.
pub const THIRST_WEIGHT: u32 = 0x3FAC_CCCD;

/// 1.1
pub const COLD_WEIGHT: u32 = 0x3F8C_CCCD;

/// 24.0
pub const LEAST_LIFESPAN: u32 = 0x41C0_0000;

/// 60.0
pub const COMFORT: u32 = 0x4270_0000;

/// 45.0
pub const WEAK: u32 = 0x4234_0000;

/// 14.0
pub const LEAST_ILLNESS: u32 = 0x4160_0000;

/// 40.0
pub const ILLNESS_SPAN: u32 = 0x4220_0000;

/// A moment far enough from the ends of time that differences can be taken.
pub open spec fn timely(t: int) -> bool {
    -0x4000_0000_0000_0000 < t < 0x4000_0000_0000_0000
}

/// Every creature was born at such a moment.
pub open spec fn born_timely(people: Seq<CreatureV>) -> bool {
    forall|i: int| 0 <= i < people.len() ==> timely((#[trigger] people[i]).birth_tick as int)
}

/// A population with one creature changed.
pub proof fn lemma_people_update(creatures: Seq<Creature>, i: int, c: Creature)
    requires
        0 <= i < creatures.len(),
    ensures
        people_of(creatures.update(i, c)) == people_of(creatures).update(i, c@),
{
    assert(people_of(creatures.update(i, c)) =~= people_of(creatures).update(i, c@));
}

/// The roof a creature is under, if it still keeps the cold out.
pub open spec fn roof_of(c: CreatureV, structures: Seq<Structure>) -> Option<Structure> {
    match c.in_shelter {
        Some(id) => {
            let i = structure_at(structures, id);
            if i < structures.len() && structures[i].shelters() {
                Some(structures[i])
            } else {
                None
            }
        },
        None => None,
    }
}

pub open spec fn is_warmed(c: CreatureV, structures: Seq<Structure>, cfg: &WorldConfig, tick: i64) -> bool {
    nearest_where(
        structures,
        |s: Structure| s.is_lit(tick),
        c.x,
        c.y,
        square_of(cfg.actions.fire_warmth_radius),
    ) is Some
}

/// Warmth from a roof, a fire or the day, or lost to the night, and how many
/// ticks of this night were spent without either.
pub open spec fn warmed(c: CreatureV, structures: Seq<Structure>, cfg: &WorldConfig, tick: i64) -> CreatureV {
    let a = cfg.actions;
    let lit = is_warmed(c, structures, cfg, tick);
    let d = CreatureV { at_fire: lit, ..c };
    match roof_of(c, structures) {
        Some(s) => CreatureV {
            warmth: (c.warmth + a.shelter_warmth * s.condition).min(num(FULL)),
            exposed_ticks: 0,
            ..d
        },
        None => if lit {
            CreatureV { warmth: (c.warmth + a.fire_warmth).min(num(FULL)), exposed_ticks: 0, ..d }
        } else if is_night(tick, cfg) {
            CreatureV {
                warmth: (c.warmth - cfg.needs.warmth_decay_night).max(num(NOTHING)),
                exposed_ticks: one_more(c.exposed_ticks),
                ..d
            }
        } else {
            CreatureV { warmth: (c.warmth + num(DAYLIGHT)).min(num(FULL)), ..d }
        },
    }
}

/// What one need in deficit adds to the erosion of health.
pub open spec fn eroding_spec(erosion: Num, v: Num, weight: Num, threshold: Num) -> Num {
    if v.lt(threshold) {
        erosion + weight * ((threshold - v) / threshold)
    } else {
        erosion
    }
}

#[verifier::when_used_as_spec(eroding_spec)]
pub fn eroding(erosion: Num, v: Num, weight: Num, threshold: Num) -> (r: Num)
    ensures
        r == eroding_spec(erosion, v, weight, threshold),
{
    if v.lt(threshold) {
        erosion + weight * ((threshold - v) / threshold)
    } else {
        erosion
    }
}

pub open spec fn erosion_of(c: CreatureV, threshold: Num) -> Num {
    eroding(
        eroding(
            eroding(num(NOTHING), c.hunger, num(ONE), threshold),
            c.thirst,
            num(THIRST_WEIGHT),
            threshold,
        ),
        c.warmth,
        num(COLD_WEIGHT),
        threshold,
    )
}

/// Health worn down by deficit, or mending where there is none and the creature
/// is not spent.
pub open spec fn worn(c: CreatureV, cfg: &WorldConfig) -> CreatureV {
    let n = cfg.needs;
    let erosion = erosion_of(c, n.deficit_threshold);
    let health = if erosion.gt(num(NOTHING)) {
        (c.health - n.health_erosion_per_tick * erosion).max(num(NOTHING))
    } else if c.fatigue.gt(n.deficit_threshold) {
        (c.health + n.health_regen_per_tick).min(num(FULL))
    } else {
        c.health
    };
    // Sustained malnutrition accelerates ageing.
    let wear = if c.hunger.lt(n.deficit_threshold) {
        c.wear + (cfg.lifespan.malnutrition_aging_multiplier - num(ONE)) * ((n.deficit_threshold - c.hunger)
            / n.deficit_threshold)
    } else {
        c.wear
    };
    CreatureV { health, wear, ..c }
}

/// What one tick does to a creature's needs.
pub open spec fn decayed(c: CreatureV, structures: Seq<Structure>, cfg: &WorldConfig, tick: i64) -> CreatureV {
    let n = cfg.needs;
    let hungry = CreatureV {
        hunger: (c.hunger - n.hunger_decay_per_tick).max(num(NOTHING)),
        thirst: (c.thirst - n.thirst_decay_per_tick).max(num(NOTHING)),
        fatigue: (c.fatigue - n.fatigue_decay_per_tick).max(num(NOTHING)),
        ..c
    };
    CreatureV {
        life_stage: LifeStage::of(c.age(tick) as i64, &cfg.lifespan),
        dirty: true,
        ..worn(warmed(hungry, structures, cfg, tick), cfg)
    }
}

fn decay(c: &mut Creature, structures: &Structures, cfg: &WorldConfig, tick: i64)
    requires
        timely(tick as int),
        timely(old(c).birth_tick as int),
    ensures
        final(c)@ == decayed(old(c)@, structures.items@, cfg, tick),
{
    let n = &cfg.needs;
    let a = &cfg.actions;
    c.hunger = (c.hunger - n.hunger_decay_per_tick).max(num(NOTHING));
    c.thirst = (c.thirst - n.thirst_decay_per_tick).max(num(NOTHING));
    c.fatigue = (c.fatigue - n.fatigue_decay_per_tick).max(num(NOTHING));

    let roof: Option<Num> = match c.in_shelter {
        Some(id) => match structures.get(id) {
            Some(s) => if s.shelters() {
                Some(s.condition)
            } else {
                None
            },
            None => None,
        },
        None => None,
    };
    let lit = structures.fire_near(c.x, c.y, a.fire_warmth_radius, tick).is_some();
    c.at_fire = lit;
    if let Some(condition) = roof {
        c.warmth = (c.warmth + a.shelter_warmth * condition).min(num(FULL));
        c.exposed_ticks = 0;
    } else if lit {
        c.warmth = (c.warmth + a.fire_warmth).min(num(FULL));
        c.exposed_ticks = 0;
    } else if is_night(tick, cfg) {
        c.warmth = (c.warmth - n.warmth_decay_night).max(num(NOTHING));
        c.exposed_ticks = count_one(c.exposed_ticks);
    } else {
        c.warmth = (c.warmth + num(DAYLIGHT)).min(num(FULL));
    }

    let threshold = n.deficit_threshold;
    let mut erosion = eroding(num(NOTHING), c.hunger, num(ONE), threshold);
    erosion = eroding(erosion, c.thirst, num(THIRST_WEIGHT), threshold);
    erosion = eroding(erosion, c.warmth, num(COLD_WEIGHT), threshold);
    if erosion.gt(num(NOTHING)) {
        c.health = (c.health - n.health_erosion_per_tick * erosion).max(num(NOTHING));
    } else if c.fatigue.gt(threshold) {
        c.health = (c.health + n.health_regen_per_tick).min(num(FULL));
    }
    if c.hunger.lt(threshold) {
        let depth = (threshold - c.hunger) / threshold;
        c.wear = c.wear + (cfg.lifespan.malnutrition_aging_multiplier - num(ONE)) * depth;
    }
    c.life_stage = LifeStage::of(c.age(tick), &cfg.lifespan);
    c.dirty = true;
}

/// Ticks of a night spent in the open that make it an exposed one.
pub open spec fn exposed_from(cfg: &WorldConfig) -> int {
    let half = (24 + cfg.actions.night_end_hour - cfg.actions.night_start_hour) % 24 / 2;
    if half > 1 {
        half
    } else {
        1
    }
}

/// At dawn, settling up for the night just past: one spent with neither roof nor
/// fire permanently shaves expected lifespan, and a good one extends it.
pub open spec fn dawned(c: CreatureV, cfg: &WorldConfig) -> CreatureV {
    let l = cfg.lifespan;
    let span = if c.exposed_ticks >= exposed_from(cfg) {
        (c.lifespan_ticks - l.unsheltered_night_penalty_ticks).max(num(LEAST_LIFESPAN))
    } else if c.hunger.gt(num(COMFORT)) && c.thirst.gt(num(COMFORT)) && c.warmth.gt(num(COMFORT)) {
        (c.lifespan_ticks + num(TWO)).min(of_int(l.ceiling_ticks as int))
    } else {
        c.lifespan_ticks
    };
    CreatureV { lifespan_ticks: span, exposed_ticks: 0, ..c }
}

/// Who spent the night in the open, in order.
pub open spec fn exposures(people: Seq<CreatureV>, cfg: &WorldConfig, tick: i64) -> Seq<EventV>
    decreases people.len(),
{
    if people.len() == 0 {
        Seq::empty()
    } else {
        let before = exposures(people.drop_last(), cfg, tick);
        let c = people.last();
        if c.exposed_ticks >= exposed_from(cfg) {
            before.push(
                event_of(tick, EventKind::ExposedNight, c.id).at(c.x, c.y).with_int(
                    "ticks"@,
                    c.exposed_ticks as int,
                ),
            )
        } else {
            before
        }
    }
}

/// Rare illness, and much less rare when already weak: the creature, what is
/// said of it, and the stream after.
pub open spec fn sickened(c: CreatureV, cfg: &WorldConfig, tick: i64, rng: Stream) -> (CreatureV, Option<EventV>, Stream) {
    let h = cfg.hazards;
    let chance = h.illness_per_tick * if c.health.lt(num(WEAK)) {
        h.illness_low_health_multiplier
    } else {
        num(ONE)
    };
    let after = rng.stepped();
    if rng.unit_here().lt(chance) {
        let severity = num(LEAST_ILLNESS) + after.unit_here() * num(ILLNESS_SPAN);
        (
            CreatureV {
                health: (c.health - severity).max(num(NOTHING)),
                trauma: Some((DeathCause::Illness, tick)),
                ..c
            },
            Some(event_of(tick, EventKind::FellIll, c.id).at(c.x, c.y).with_num("severity"@, severity)),
            after.stepped(),
        )
    } else {
        (c, None, after)
    }
}

/// The log with an event that may have happened.
pub open spec fn told(log: Seq<EventV>, e: Option<EventV>) -> Seq<EventV> {
    match e {
        Some(e) => log.push(e),
        None => log,
    }
}

/// Illness passing through the first `n` of a population.
pub open spec fn plagued(
    people: Seq<CreatureV>,
    n: nat,
    cfg: &WorldConfig,
    tick: i64,
    rng: Stream,
    log: Seq<EventV>,
) -> (Seq<CreatureV>, Seq<EventV>, Stream)
    decreases n,
{
    if n == 0 {
        (people, log, rng)
    } else {
        let (so_far, said, s) = plagued(people, (n - 1) as nat, cfg, tick, rng, log);
        let (c, e, t) = sickened(so_far[n - 1], cfg, tick, s);
        (so_far.update(n - 1, c), told(said, e), t)
    }
}

pub proof fn lemma_plagued(
    people: Seq<CreatureV>,
    n: nat,
    cfg: &WorldConfig,
    tick: i64,
    rng: Stream,
    log: Seq<EventV>,
)
    requires
        n <= people.len(),
    ensures
        plagued(people, n, cfg, tick, rng, log).0.len() == people.len(),
        forall|j: int| n <= j < people.len() ==> #[trigger] plagued(people, n, cfg, tick, rng, log).0[j] == people[j],
    decreases n,
{
    if n > 0 {
        lemma_plagued(people, (n - 1) as nat, cfg, tick, rng, log);
    }
}

/// The population, the log and the stream after the needs of a tick.
pub open spec fn needs_met(
    people: Seq<CreatureV>,
    structures: Seq<Structure>,
    cfg: &WorldConfig,
    tick: i64,
    rng: Stream,
    log: Seq<EventV>,
) -> (Seq<CreatureV>, Seq<EventV>, Stream) {
    let hungry = people.map_values(|c: CreatureV| decayed(c, structures, cfg, tick));
    let (risen, said) = if hour_of(tick) == cfg.actions.night_end_hour {
        (hungry.map_values(|c: CreatureV| dawned(c, cfg)), log + exposures(hungry, cfg, tick))
    } else {
        (hungry, log)
    };
    plagued(risen, people.len(), cfg, tick, rng, said)
}

/// Settles up with everybody for the night just past.
fn greet_dawn(creatures: &mut Vec<Creature>, cfg: &WorldConfig, tick: i64, events: &mut Vec<Event>)
    requires
        cfg.actions.night_start_hour <= 24 + cfg.actions.night_end_hour,
        24 + cfg.actions.night_end_hour <= u32::MAX,
    ensures
        people_of(final(creatures)@) == people_of(old(creatures)@).map_values(|c: CreatureV| dawned(c, cfg)),
        log_of(final(events)@) == log_of(old(events)@) + exposures(people_of(old(creatures)@), cfg, tick),
{
    let a = &cfg.actions;
    let l = &cfg.lifespan;
    let night_len = (24 + a.night_end_hour - a.night_start_hour) % 24;
    let threshold = if night_len / 2 > 1 {
        night_len / 2
    } else {
        1
    };
    let ghost start = people_of(creatures@);
    let ghost said = log_of(events@);
    let n: usize = creatures.len();
    assert(start.take(0) == Seq::<CreatureV>::empty());
    assert(said + exposures(start.take(0), cfg, tick) == said);
    for i in 0..n
        invariant
            n == creatures@.len() == start.len(),
            threshold == exposed_from(cfg),
            *l == cfg.lifespan,
            forall|j: int| 0 <= j < i ==> #[trigger] people_of(creatures@)[j] == dawned(start[j], cfg),
            forall|j: int| i <= j < n ==> #[trigger] people_of(creatures@)[j] == start[j],
            log_of(events@) == said + exposures(start.take(i as int), cfg, tick),
    {
        let ghost before = creatures@;
        let ghost told_before = exposures(start.take(i as int), cfg, tick);
        proof {
            assert(start.take(i + 1).drop_last() == start.take(i as int));
            assert(people_of(before)[i as int] == start[i as int]);
        }
        let c = &mut creatures[i];
        if c.exposed_ticks >= threshold {
            c.lifespan_ticks = (c.lifespan_ticks - l.unsheltered_night_penalty_ticks).max(num(LEAST_LIFESPAN));
            let e = Event::new(tick, EventKind::ExposedNight, c.id).at(c.x, c.y).with_int(
                "ticks",
                c.exposed_ticks as i64,
            );
            let ghost log0 = log_of(events@);
            events.push(e);
            assert(log_of(events@) == log0.push(e@));
            assert((said + told_before).push(e@) == said + told_before.push(e@));
        } else if c.hunger.gt(num(COMFORT)) && c.thirst.gt(num(COMFORT)) && c.warmth.gt(num(COMFORT)) {
            c.lifespan_ticks = (c.lifespan_ticks + num(TWO)).min(Num::from_u64(l.ceiling_ticks as u64));
        }
        c.exposed_ticks = 0;
        proof {
            lemma_people_update(before, i as int, creatures@[i as int]);
            assert(creatures@ == before.update(i as int, creatures@[i as int]));
        }
    }
    proof {
        assert(start.take(n as int) == start);
        assert(people_of(creatures@) == start.map_values(|c: CreatureV| dawned(c, cfg)));
    }
}

fn sicken(
    c: &mut Creature,
    cfg: &WorldConfig,
    tick: i64,
    rng: &mut Stream,
    tape: &mut Tape,
    events: &mut Vec<Event>,
)
    requires
        old(tape).wf(),
    ensures
        final(tape).wf(),
        ({
            let (after, e, s) = sickened(old(c)@, cfg, tick, *old(rng));
            &&& final(c)@ == after
            &&& log_of(final(events)@) == told(log_of(old(events)@), e)
            &&& *final(rng) == s
        }),
{
    let h = &cfg.hazards;
    let scale = if c.health.lt(num(WEAK)) {
        h.illness_low_health_multiplier
    } else {
        num(ONE)
    };
    let chance = h.illness_per_tick * scale;
    if rng.unit_from(tape).lt(chance) {
        let severity = num(LEAST_ILLNESS) + rng.unit_from(tape) * num(ILLNESS_SPAN);
        c.health = (c.health - severity).max(num(NOTHING));
        c.trauma = Some((DeathCause::Illness, tick));
        let e = Event::new(tick, EventKind::FellIll, c.id).at(c.x, c.y).with_num("severity", severity);
        events.push(e);
        assert(log_of(events@) == log_of(old(events)@).push(e@));
    }
}

/// Needs decay, health's response to sustained deficit, the reckoning at dawn,
/// and illness.
pub fn phase_needs(creatures: &mut Vec<Creature>, ctx: &mut ActionCtx)
    requires
        timely(old(ctx).tick as int),
        born_timely(people_of(old(creatures)@)),
        old(ctx).cfg.actions.night_start_hour <= 24 + old(ctx).cfg.actions.night_end_hour,
        24 + old(ctx).cfg.actions.night_end_hour <= u32::MAX,
    ensures
        (people_of(final(creatures)@), log_of(final(ctx).events@), final(ctx).rng) == needs_met(
            people_of(old(creatures)@),
            old(ctx).structures.items@,
            &old(ctx).cfg,
            old(ctx).tick,
            old(ctx).rng,
            log_of(old(ctx).events@),
        ),
        *final(ctx) == (ActionCtx { events: final(ctx).events, rng: final(ctx).rng, ..*old(ctx) }),
{
    let tick = ctx.tick;
    let ghost start = people_of(creatures@);
    let ghost cfg = ctx.cfg;
    let ghost shelters = ctx.structures.items@;
    let n: usize = creatures.len();
    for i in 0..n
        invariant
            n == creatures@.len() == start.len(),
            *ctx == *old(ctx),
            cfg == ctx.cfg,
            tick == ctx.tick,
            shelters == ctx.structures.items@,
            timely(tick as int),
            born_timely(start),
            forall|j: int| 0 <= j < i ==> #[trigger] people_of(creatures@)[j] == decayed(start[j], shelters, &cfg, tick),
            forall|j: int| i <= j < n ==> #[trigger] people_of(creatures@)[j] == start[j],
    {
        let ghost before = creatures@;
        proof {
            assert(people_of(before)[i as int] == start[i as int]);
            assert(timely(start[i as int].birth_tick as int));
        }
        decay(&mut creatures[i], &ctx.structures, &ctx.cfg, tick);
        proof {
            lemma_people_update(before, i as int, creatures@[i as int]);
            assert(creatures@ == before.update(i as int, creatures@[i as int]));
        }
    }
    let ghost hungry = start.map_values(|c: CreatureV| decayed(c, shelters, &cfg, tick));
    assert(people_of(creatures@) == hungry);
    if hour_of(tick) == ctx.cfg.actions.night_end_hour {
        greet_dawn(creatures, &ctx.cfg, tick, &mut ctx.events);
    }
    let ghost risen = people_of(creatures@);
    assert(risen.len() == hungry.len());
    let ghost said = log_of(ctx.events@);
    let ghost rng0 = ctx.rng;
    let mut tape = Tape::blank();
    for i in 0..n
        invariant
            tape.wf(),
            n == creatures@.len() == risen.len(),
            *ctx == (ActionCtx { events: ctx.events, rng: ctx.rng, ..*old(ctx) }),
            cfg == ctx.cfg,
            tick == ctx.tick,
            (people_of(creatures@), log_of(ctx.events@), ctx.rng) == plagued(risen, i as nat, &cfg, tick, rng0, said),
    {
        let ghost before = creatures@;
        proof {
            lemma_plagued(risen, i as nat, &cfg, tick, rng0, said);
        }
        sicken(&mut creatures[i], &ctx.cfg, tick, &mut ctx.rng, &mut tape, &mut ctx.events);
        proof {
            lemma_people_update(before, i as int, creatures@[i as int]);
            assert(creatures@ == before.update(i as int, creatures@[i as int]));
        }
    }
}

/// A need between nothing and full.
pub open spec fn in_bounds(v: Num) -> bool {
    num(NOTHING).within(v) && v.within(num(FULL))
}

pub open spec fn has_sane_needs(c: CreatureV) -> bool {
    &&& in_bounds(c.hunger)
    &&& in_bounds(c.thirst)
    &&& in_bounds(c.fatigue)
    &&& in_bounds(c.warmth)
    &&& in_bounds(c.health)
}

/// Rates that take or give, none of them backwards, and malnutrition that ages.
pub open spec fn has_sane_rates(cfg: &WorldConfig) -> bool {
    let n = cfg.needs;
    &&& num(NOTHING).within(n.hunger_decay_per_tick)
    &&& num(NOTHING).within(n.thirst_decay_per_tick)
    &&& num(NOTHING).within(n.fatigue_decay_per_tick)
    &&& num(NOTHING).within(n.warmth_decay_night)
    &&& num(NOTHING).within(n.health_erosion_per_tick)
    &&& num(NOTHING).within(n.health_regen_per_tick)
    &&& num(NOTHING).within(cfg.actions.shelter_warmth)
    &&& num(NOTHING).within(cfg.actions.fire_warmth)
    &&& num(ONE).within(cfg.lifespan.malnutrition_aging_multiplier)
}

/// Whether there is telling how much malnutrition wears: wear is a number, no
/// deficit is measured against an infinite threshold, and there is no ageing without
/// end of what never began to wear.
pub open spec fn can_wear(wear: Num, cfg: &WorldConfig) -> bool {
    let threshold = cfg.needs.deficit_threshold;
    &&& !wear.is_nan()
    &&& threshold.negative() || !threshold.is_infinite()
    &&& cfg.lifespan.malnutrition_aging_multiplier.finite() || wear.finite() || !wear.negative()
}

proof fn lemma_drained(v: Num, by: Num)
    requires
        in_bounds(v),
        by.is_nan() || num(NOTHING).within(by),
    ensures
        in_bounds((v - by).max(num(NOTHING))),
{
    if by.is_nan() {
        reveal(sum_of);
        lemma_negated_nan(by);
    } else {
        law_taking_leaves_no_more(v, by);
    }
}

proof fn lemma_filled(v: Num, by: Num)
    requires
        in_bounds(v),
        by.is_nan() || num(NOTHING).within(by),
    ensures
        in_bounds((v + by).min(num(FULL))),
{
    if by.is_nan() {
        reveal(sum_of);
    } else {
        law_adding_leaves_no_less(v, by);
    }
}

proof fn lemma_decayed_within(c: CreatureV, structures: Seq<Structure>, cfg: &WorldConfig, tick: i64)
    requires
        has_sane_needs(c),
        has_sane_rates(cfg),
    ensures
        has_sane_needs(decayed(c, structures, cfg, tick)),
        can_wear(c.wear, cfg) ==> c.wear.within(decayed(c, structures, cfg, tick).wear),
{
    let n = cfg.needs;
    lemma_drained(c.hunger, n.hunger_decay_per_tick);
    lemma_drained(c.thirst, n.thirst_decay_per_tick);
    lemma_drained(c.fatigue, n.fatigue_decay_per_tick);
    lemma_drained(c.warmth, n.warmth_decay_night);
    lemma_filled(c.warmth, cfg.actions.fire_warmth);
    lemma_filled(c.warmth, num(DAYLIGHT));
    if let Some(s) = roof_of(c, structures) {
        law_no_product_is_negative(cfg.actions.shelter_warmth, s.condition);
        lemma_filled(c.warmth, cfg.actions.shelter_warmth * s.condition);
    }
    let hungry = CreatureV {
        hunger: (c.hunger - n.hunger_decay_per_tick).max(num(NOTHING)),
        thirst: (c.thirst - n.thirst_decay_per_tick).max(num(NOTHING)),
        fatigue: (c.fatigue - n.fatigue_decay_per_tick).max(num(NOTHING)),
        ..c
    };
    let w = warmed(hungry, structures, cfg, tick);
    let erosion = erosion_of(w, n.deficit_threshold);
    if erosion.gt(num(NOTHING)) {
        law_no_product_is_negative(n.health_erosion_per_tick, erosion);
        lemma_drained(w.health, n.health_erosion_per_tick * erosion);
    }
    lemma_filled(w.health, n.health_regen_per_tick);
    if can_wear(c.wear, cfg) && w.hunger.lt(n.deficit_threshold) {
        let thr = n.deficit_threshold;
        let left = thr - w.hunger;
        let times = cfg.lifespan.malnutrition_aging_multiplier;
        let more = times - num(ONE);
        law_less_can_be_taken(thr, w.hunger);
        law_taking_leaves_no_more(thr, w.hunger);
        law_a_share_is_finite(left, thr);
        if times.finite() {
            law_less_can_be_taken(times, num(ONE));
            law_taking_leaves_no_more(times, num(ONE));
            law_a_share_of_something_is_finite(more, left / thr);
        } else {
            law_what_is_left_is_a_share(thr, w.hunger);
            reveal(sum_of);
            reveal(product_of);
            lemma_signed(true, num(ONE).mag());
            lemma_signed(false, INF_BITS as nat);
        }
        law_adding_leaves_no_less(c.wear, more * (left / thr));
    }
}

proof fn lemma_sickened_within(c: CreatureV, cfg: &WorldConfig, tick: i64, rng: Stream)
    requires
        has_sane_needs(c),
    ensures
        has_sane_needs(sickened(c, cfg, tick, rng).0),
{
    let u = rng.stepped().unit_here();
    law_draws_are_below_one(chacha_word(rng.stepped().seed, rng.stepped().pos));
    law_no_product_is_negative(u, num(ILLNESS_SPAN));
    law_adding_leaves_no_less(num(LEAST_ILLNESS), u * num(ILLNESS_SPAN));
    lemma_drained(c.health, num(LEAST_ILLNESS) + u * num(ILLNESS_SPAN));
}

/// A creature that differs at most in how it fares: who and where it is, what it
/// carries, knows and plans, and how old it looks are as they were.
pub open spec fn only_fares_otherwise(a: CreatureV, b: CreatureV) -> bool {
    a == (CreatureV {
        health: a.health,
        trauma: a.trauma,
        lifespan_ticks: a.lifespan_ticks,
        exposed_ticks: a.exposed_ticks,
        ..b
    })
}

proof fn lemma_plague_within(
    people: Seq<CreatureV>,
    n: nat,
    cfg: &WorldConfig,
    tick: i64,
    rng: Stream,
    log: Seq<EventV>,
    i: int,
)
    requires
        n <= people.len(),
        0 <= i < people.len(),
        has_sane_needs(people[i]),
    ensures
        plagued(people, n, cfg, tick, rng, log).0.len() == people.len(),
        has_sane_needs(plagued(people, n, cfg, tick, rng, log).0[i]),
        only_fares_otherwise(plagued(people, n, cfg, tick, rng, log).0[i], people[i]),
    decreases n,
{
    if n > 0 {
        lemma_plague_within(people, (n - 1) as nat, cfg, tick, rng, log, i);
        let (so_far, said, s) = plagued(people, (n - 1) as nat, cfg, tick, rng, log);
        if i == n - 1 {
            lemma_sickened_within(so_far[i], cfg, tick, s);
        }
    }
}

/// Needs stay needs: whoever comes into a tick with all five between nothing and
/// full comes out of it so. Hunger, thirst and fatigue fall by their rates and not
/// below nothing, nobody wears less, the stage of life follows from age, and nobody
/// is added, removed, moved, robbed, taught or given a plan, even at the end of
/// their health.
pub proof fn law_needs_stay_within_bounds(
    people: Seq<CreatureV>,
    structures: Seq<Structure>,
    cfg: &WorldConfig,
    tick: i64,
    rng: Stream,
    log: Seq<EventV>,
    i: int,
)
    requires
        0 <= i < people.len(),
        has_sane_needs(people[i]),
        has_sane_rates(cfg),
    ensures
        ({
            let all = needs_met(people, structures, cfg, tick, rng, log).0;
            let (a, b) = (people[i], all[i]);
            &&& all.len() == people.len()
            &&& has_sane_needs(b)
            &&& b.hunger == (a.hunger - cfg.needs.hunger_decay_per_tick).max(num(NOTHING))
            &&& b.thirst == (a.thirst - cfg.needs.thirst_decay_per_tick).max(num(NOTHING))
            &&& b.fatigue == (a.fatigue - cfg.needs.fatigue_decay_per_tick).max(num(NOTHING))
            &&& can_wear(a.wear, cfg) ==> a.wear.within(b.wear)
            &&& b.life_stage == LifeStage::of(a.age(tick) as i64, &cfg.lifespan)
            &&& b.id == a.id
            &&& b.x == a.x && b.y == a.y
            &&& b.pack == a.pack
            &&& b.beliefs == a.beliefs
            &&& b.plan == a.plan
        }),
{
    let hungry = people.map_values(|c: CreatureV| decayed(c, structures, cfg, tick));
    let (risen, said) = if hour_of(tick) == cfg.actions.night_end_hour {
        (hungry.map_values(|c: CreatureV| dawned(c, cfg)), log + exposures(hungry, cfg, tick))
    } else {
        (hungry, log)
    };
    lemma_decayed_within(people[i], structures, cfg, tick);
    assert(hungry[i] == decayed(people[i], structures, cfg, tick));
    assert(only_fares_otherwise(risen[i], hungry[i]));
    lemma_plague_within(risen, people.len(), cfg, tick, rng, said, i);
}

/// A want below the threshold costs something, and a finite amount: at least its
/// share of the threshold.
proof fn lemma_eroding(erosion: Num, v: Num, weight: Num, threshold: Num, most: Num, more: Num)
    requires
        in_bounds(v),
        threshold.finite(),
        erosion.finite(),
        !erosion.negative(),
        erosion.le(most),
        weight == num(ONE) || weight == num(THIRST_WEIGHT) || weight == num(COLD_WEIGHT),
        most == num(NOTHING) && more == num(TWO) || most == num(TWO) && more == num(0x4080_0000) || most == num(
            0x4080_0000,
        ) && more == num(0x40C0_0000),
    ensures
        eroding(erosion, v, weight, threshold).finite(),
        !eroding(erosion, v, weight, threshold).negative(),
        eroding(erosion, v, weight, threshold).le(more),
        erosion.le(eroding(erosion, v, weight, threshold)),
        v.lt(threshold) ==> {
            let share = (threshold - v) / threshold;
            &&& num(NOTHING).lt(share)
            &&& share.finite()
            &&& share.le(num(ONE))
            &&& share.le(eroding(erosion, v, weight, threshold))
        },
        !v.lt(threshold) ==> eroding(erosion, v, weight, threshold) == erosion,
{
    if v.lt(threshold) {
        let left = threshold - v;
        let share = left / threshold;
        law_less_can_be_taken(threshold, v);
        law_taking_leaves_no_more(threshold, v);
        law_a_share_is_finite(left, threshold);
        law_what_is_left_is_a_share(threshold, v);
        law_products_commute(weight, share);
        law_products_commute(num(ONE), share);
        law_once_is_itself(share);
        law_more_times_is_no_less(num(ONE), weight, share);
        law_a_share_is_no_more(weight, share);
        let cost = weight * share;
        lemma_units_monotone(cost, num(TWO));
        lemma_units_monotone(erosion, most);
        lemma_small_units();
        lemma_sum_at_most(erosion, cost, more);
        law_adding_leaves_no_less(erosion, cost);
        lemma_sums_commute(erosion, cost);
        law_adding_leaves_no_less(cost, erosion);
    }
}

/// Two, four and six, in the units in which values are counted.
proof fn lemma_small_units()
    ensures
        num(TWO).units() == 0x80_0000 * pow2(127),
        num(0x4080_0000).units() == 2 * num(TWO).units(),
        num(0x40C0_0000).units() == 3 * num(TWO).units(),
        num(NOTHING).units() == 0,
{
    lemma2_to64();
    lemma_pow2_adds(1, 127);
    assert(num(0x4080_0000).units() == 0x80_0000 * pow2(128));
    assert(num(0x40C0_0000).units() == 0xC0_0000 * pow2(128));
}

proof fn lemma_sums_commute(a: Num, b: Num)
    ensures
        a + b == b + a || (a.is_infinite() && b.is_infinite()),
{
    reveal(sum_of);
}

/// Being ill or hurt never makes anybody healthier.
proof fn lemma_plague_weakens(
    people: Seq<CreatureV>,
    n: nat,
    cfg: &WorldConfig,
    tick: i64,
    rng: Stream,
    log: Seq<EventV>,
    i: int,
)
    requires
        n <= people.len(),
        0 <= i < people.len(),
        has_sane_needs(people[i]),
    ensures
        plagued(people, n, cfg, tick, rng, log).0[i].health.le(people[i].health),
    decreases n,
{
    if n > 0 {
        lemma_plague_weakens(people, (n - 1) as nat, cfg, tick, rng, log, i);
        lemma_plague_within(people, (n - 1) as nat, cfg, tick, rng, log, i);
        let (so_far, said, s) = plagued(people, (n - 1) as nat, cfg, tick, rng, log);
        if i == n - 1 {
            let u = s.stepped().unit_here();
            law_draws_are_below_one(chacha_word(s.stepped().seed, s.stepped().pos));
            law_no_product_is_negative(u, num(ILLNESS_SPAN));
            law_adding_leaves_no_less(num(LEAST_ILLNESS), u * num(ILLNESS_SPAN));
            law_taking_leaves_no_more(so_far[i].health, num(LEAST_ILLNESS) + u * num(ILLNESS_SPAN));
        }
    }
}

/// Want wears health away, whichever want it is. Whoever comes out of a tick with
/// hunger, thirst or warmth below the threshold is no healthier for it, and less
/// healthy than before, or at the end of their health, as soon as what that one want
/// costs, its share of the threshold at the erosion rate, is as much as 2^-17, the
/// smallest step in which health up to a hundred is counted. Health rises only for
/// somebody with all three at the threshold or above, and rested.
pub proof fn law_any_want_wears_health_away(
    people: Seq<CreatureV>,
    structures: Seq<Structure>,
    cfg: &WorldConfig,
    tick: i64,
    rng: Stream,
    log: Seq<EventV>,
    i: int,
)
    requires
        0 <= i < people.len(),
        has_sane_needs(people[i]),
        has_sane_rates(cfg),
        cfg.needs.deficit_threshold.finite(),
        cfg.needs.health_erosion_per_tick.finite(),
    ensures
        ({
            let (a, b) = (people[i], needs_met(people, structures, cfg, tick, rng, log).0[i]);
            let n = cfg.needs;
            let t = n.deficit_threshold;
            let bites = |v: Num|
                v.lt(t) && num(0x3700_0000).le(n.health_erosion_per_tick * ((t - v) / t));
            &&& b.hunger.lt(t) ==> b.health.le(a.health)
            &&& b.thirst.lt(t) ==> b.health.le(a.health)
            &&& b.warmth.lt(t) ==> b.health.le(a.health)
            &&& bites(b.hunger) ==> b.health.lt(a.health) || b.health.le(num(0))
            &&& bites(b.thirst) ==> b.health.lt(a.health) || b.health.le(num(0))
            &&& bites(b.warmth) ==> b.health.lt(a.health) || b.health.le(num(0))
            &&& a.health.lt(b.health) ==> t.le(b.hunger) && t.le(b.thirst) && t.le(b.warmth) && t.lt(b.fatigue)
        }),
{
    let n = cfg.needs;
    let t = n.deficit_threshold;
    let hungry = people.map_values(|c: CreatureV| decayed(c, structures, cfg, tick));
    let (risen, said) = if hour_of(tick) == cfg.actions.night_end_hour {
        (hungry.map_values(|c: CreatureV| dawned(c, cfg)), log + exposures(hungry, cfg, tick))
    } else {
        (hungry, log)
    };
    let (a, b) = (people[i], needs_met(people, structures, cfg, tick, rng, log).0[i]);
    lemma_decayed_within(a, structures, cfg, tick);
    let d = decayed(a, structures, cfg, tick);
    assert(hungry[i] == d);
    assert(only_fares_otherwise(risen[i], d) && risen[i].health == d.health);
    lemma_plague_within(risen, people.len(), cfg, tick, rng, said, i);
    lemma_plague_weakens(risen, people.len(), cfg, tick, rng, said, i);
    lemma_worn(a, structures, cfg, tick);
}

/// What a tick of wants does to health, want by want.
proof fn lemma_worn(a: CreatureV, structures: Seq<Structure>, cfg: &WorldConfig, tick: i64)
    requires
        has_sane_needs(a),
        has_sane_rates(cfg),
        cfg.needs.deficit_threshold.finite(),
        cfg.needs.health_erosion_per_tick.finite(),
    ensures
        ({
            let b = decayed(a, structures, cfg, tick);
            let n = cfg.needs;
            let t = n.deficit_threshold;
            let bites = |v: Num|
                v.lt(t) && num(0x3700_0000).le(n.health_erosion_per_tick * ((t - v) / t));
            let wanting = b.hunger.lt(t) || b.thirst.lt(t) || b.warmth.lt(t);
            &&& wanting ==> b.health.le(a.health)
            &&& bites(b.hunger) || bites(b.thirst) || bites(b.warmth) ==> b.health.lt(a.health) || b.health.le(num(0))
            &&& !wanting && t.lt(b.fatigue) ==> b.health == (a.health + n.health_regen_per_tick).min(num(FULL))
            &&& !wanting && !t.lt(b.fatigue) ==> b.health == a.health
        }),
{
    lemma_decayed_within(a, structures, cfg, tick);
    let b = decayed(a, structures, cfg, tick);
    let n = cfg.needs;
    let t = n.deficit_threshold;
    let rate = n.health_erosion_per_tick;
    let e1 = eroding(num(NOTHING), b.hunger, num(ONE), t);
    let e2 = eroding(e1, b.thirst, num(THIRST_WEIGHT), t);
    let e3 = eroding(e2, b.warmth, num(COLD_WEIGHT), t);
    lemma_eroding(num(NOTHING), b.hunger, num(ONE), t, num(NOTHING), num(TWO));
    lemma_eroding(e1, b.thirst, num(THIRST_WEIGHT), t, num(TWO), num(0x4080_0000));
    lemma_eroding(e2, b.warmth, num(COLD_WEIGHT), t, num(0x4080_0000), num(0x40C0_0000));
    let cost = rate * e3;
    law_no_product_is_negative(rate, e3);
    if e3.gt(num(NOTHING)) {
        law_taking_leaves_no_more(a.health, cost);
        assert(b.health == (a.health - cost).max(num(NOTHING)));
        if num(0x3700_0000).le(cost) {
            if cost.finite() {
                law_a_loss_shows(a.health, cost);
            } else {
                reveal(sum_of);
                lemma_signed(true, cost.mag());
            }
        }
        assert forall|v: Num|
            (v == b.hunger || v == b.thirst || v == b.warmth) && v.lt(t) && num(0x3700_0000).le(
                #[trigger] (rate * ((t - v) / t)),
            ) implies num(0x3700_0000).le(cost) by {
            let share = (t - v) / t;
            law_products_commute(rate, share);
            law_products_commute(rate, e3);
            if !rate.negative() {
                law_more_times_is_no_less(share, e3, rate);
            } else {
                reveal(product_of);
            }
        }
    }
}

/// What warms and what chills. Under a sound roof warmth rises by what the shelter
/// gives in its condition, at a lit fire by what fires give, and in the open it rises
/// by day and falls by night at the rate for it, never above a hundred nor below
/// nothing. Only a night in the open counts as exposure, and roof and fire end it.
pub proof fn law_what_warms_and_what_chills(c: CreatureV, structures: Seq<Structure>, cfg: &WorldConfig, tick: i64)
    ensures
        ({
            let d = decayed(c, structures, cfg, tick);
            let a = cfg.actions;
            let full = num(0x42C8_0000);
            let roof = roof_of(c, structures);
            let fire = is_warmed(c, structures, cfg, tick);
            &&& roof matches Some(s) ==> d.warmth == (c.warmth + a.shelter_warmth * s.condition).min(full)
                && d.exposed_ticks == 0
            &&& roof is None && fire ==> d.warmth == (c.warmth + a.fire_warmth).min(full) && d.exposed_ticks == 0
            &&& roof is None && !fire && is_night(tick, cfg) ==> d.warmth == (c.warmth
                - cfg.needs.warmth_decay_night).max(num(0)) && d.exposed_ticks == one_more(c.exposed_ticks)
            &&& roof is None && !fire && !is_night(tick, cfg) ==> d.warmth == (c.warmth + num(0x3F8C_CCCD)).min(full)
                && d.exposed_ticks == c.exposed_ticks
            &&& d.at_fire == fire
        }),
{
}

/// Somebody has a roof over them exactly if they are in a shelter that stands and
/// has not fallen in; somebody is at a fire exactly if one that is lit is within the
/// reach of its warmth.
pub proof fn law_who_has_a_roof_or_a_fire(c: CreatureV, structures: Seq<Structure>, cfg: &WorldConfig, tick: i64, k: int)
    requires
        0 <= k < structures.len(),
        forall|i: int, j: int|
            0 <= i < j < structures.len() ==> (#[trigger] structures[i]).id != (#[trigger] structures[j]).id,
    ensures
        roof_of(c, structures) == Some(structures[k]) <==> c.in_shelter == Some(structures[k].id)
            && structures[k].shelters(),
        c.in_shelter is None ==> roof_of(c, structures) is None,
        structures[k].is_lit(tick) && dist2(structures[k].x, structures[k].y, c.x, c.y) <= square_of(
            cfg.actions.fire_warmth_radius,
        ) ==> is_warmed(c, structures, cfg, tick),
        is_warmed(c, structures, cfg, tick) ==> exists|j: int|
            0 <= j < structures.len() && (#[trigger] structures[j]).is_lit(tick) && dist2(
                structures[j].x,
                structures[j].y,
                c.x,
                c.y,
            ) <= square_of(cfg.actions.fire_warmth_radius),
{
    let lit = |s: Structure| s.is_lit(tick);
    let reach = square_of(cfg.actions.fire_warmth_radius);
    law_nearest_is_nearest(structures, lit, c.x, c.y, reach);
    if is_warmed(c, structures, cfg, tick) {
        let j = nearest_where(structures, lit, c.x, c.y, reach)->0;
        assert(lit(structures[j]));
    }
    assert(lit(structures[k]) == structures[k].is_lit(tick));
    if let Some(id) = c.in_shelter {
        let named = |t: Structure| t.id == id;
        lemma_first_where(structures, named);
        let i = structure_at(structures, id);
        if structures[k].id == id {
            assert forall|j: int| 0 <= j < k implies !named(#[trigger] structures[j]) by {
                assert(structures[j].id != structures[k].id);
            }
            lemma_first_where_is(structures, named, k);
        } else if i < structures.len() {
            assert(named(structures[i]));
            assert(structures[i].id != structures[k].id);
        }
    }
}

/// The reckoning at dawn: half a night or more in the open costs the penalty off the
/// span of a life, down to a day; a night without, in comfort, above sixty in food,
/// water and warmth, adds two ticks up to the ceiling; anything else leaves it. Then
/// the count of exposure starts over, and nothing else changes.
pub proof fn law_the_reckoning_at_dawn(c: CreatureV, cfg: &WorldConfig)
    ensures
        ({
            let d = dawned(c, cfg);
            let exposed = c.exposed_ticks >= exposed_from(cfg);
            let snug = num(0x4270_0000).lt(c.hunger) && num(0x4270_0000).lt(c.thirst) && num(0x4270_0000).lt(c.warmth);
            &&& d == (CreatureV { lifespan_ticks: d.lifespan_ticks, exposed_ticks: 0, ..c })
            &&& exposed ==> d.lifespan_ticks == (c.lifespan_ticks - cfg.lifespan.unsheltered_night_penalty_ticks).max(
                num(0x41C0_0000),
            )
            &&& !exposed && snug ==> d.lifespan_ticks == (c.lifespan_ticks + num(0x4000_0000)).min(
                of_int(cfg.lifespan.ceiling_ticks as int),
            )
            &&& !exposed && !snug ==> d.lifespan_ticks == c.lifespan_ticks
        }),
{
}

/// A night counts as spent in the open from half its hours on, and from one at least.
pub proof fn law_half_a_night_is_a_night(cfg: &WorldConfig)
    requires
        cfg.actions.night_start_hour < 24,
        cfg.actions.night_end_hour < 24,
    ensures
        ({
            let (s, e) = (cfg.actions.night_start_hour as int, cfg.actions.night_end_hour as int);
            let hours = if s <= e {
                e - s
            } else {
                e + 24 - s
            };
            &&& hours >= 2 ==> 2 * exposed_from(cfg) <= hours < 2 * exposed_from(cfg) + 2
            &&& hours < 2 ==> exposed_from(cfg) == 1
        }),
{
}

/// Illness is a matter of chance, and likelier for the weak: one draw against the
/// rate, times its multiplier below forty-five in health. Who is spared is as before;
/// who falls ill loses fourteen or more, down to nothing, and it is remembered as
/// illness of that tick and told.
pub proof fn law_illness_is_a_matter_of_chance(c: CreatureV, cfg: &WorldConfig, tick: i64, rng: Stream)
    ensures
        ({
            let (d, e, after) = sickened(c, cfg, tick, rng);
            let h = cfg.hazards;
            let chance = if c.health.lt(num(0x4234_0000)) {
                h.illness_per_tick * h.illness_low_health_multiplier
            } else {
                h.illness_per_tick * num(0x3F80_0000)
            };
            &&& !rng.unit_here().lt(chance) ==> d == c && e is None
            &&& rng.unit_here().lt(chance) ==> {
                let loss = num(0x4160_0000) + rng.stepped().unit_here() * num(0x4220_0000);
                &&& d == (CreatureV {
                    health: (c.health - loss).max(num(0)),
                    trauma: Some((DeathCause::Illness, tick)),
                    ..c
                })
                &&& num(0x4160_0000).le(loss)
                &&& (e matches Some(told) && told.kind == EventKind::FellIll && told.actor_id == Some(c.id))
            }
        }),
{
    let u = rng.stepped().unit_here();
    law_draws_are_below_one(chacha_word(rng.stepped().seed, rng.stepped().pos));
    law_no_product_is_negative(u, num(ILLNESS_SPAN));
    law_adding_leaves_no_less(num(LEAST_ILLNESS), u * num(ILLNESS_SPAN));
}

/// Hunger ages: whoever is below the threshold wears by the share that is missing,
/// times what malnutrition costs beyond the ordinary; whoever is not does not wear.
pub proof fn law_hunger_ages(c: CreatureV, structures: Seq<Structure>, cfg: &WorldConfig, tick: i64)
    ensures
        ({
            let d = decayed(c, structures, cfg, tick);
            let t = cfg.needs.deficit_threshold;
            &&& !d.hunger.lt(t) ==> d.wear == c.wear
            &&& d.hunger.lt(t) ==> d.wear == c.wear + (cfg.lifespan.malnutrition_aging_multiplier - num(0x3F80_0000)) * ((
            t - d.hunger) / t)
        }),
{
}

/// A night in the open is told, of each who spent one and of nobody else.
pub proof fn law_a_night_in_the_open_is_told(people: Seq<CreatureV>, c: CreatureV, cfg: &WorldConfig, tick: i64)
    ensures
        ({
            let (before, after) = (exposures(people, cfg, tick), exposures(people.push(c), cfg, tick));
            &&& c.exposed_ticks < exposed_from(cfg) ==> after == before
            &&& c.exposed_ticks >= exposed_from(cfg) ==> after.len() == before.len() + 1 && after.drop_last() == before
                && after.last().kind == EventKind::ExposedNight && after.last().actor_id == Some(c.id)
        }),
        exposures(Seq::empty(), cfg, tick).len() == 0,
{
    assert(people.push(c).drop_last() =~= people);
    assert(people.push(c).last() == c);
    if c.exposed_ticks >= exposed_from(cfg) {
        assert(exposures(people.push(c), cfg, tick).drop_last() =~= exposures(people, cfg, tick));
    }
}

/// Thirst bites hardest, then cold, then hunger: one want alone costs the erosion
/// rate times the share that is missing, 1.35 times over for thirst, 1.1 times for
/// cold and once for hunger.
pub proof fn law_thirst_bites_hardest(c: CreatureV, structures: Seq<Structure>, cfg: &WorldConfig, tick: i64)
    requires
        has_sane_needs(c),
        has_sane_rates(cfg),
        cfg.needs.deficit_threshold.finite(),
    ensures
        ({
            let d = decayed(c, structures, cfg, tick);
            let t = cfg.needs.deficit_threshold;
            let rate = cfg.needs.health_erosion_per_tick;
            let (hungry, thirsty, cold) = (d.hunger.lt(t), d.thirst.lt(t), d.warmth.lt(t));
            let left = |weight: Num, v: Num| (c.health - rate * (weight * ((t - v) / t))).max(num(0));
            &&& hungry && !thirsty && !cold ==> d.health == left(num(0x3F80_0000), d.hunger)
            &&& thirsty && !hungry && !cold ==> d.health == left(num(0x3FAC_CCCD), d.thirst)
            &&& cold && !hungry && !thirsty ==> d.health == left(num(0x3F8C_CCCD), d.warmth)
        }),
{
    lemma_decayed_within(c, structures, cfg, tick);
    let d = decayed(c, structures, cfg, tick);
    let t = cfg.needs.deficit_threshold;
    if d.hunger.lt(t) {
        lemma_one_want(d.hunger, num(ONE), t);
    }
    if d.thirst.lt(t) {
        lemma_one_want(d.thirst, num(THIRST_WEIGHT), t);
    }
    if d.warmth.lt(t) {
        lemma_one_want(d.warmth, num(COLD_WEIGHT), t);
    }
}

proof fn lemma_one_want(v: Num, weight: Num, t: Num)
    requires
        in_bounds(v),
        t.finite(),
        v.lt(t),
        weight == num(ONE) || weight == num(THIRST_WEIGHT) || weight == num(COLD_WEIGHT),
    ensures
        eroding(num(NOTHING), v, weight, t) == weight * ((t - v) / t),
        num(NOTHING).lt(weight * ((t - v) / t)),
{
    lemma_eroding(num(NOTHING), v, weight, t, num(NOTHING), num(TWO));
    let share = (t - v) / t;
    law_products_commute(weight, share);
    law_products_commute(num(ONE), share);
    law_once_is_itself(share);
    law_more_times_is_no_less(num(ONE), weight, share);
    law_a_share_is_no_more(weight, share);
    law_nothing_changes_nothing(weight * share, num(NOTHING));
    lemma_sums_commute(num(NOTHING), weight * share);
}

} // verus!
