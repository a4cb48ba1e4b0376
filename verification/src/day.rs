//! What a tick comes to, one part after the other: the world turns, wants are felt,
//! plans reviewed, work done, people met, and the dead laid to rest.

use crate::acting::{round_from, round_of, turn_of, Round};
use crate::actions::Setting;
use crate::birth::{Deviates, Labour};
use crate::chronicle::folded;
use crate::config::KnowledgeConfig;
use crate::course::{advanced, errand_of, fits, CourseV, Errand, News, Phase};
use crate::creature::{Batch, CreatureV, PlanV};
use crate::death::{law_only_the_dead_leave, outlives, toll_of, Toll};
use crate::economy::{is_ash, is_night, is_spoiled, regrown, weathered, Structure};
use crate::estates::{all_bequeathed, all_mourned, among_the_living, bereaved, closing_up, estates_settled, left_behind};
use crate::grid::GridV;
use crate::history::{
    acting, by_habit, closing, dawning, delivering, ending, feeling, meeting, opening, reviewing, Moment,
};
use crate::needs::{has_sane_needs, has_sane_rates, law_needs_stay_within_bounds};
use crate::num::{num, Num};
use crate::nursery::{missing, settled, Brood, Place};
use crate::pace::SpeedMode;
use crate::plans::{endings_in, flagged_in, reviewed};
use crate::records::{more_by, TickReport};
use crate::season::{law_everything_grows_and_wears, law_only_what_spoils_is_lost};
use crate::social::{clear_of, SocialIntent};
use crate::tick::census_held;
use crate::town::{intent_applied, intents_applied, Affair, TownV};
use crate::world::NodeKind;
use vstd::prelude::*;

verus! {

/// The tick after this one dawns: it is one later, it is night when its hour is, what
/// grows has grown, what stands has worn, what spoils is gone from packs and stores,
/// and the records of the last tick are put away. Nobody is moved or changed.
pub proof fn law_a_tick_dawns(m: Moment, k: int, b: Batch)
    requires
        m.tick < i64::MAX,
    ensures
        ({
            let (after, report) = dawning(m);
            &&& after.tick == m.tick + 1 && report.tick == m.tick + 1
            &&& after.night == is_night(after.tick, &m.cfg)
            &&& 0 <= k < m.nodes.len() && m.nodes[k].kind != NodeKind::Sheep ==> after.nodes[k] == regrown(m.nodes[k])
            &&& 0 <= k < m.structures.len() && !is_ash(m.structures[k], after.tick) ==> after.structures.contains(
                weathered(m.structures[k], &m.cfg, after.tick),
            )
            &&& after.town.people.len() == m.town.people.len()
            &&& 0 <= k < m.town.people.len() ==> {
                &&& after.town.people[k] == (CreatureV {
                    pack: after.town.people[k].pack,
                    dirty: after.town.people[k].dirty,
                    ..m.town.people[k]
                })
                &&& after.town.people[k].pack.contains(b) <==> m.town.people[k].pack.contains(b) && !is_spoiled(
                    b,
                    after.tick,
                    &m.cfg,
                )
            }
            &&& after.decisions.len() == 0 && after.outcomes.len() == 0 && after.town.sent.len() == 0
            &&& after.town.bonds == m.town.bonds && after.town.offers == m.town.offers
            &&& after.next_id == m.next_id && after.deaths == m.deaths && after.calls == m.calls
        }),
{
    reveal(dawning);
    let tick = (m.tick + 1) as i64;
    law_only_what_spoils_is_lost(m.dawn(), m.ground, &m.cfg, tick, k, b);
    law_everything_grows_and_wears(m.dawn(), m.ground, &m.cfg, tick, k);
}

/// A tick brings wants: everybody is that much hungrier, thirstier and more tired,
/// and is otherwise who and where they were. Nothing but the people changes.
pub proof fn law_a_tick_brings_wants(m: Moment, i: int)
    requires
        0 <= i < m.town.people.len(),
        has_sane_needs(m.town.people[i]),
        has_sane_rates(&m.cfg),
    ensures
        ({
            let after = feeling(m);
            let (a, b) = (m.town.people[i], after.town.people[i]);
            &&& after.town.people.len() == m.town.people.len()
            &&& b.hunger == (a.hunger - m.cfg.needs.hunger_decay_per_tick).max(num(0))
            &&& b.thirst == (a.thirst - m.cfg.needs.thirst_decay_per_tick).max(num(0))
            &&& b.fatigue == (a.fatigue - m.cfg.needs.fatigue_decay_per_tick).max(num(0))
            &&& b.id == a.id && b.x == a.x && b.y == a.y && b.pack == a.pack && b.plan == a.plan && b.beliefs == a.beliefs
            &&& has_sane_needs(b)
            &&& after == (Moment {
                town: TownV { people: after.town.people, ..m.town },
                log: after.log,
                rng: after.rng,
                ..m
            })
        }),
{
    reveal(feeling);
    law_needs_stay_within_bounds(m.town.people, m.structures, &m.cfg, m.tick, m.rng, m.log, i);
}

/// After the review of plans, those who have none are those who are to think again,
/// and everybody is as the review of their own plan left them.
pub proof fn law_the_review_flags_the_planless(m: Moment, report: TickReport, i: int)
    requires
        0 <= i < m.town.people.len() <= usize::MAX,
    ensures
        ({
            let (after, r) = reviewing(m, report);
            &&& after.town.people.len() == m.town.people.len()
            &&& after.town.people[i] == reviewed(m.town.people[i], m.cfg.needs.critical_threshold, m.tick).c
            &&& after.flagged.contains(i as usize) <==> after.town.people[i].plan is None
            &&& r == (TickReport { plans_abandoned: r.plans_abandoned, ..report })
            &&& after.nodes == m.nodes && after.structures == m.structures && after.rng == m.rng && after.log == m.log
        }),
{
    reveal(reviewing);
    lemma_flagged(m.town.people, m.town.people.len(), m.cfg.needs.critical_threshold, m.tick, i);
}

proof fn lemma_flagged(people: Seq<CreatureV>, n: nat, crit: Num, tick: i64, i: int)
    requires
        n <= people.len() <= usize::MAX,
        0 <= i < people.len(),
    ensures
        flagged_in(people, n, crit, tick).contains(i as usize) <==> i < n && reviewed(people[i], crit, tick).flagged,
    decreases n,
{
    if n > 0 {
        lemma_flagged(people, (n - 1) as nat, crit, tick, i);
        let before = flagged_in(people, (n - 1) as nat, crit, tick);
        let after = flagged_in(people, n, crit, tick);
        if before.contains(i as usize) {
            let k = before.index_of(i as usize);
            assert(after[k] == i as usize);
        }
        if reviewed(people[n - 1], crit, tick).flagged {
            assert(after[before.len() as int] == (n - 1) as usize);
            if after.contains(i as usize) && i != n - 1 {
                let k = after.index_of(i as usize);
                assert(before[k] == i as usize);
            }
        }
    }
}

/// A tick opens as its three parts do, one after the other.
pub proof fn law_a_tick_opens_in_order(m: Moment)
    ensures
        ({
            let (a, r) = dawning(m);
            let b = feeling(a);
            let (c, s) = reviewing(b, r);
            let (d, t) = opening(m);
            &&& d.town == c.town && d.log == c.log && d.rng == c.rng
            &&& d.nodes == c.nodes && d.structures == c.structures
            &&& d.flagged == c.flagged && d.outcomes == c.outcomes
            &&& d.tick == c.tick && d.night == c.night
            &&& t == s
        }),
{
    reveal(dawning);
    reveal(feeling);
    reveal(reviewing);
    reveal(opening);
    let (a, r) = dawning(m);
    let b = feeling(a);
    assert(a.outcomes + endings_in(
        b.town.people,
        b.town.people.len(),
        m.cfg.needs.critical_threshold,
        a.tick,
    ) =~= endings_in(b.town.people, b.town.people.len(), m.cfg.needs.critical_threshold, a.tick));
}

/// Whoever has no plan does nothing in a round of work, and nobody is changed by
/// another's turn.
pub proof fn law_the_planless_do_nothing(m: Moment, report: TickReport, i: int)
    requires
        0 <= i < m.town.people.len(),
        m.town.people[i].plan is None,
    ensures
        acting(m, report).0.town.people.len() == m.town.people.len(),
        acting(m, report).0.town.people[i] == m.town.people[i],
        acting(m, report).0.town.homes == m.town.homes,
        acting(m, report).0.town.bonds == m.town.bonds,
        acting(m, report).0.tick == m.tick,
{
    reveal(acting);
    let start = round_from(
        m.town.people,
        m.stage(),
        m.outcomes,
        report.plans_abandoned,
        report.discoveries,
        report.acted,
    );
    lemma_round(start, m.town.people.len(), m.setting(), m.sights, i);
}

proof fn lemma_round(start: Round, n: nat, s: Setting, index: GridV, i: int)
    requires
        n <= start.people.len(),
        0 <= i < start.people.len(),
    ensures
        round_of(start, n, s, index).people.len() == start.people.len(),
        start.people[i].plan is None || i >= n ==> round_of(start, n, s, index).people[i] == start.people[i],
    decreases n,
{
    if n > 0 {
        lemma_round(start, (n - 1) as nat, s, index, i);
        lemma_round(start, (n - 1) as nat, s, index, n - 1);
    }
}

/// Everybody with a plan works in the round, one after the other, each upon what the
/// one before left: one more in the round is one more turn, of theirs and of nobody
/// else.
pub proof fn law_turns_are_taken_in_order(start: Round, n: nat, s: Setting, index: GridV)
    requires
        n < start.people.len(),
        start.people[n as int].plan is Some,
    ensures
        ({
            let (before, after) = (round_of(start, n, s, index), round_of(start, n + 1, s, index));
            let t = turn_of(start.people[n as int], before.stage, s, index);
            &&& after.people == before.people.update(n as int, t.c)
            &&& after.stage == t.stage
            &&& after.gathered == before.gathered + t.gathered
            &&& after.eaten == before.eaten + t.eaten
            &&& before.acted < u32::MAX ==> after.acted == before.acted + 1
            &&& t.failed && before.abandoned < u32::MAX ==> after.abandoned == before.abandoned + 1
            &&& !t.failed ==> after.abandoned == before.abandoned
            &&& t.outcome matches Some(o) ==> after.outcomes == before.outcomes.push(o)
            &&& t.outcome is None ==> after.outcomes == before.outcomes
        }),
{
    lemma_round(start, n, s, index, n as int);
}

/// What people mean to do they do in the order they said it, one after the other,
/// and then it is done: no intent is left over.
pub proof fn law_intents_are_carried_out_in_order(
    a: Affair,
    intents: Seq<SocialIntent>,
    one: SocialIntent,
    k: &KnowledgeConfig,
    tick: i64,
    m: Moment,
    report: TickReport,
)
    ensures
        intents_applied(a, intents.push(one), intents.len() + 1, k, tick) == intent_applied(
            intents_applied(a, intents, intents.len(), k, tick),
            one,
            k,
            tick,
        ),
        intents_applied(a, Seq::empty(), 0, k, tick) == a,
        meeting(m, report).0.intents.len() == 0,
        meeting(m, report).0.tick == m.tick && meeting(m, report).0.nodes == m.nodes,
{
    reveal(meeting);
    lemma_same_intents(a, intents, intents.push(one), intents.len(), k, tick);
}

proof fn lemma_same_intents(
    a: Affair,
    x: Seq<SocialIntent>,
    y: Seq<SocialIntent>,
    n: nat,
    k: &KnowledgeConfig,
    tick: i64,
)
    requires
        n <= x.len(),
        n <= y.len(),
        forall|i: int| 0 <= i < n ==> x[i] == y[i],
    ensures
        intents_applied(a, x, n, k, tick) == intents_applied(a, y, n, k, tick),
    decreases n,
{
    if n > 0 {
        lemma_same_intents(a, x, y, (n - 1) as nat, k, tick);
    }
}

/// At the end of a tick the living are those whom nothing took: as many as that, and
/// the rest are among the dead, unless newcomers are brought in to keep up the number.
pub proof fn law_the_living_are_left(m: Moment, report: TickReport)
    requires
        m.cfg.bench.maintain_population is None,
    ensures
        ({
            let after = ending(m, report).0;
            let spared = m.town.people.filter(outlives(m.tick)).len();
            &&& after.town.people.len() == spared
            &&& after.dead.len() == m.dead.len() + (m.town.people.len() - spared)
            &&& after.tick == m.tick && after.next_id == m.next_id
        }),
{
    reveal(ending);
    let t0 = Toll {
        living: Seq::empty(),
        dead: m.dead,
        structures: m.structures,
        log: m.log,
        by_cause: m.deaths.by_cause,
        total: m.deaths.total,
        report,
    };
    let n = m.town.people.len();
    law_only_the_dead_leave(t0, m.town.people, n, m.tick);
    assert(m.town.people.take(n as int) =~= m.town.people);
    let t = toll_of(t0, m.town.people, n, m.tick);
    let a = Affair { town: TownV { people: t.living, ..m.town }, log: t.log, report: t.report };
    lemma_settling_keeps_count(a, t.structures, t.dead, m.tick);
    assert(t.living =~= m.town.people.filter(outlives(m.tick)));
}

proof fn lemma_settling_keeps_count(a: Affair, structures: Seq<Structure>, dead: Seq<CreatureV>, tick: i64)
    ensures
        estates_settled(a, structures, dead, tick).town.people.len() == a.town.people.len(),
{
    lemma_mourning_keeps_count(a, dead, dead.len(), tick);
    let b = all_mourned(a, dead, dead.len(), tick);
    let estates = left_behind(b.town.homes, b.town.people);
    let c = Affair {
        town: TownV {
            bonds: among_the_living(b.town.bonds, b.town.people),
            homes: b.town.homes.map_values(closing_up(b.town.people, tick)),
            ..b.town
        },
        ..b
    };
    lemma_bequests_move_nobody(c, structures, estates, estates.len(), tick);
}

proof fn lemma_mourning_keeps_count(a: Affair, dead: Seq<CreatureV>, n: nat, tick: i64)
    ensures
        all_mourned(a, dead, n, tick).town.people.len() == a.town.people.len(),
    decreases n,
{
    if n > 0 {
        lemma_mourning_keeps_count(a, dead, (n - 1) as nat, tick);
        let b = all_mourned(a, dead, (n - 1) as nat, tick);
        let id = dead[n - 1].id;
        let c = Affair { town: TownV { offers: b.town.offers.filter(clear_of(id)), ..b.town }, ..b };
        lemma_bereaving_keeps_count(c, c.town.people.len(), id, tick);
    }
}

proof fn lemma_bereaving_keeps_count(a: Affair, n: nat, id: i64, tick: i64)
    requires
        n <= a.town.people.len(),
    ensures
        bereaved(a, n, id, tick).town.people.len() == a.town.people.len(),
    decreases n,
{
    if n > 0 {
        lemma_bereaving_keeps_count(a, (n - 1) as nat, id, tick);
    }
}

proof fn lemma_bequests_move_nobody(
    a: Affair,
    structures: Seq<Structure>,
    estates: Seq<(i64, Seq<Batch>)>,
    n: nat,
    tick: i64,
)
    ensures
        all_bequeathed(a, structures, estates, n, tick).town.people == a.town.people,
    decreases n,
{
    if n > 0 {
        lemma_bequests_move_nobody(a, structures, estates, (n - 1) as nat, tick);
    }
}

/// Where a number is to be kept up, so many arrive as are missing, each told as
/// having settled, and are counted; where none is, or it is reached, nobody does.
pub proof fn law_the_number_is_kept_up(a: Affair, b: Brood, p: Place, hearth: (u32, u32), target: u32)
    ensures
        ({
            let (after, report) = census_held(a, b, p, hearth, Some(target));
            &&& after.people.len() >= target
            &&& b.people.len() >= target ==> after == b
            &&& b.people.len() < target ==> after.people.len() == target
            &&& forall|i: int| 0 <= i < b.people.len() ==> #[trigger] after.people[i] == b.people[i]
            &&& report == (TickReport {
                settlers: more_by(a.report.settlers, missing(b.people, target)),
                ..a.report
            })
        }),
        census_held(a, b, p, hearth, None) == (b, a.report),
{
    lemma_settled(b, p, hearth, missing(b.people, target));
}

proof fn lemma_settled(b: Brood, p: Place, hearth: (u32, u32), n: nat)
    ensures
        settled(b, p, hearth, n).people.len() == b.people.len() + n,
        forall|i: int| 0 <= i < b.people.len() ==> #[trigger] settled(b, p, hearth, n).people[i] == b.people[i],
    decreases n,
{
    if n > 0 {
        lemma_settled(b, p, hearth, (n - 1) as nat);
    }
}

/// A tick closes by counting who is left; nobody and nothing changes but the log,
/// which is folded.
pub proof fn law_a_tick_closes_with_a_count(m: Moment, report: TickReport)
    requires
        m.town.people.len() <= u32::MAX,
    ensures
        ({
            let (after, r) = closing(m, report);
            &&& r.population == m.town.people.len()
            &&& after == (Moment { log: after.log, ..m })
            &&& after.log == folded(m.log, m.tick)
            &&& r == (TickReport { population: r.population, mean_latency_ms: r.mean_latency_ms, ..report })
        }),
{
    reveal(closing);
}

/// A tick goes through its phases in order: the world, wants, plans, then answers if a
/// model is there to give any, habits, asking, and waiting only in the deepest mode
/// and while anything is out; then work, meeting, births, endings and the close. Each
/// phase that takes nothing from outside is done in one go.
pub proof fn law_the_phases_follow_one_another(c: CourseV, m: Moment, mode: SpeedMode, news: News)
    ensures
        ({
            let (d, n) = advanced(c, m, mode, news);
            &&& c.phase == Phase::World ==> d.phase == Phase::Needs && n == dawning(m).0 && d.report == dawning(m).1
            &&& c.phase == Phase::Needs ==> d.phase == Phase::Plans && n == feeling(m)
            &&& c.phase == Phase::Plans ==> n == reviewing(m, c.report).0 && d.phase == if c.model is Some {
                Phase::Answers
            } else {
                Phase::Habits
            }
            &&& c.phase == Phase::Answers && !(news is Answer) ==> d.phase == Phase::Habits && n == m
            &&& c.phase == Phase::Habits ==> d.phase == Phase::Habits || d.phase == Phase::Weighing || d.phase
                == Phase::Waiting || d.phase == Phase::Acting
            &&& c.phase == Phase::Habits && d.phase == Phase::Weighing ==> c.model is Some && m.cfg.features.llm && c.budget
                > 0
            &&& c.phase == Phase::Habits && d.phase != Phase::Habits ==> c.next >= m.flagged.len()
            &&& c.phase == Phase::Weighing && news is Weighed ==> d.phase == Phase::Asking && n == m && d.round.sent == 0
                && d.round.budget == c.budget && d.round.next == 0
            &&& d.phase == Phase::Waiting && c.phase != Phase::Waiting ==> c.model is Some && mode == SpeedMode::Deep
                && m.calls.len() > 0
            &&& c.phase == Phase::Acting ==> d.phase == Phase::Meeting && n == acting(m, c.report).0
            &&& c.phase == Phase::Meeting ==> d.phase == Phase::Bearing && n == meeting(m, c.report).0
            &&& c.phase == Phase::Bearing && c.next >= c.due.len() ==> d.phase == Phase::Ending && n == m
            &&& c.phase == Phase::Ending ==> d.phase == Phase::Closing && n == ending(m, c.report).0
            &&& c.phase == Phase::Closing ==> d.phase == Phase::Over && n == closing(m, c.report).0
            &&& c.phase == Phase::Over ==> d == c && n == m
        }),
{
    reveal(advanced);
}

/// What is wanted from outside is what the phase needs: a plan only for somebody
/// flagged who has none, a question only while the round goes on and about the one
/// whose turn it is, deviates only for a labour under way, and nothing at the end.
pub proof fn law_what_is_wanted_from_outside(c: CourseV, m: Moment)
    ensures
        match errand_of(c, m) {
            Errand::Decide(i) => c.phase == Phase::Habits && 0 <= i < m.town.people.len() && m.town.people[i as int].plan
                is None && c.next < m.flagged.len() && m.flagged[c.next] == i,
            Errand::Collect => c.phase == Phase::Answers,
            Errand::Weigh => c.phase == Phase::Weighing,
            Errand::Ask(k) => c.phase == Phase::Asking && c.round.sent < c.round.budget && c.round.next
                < c.round.order.len() && k == c.round.order[c.round.next],
            Errand::Await => c.phase == Phase::Waiting,
            Errand::Deliver(l) => c.phase == Phase::Labour && c.labour == Some(l),
            Errand::Rest => c.phase == Phase::Over || (c.phase == Phase::Labour && c.labour is None),
            Errand::Proceed => c.phase != Phase::Over && c.phase != Phase::Waiting && c.phase != Phase::Answers && c.phase
                != Phase::Weighing && c.phase != Phase::Labour,
        },
{
}

/// Only what was wanted is taken.
pub proof fn law_only_what_was_wanted_is_taken(i: usize, l: Labour, news: News)
    ensures
        fits(Errand::Proceed, news) <==> news is Go,
        fits(Errand::Decide(i), news) <==> news is Habit,
        fits(Errand::Weigh, news) <==> news is Weighed,
        fits(Errand::Ask(i), news) <==> news is Posted,
        fits(Errand::Deliver(l), news) <==> news is Born,
        fits(Errand::Collect, news) <==> news is Answer || news is NoAnswer,
        fits(Errand::Await, news) <==> news is Answer || news is NoAnswer || news is GivenUp,
        !fits(Errand::Rest, news),
{
}

/// A plan by habit is the plan of the one it was made for, and of nobody else.
pub proof fn law_a_habit_is_ones_own(m: Moment, report: TickReport, i: int, plan: PlanV, enabled: bool, k: int)
    requires
        0 <= i < m.town.people.len(),
        0 <= k < m.town.people.len(),
    ensures
        ({
            let (after, r) = by_habit(m, report, i, plan, enabled);
            &&& after.town.people.len() == m.town.people.len()
            &&& after.town.people[i].plan == Some(plan)
            &&& k != i ==> after.town.people[k] == m.town.people[k]
            &&& after.nodes == m.nodes && after.structures == m.structures && after.tick == m.tick
            &&& after.decisions.len() == m.decisions.len() + 1
        }),
{
}

/// A birth brings one more, told as born and still to be recorded, and takes nobody.
pub proof fn law_a_birth_brings_one_more(m: Moment, report: TickReport, l: Labour, z: Deviates)
    requires
        l.place < m.town.people.len(),
        m.next_id < i64::MAX,
    ensures
        ({
            let (after, r) = delivering(m, report, l, z);
            &&& after.town.people.len() == m.town.people.len() + 1
            &&& after.town.people.last().id == m.next_id
            &&& after.next_id == m.next_id + 1
            &&& after.newborn == m.newborn.push(m.next_id)
            &&& forall|k: int|
                0 <= k < m.town.people.len() && k != l.place ==> #[trigger] after.town.people[k] == m.town.people[k]
            &&& after.nodes == m.nodes && after.structures == m.structures && after.tick == m.tick
        }),
{
    reveal(delivering);
}

/// What the round of work came to is what is reported: what was gathered as gathered,
/// what was eaten as eaten, and who acted, found and gave up.
pub proof fn law_the_round_is_reported(m: Moment, report: TickReport)
    ensures
        ({
            let (after, r) = acting(m, report);
            let round = round_of(
                round_from(
                    m.town.people,
                    m.stage(),
                    m.outcomes,
                    report.plans_abandoned,
                    report.discoveries,
                    report.acted,
                ),
                m.town.people.len(),
                m.setting(),
                m.sights,
            );
            &&& r.food_gathered == round.gathered && r.food_eaten == round.eaten
            &&& r.acted == round.acted && r.discoveries == round.discoveries && r.plans_abandoned == round.abandoned
            &&& after.nodes == round.stage.nodes && after.structures == round.stage.structures
            &&& after.town.people == round.people && after.outcomes == round.outcomes
        }),
{
    reveal(acting);
}

/// The dead are counted: so many more have died as have joined the dead.
pub proof fn law_the_dead_are_counted(m: Moment, report: TickReport)
    requires
        m.deaths.total + m.town.people.len() <= u64::MAX,
    ensures
        ending(m, report).0.deaths.total == m.deaths.total + (ending(m, report).0.dead.len() - m.dead.len()),
        ending(m, report).0.dead.len() >= m.dead.len(),
{
    reveal(ending);
    let t = Toll {
        living: Seq::empty(),
        dead: m.dead,
        structures: m.structures,
        log: m.log,
        by_cause: m.deaths.by_cause,
        total: m.deaths.total,
        report,
    };
    lemma_toll(t, m.town.people, m.town.people.len(), m.tick);
}

proof fn lemma_toll(t: Toll, people: Seq<CreatureV>, n: nat, tick: i64)
    requires
        n <= people.len(),
        t.total + n <= u64::MAX,
    ensures
        toll_of(t, people, n, tick).dead.len() >= t.dead.len(),
        toll_of(t, people, n, tick).dead.len() <= t.dead.len() + n,
        toll_of(t, people, n, tick).total == t.total + (toll_of(t, people, n, tick).dead.len() - t.dead.len()),
    decreases n,
{
    if n > 0 {
        lemma_toll(t, people, (n - 1) as nat, tick);
    }
}

} // verus!
