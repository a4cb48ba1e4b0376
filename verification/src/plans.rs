//! Plan expiry and interrupt detection.
//!
//! Soft signals accumulate as pressure and cannot break a commitment; hard ones
//! abort immediately. Without that distinction committing would do nothing,
//! because every plan would be interrupted by ordinary need decay within a few
//! ticks.

use crate::actions::AbortReason;
use crate::creature::{people_of, Addresses, Creature, CreatureV, PlanV};
use crate::needs::lemma_people_update;
use crate::num::{num, Num};
use crate::records::{count_one, held_for, one_more, ticks_held, PlanOutcome};
use vstd::prelude::*;

verus! {

/// 0.02: soft pressure builds while committed, so a creature that has been
/// running the same plan for a long time is first in line when the horizon
/// expires.
pub const PRESSURE_PER_TICK: u32 = 0x3CA3_D70A;

/// Ticks a plan runs before any hard signal can touch it.
pub const GRACE: i128 = 2;

/// The first of the needs in crisis: thirst, hunger, warmth, in that order.
pub open spec fn crisis_of_spec(thirst: Num, hunger: Num, warmth: Num, crit: Num) -> Option<AbortReason> {
    if thirst.lt(crit) {
        Some(AbortReason::ThirstCritical)
    } else if hunger.lt(crit) {
        Some(AbortReason::HungerCritical)
    } else if warmth.lt(crit) {
        Some(AbortReason::WarmthCritical)
    } else {
        None
    }
}

#[verifier::when_used_as_spec(crisis_of_spec)]
pub fn crisis_of(thirst: Num, hunger: Num, warmth: Num, crit: Num) -> (r: Option<AbortReason>)
    ensures
        r == crisis_of_spec(thirst, hunger, warmth, crit),
{
    if thirst.lt(crit) {
        Some(AbortReason::ThirstCritical)
    } else if hunger.lt(crit) {
        Some(AbortReason::HungerCritical)
    } else if warmth.lt(crit) {
        Some(AbortReason::WarmthCritical)
    } else {
        None
    }
}

/// Whether a plan answers any of the crises a creature is in. Every need in
/// crisis counts, not just the deepest: otherwise a creature critical in two at
/// once would have each cancel the plan for the other, forever. Fetching
/// firewood is how a creature answers being cold.
pub open spec fn answers_spec(addresses: Addresses, thirst: Num, hunger: Num, warmth: Num, crit: Num) -> bool {
    ||| thirst.lt(crit) && addresses == Addresses::Water
    ||| hunger.lt(crit) && addresses == Addresses::Food
    ||| warmth.lt(crit) && (addresses == Addresses::Warmth || addresses == Addresses::Fuel)
}

#[verifier::when_used_as_spec(answers_spec)]
pub fn answers(addresses: Addresses, thirst: Num, hunger: Num, warmth: Num, crit: Num) -> (r: bool)
    ensures
        r == answers_spec(addresses, thirst, hunger, warmth, crit),
{
    (thirst.lt(crit) && addresses == Addresses::Water) || (hunger.lt(crit) && addresses == Addresses::Food) || (
    warmth.lt(crit) && (addresses == Addresses::Warmth || addresses == Addresses::Fuel))
}

/// Why a plan ends this tick, if it does.
pub open spec fn ending_of(c: CreatureV, plan: PlanV, crit: Num, tick: i64) -> Option<AbortReason> {
    match crisis_of(c.thirst, c.hunger, c.warmth, crit) {
        Some(reason) => if answers(plan.addresses, c.thirst, c.hunger, c.warmth, crit) || tick - plan.set_tick < GRACE {
            None
        } else {
            Some(reason)
        },
        None => if plan.step_index >= plan.steps.len() {
            Some(AbortReason::Completed)
        } else if plan.ticks_remaining == 0 {
            Some(AbortReason::HorizonExpired)
        } else {
            None
        },
    }
}

/// A plan one tick on.
pub open spec fn aged(plan: PlanV) -> PlanV {
    PlanV {
        ticks_remaining: if plan.ticks_remaining > 0 {
            (plan.ticks_remaining - 1) as u32
        } else {
            0
        },
        ..plan
    }
}

/// A look at what a creature is committed to.
pub struct Review {
    pub c: CreatureV,
    /// It needs a new plan.
    pub flagged: bool,
    pub outcome: Option<PlanOutcome>,
}

pub open spec fn reviewed(c: CreatureV, crit: Num, tick: i64) -> Review {
    match c.plan {
        None => Review { c, flagged: true, outcome: None },
        Some(plan) => match ending_of(c, aged(plan), crit, tick) {
            Some(reason) => Review {
                c: CreatureV { plan: None, ..c },
                flagged: true,
                // Expiry and crisis are not the world proving a belief wrong, so
                // there is no belief to blame.
                outcome: Some(
                    PlanOutcome {
                        creature_id: c.id,
                        set_tick: plan.set_tick,
                        horizon_actual: ticks_held(plan.set_tick, tick),
                        reason,
                        belief_hops: None,
                    },
                ),
            },
            None => Review {
                c: CreatureV {
                    plan: Some(aged(plan)),
                    deliberation_pressure: c.deliberation_pressure + num(PRESSURE_PER_TICK),
                    ..c
                },
                flagged: false,
                outcome: None,
            },
        },
    }
}

fn review(c: &mut Creature, crit: Num, tick: i64) -> (r: (bool, Option<PlanOutcome>))
    ensures
        ({
            let v = reviewed(old(c)@, crit, tick);
            final(c)@ == v.c && r.0 == v.flagged && r.1 == v.outcome
        }),
{
    let crisis = crisis_of(c.thirst, c.hunger, c.warmth, crit);
    let mut plan = match c.plan.take() {
        Some(p) => p,
        None => {
            return (true, None);
        },
    };
    let ghost plan0 = plan@;
    plan.ticks_remaining = if plan.ticks_remaining > 0 {
        plan.ticks_remaining - 1
    } else {
        0
    };
    assert(plan@ == aged(plan0));
    let ended = match crisis {
        Some(reason) => {
            if answers(plan.addresses, c.thirst, c.hunger, c.warmth, crit) || (tick as i128 - plan.set_tick as i128)
                < GRACE {
                None
            } else {
                Some(reason)
            }
        },
        None => {
            if plan.is_done() {
                Some(AbortReason::Completed)
            } else if plan.ticks_remaining == 0 {
                Some(AbortReason::HorizonExpired)
            } else {
                None
            }
        },
    };
    match ended {
        Some(reason) => {
            let outcome = PlanOutcome {
                creature_id: c.id,
                set_tick: plan.set_tick,
                horizon_actual: held_for(plan.set_tick, tick),
                reason,
                belief_hops: None,
            };
            (true, Some(outcome))
        },
        None => {
            c.plan = Some(plan);
            c.deliberation_pressure = c.deliberation_pressure + num(PRESSURE_PER_TICK);
            (false, None)
        },
    }
}

/// A plan given up rather than finished or run out.
pub open spec fn is_abandoned(o: PlanOutcome) -> bool {
    o.reason != AbortReason::Completed && o.reason != AbortReason::HorizonExpired
}

/// Those among the first `n` that need a new plan, by place.
pub open spec fn flagged_in(people: Seq<CreatureV>, n: nat, crit: Num, tick: i64) -> Seq<usize>
    decreases n,
{
    if n == 0 {
        Seq::empty()
    } else {
        let before = flagged_in(people, (n - 1) as nat, crit, tick);
        if reviewed(people[n - 1], crit, tick).flagged {
            before.push((n - 1) as usize)
        } else {
            before
        }
    }
}

/// The plans of the first `n` that ended, in order.
pub open spec fn endings_in(people: Seq<CreatureV>, n: nat, crit: Num, tick: i64) -> Seq<PlanOutcome>
    decreases n,
{
    if n == 0 {
        Seq::empty()
    } else {
        let before = endings_in(people, (n - 1) as nat, crit, tick);
        match reviewed(people[n - 1], crit, tick).outcome {
            Some(o) => before.push(o),
            None => before,
        }
    }
}

/// How many of the first `n` gave a plan up, on top of a count.
pub open spec fn abandoned_in(people: Seq<CreatureV>, n: nat, crit: Num, tick: i64, count: u32) -> u32
    decreases n,
{
    if n == 0 {
        count
    } else {
        let before = abandoned_in(people, (n - 1) as nat, crit, tick, count);
        match reviewed(people[n - 1], crit, tick).outcome {
            Some(o) => if is_abandoned(o) {
                one_more(before)
            } else {
                before
            },
            None => before,
        }
    }
}

/// Reviews every commitment. Gives the places of those that need a new plan.
pub fn phase_plans(
    creatures: &mut Vec<Creature>,
    crit: Num,
    tick: i64,
    outcomes: &mut Vec<PlanOutcome>,
    abandoned: &mut u32,
) -> (flagged: Vec<usize>)
    ensures
        people_of(final(creatures)@) == people_of(old(creatures)@).map_values(
            |c: CreatureV| reviewed(c, crit, tick).c,
        ),
        flagged@ == flagged_in(people_of(old(creatures)@), old(creatures)@.len(), crit, tick),
        final(outcomes)@ == old(outcomes)@ + endings_in(
            people_of(old(creatures)@),
            old(creatures)@.len(),
            crit,
            tick,
        ),
        *final(abandoned) == abandoned_in(
            people_of(old(creatures)@),
            old(creatures)@.len(),
            crit,
            tick,
            *old(abandoned),
        ),
{
    let ghost start = people_of(creatures@);
    let ghost ended = outcomes@;
    let ghost given_up = *abandoned;
    let n: usize = creatures.len();
    let mut flagged: Vec<usize> = Vec::new();
    assert(ended + Seq::<PlanOutcome>::empty() == ended);
    for i in 0..n
        invariant
            n == creatures@.len() == start.len(),
            forall|j: int| 0 <= j < i ==> #[trigger] people_of(creatures@)[j] == reviewed(start[j], crit, tick).c,
            forall|j: int| i <= j < n ==> #[trigger] people_of(creatures@)[j] == start[j],
            flagged@ == flagged_in(start, i as nat, crit, tick),
            outcomes@ == ended + endings_in(start, i as nat, crit, tick),
            *abandoned == abandoned_in(start, i as nat, crit, tick, given_up),
    {
        let ghost before = creatures@;
        let ghost so_far = endings_in(start, i as nat, crit, tick);
        proof {
            assert(people_of(before)[i as int] == start[i as int]);
        }
        let (flag, outcome) = review(&mut creatures[i], crit, tick);
        proof {
            lemma_people_update(before, i as int, creatures@[i as int]);
            assert(creatures@ == before.update(i as int, creatures@[i as int]));
        }
        if flag {
            flagged.push(i);
        }
        if let Some(o) = outcome {
            outcomes.push(o);
            assert((ended + so_far).push(o) == ended + so_far.push(o));
            if o.reason != AbortReason::Completed && o.reason != AbortReason::HorizonExpired {
                *abandoned = count_one(*abandoned);
            }
        }
    }
    assert(people_of(creatures@) == start.map_values(|c: CreatureV| reviewed(c, crit, tick).c));
    flagged
}

/// A crisis does not cancel the plan that is on its way to end it.
pub proof fn law_a_crisis_spares_its_answer(c: CreatureV, crit: Num, tick: i64)
    requires
        c.plan matches Some(plan) && answers(plan.addresses, c.thirst, c.hunger, c.warmth, crit),
    ensures
        reviewed(c, crit, tick).c.plan is Some,
        !reviewed(c, crit, tick).flagged,
{
}

/// Without a crisis a plan ends only when it is carried out or its horizon is
/// reached: no soft signal breaks a commitment.
pub proof fn law_soft_signals_do_not_break_a_plan(c: CreatureV, crit: Num, tick: i64)
    requires
        crisis_of(c.thirst, c.hunger, c.warmth, crit) is None,
    ensures
        reviewed(c, crit, tick).outcome matches Some(o) ==> !is_abandoned(o) && !o.reason.is_hard(),
{
}

/// Every creature that comes out of a review without a plan is flagged for one,
/// and no other.
pub proof fn law_whoever_has_no_plan_is_flagged(c: CreatureV, crit: Num, tick: i64)
    ensures
        reviewed(c, crit, tick).flagged <==> reviewed(c, crit, tick).c.plan is None,
{
}

/// A crisis is named after what has run low: thirst before hunger, hunger before
/// cold, and only what is below the level.
pub proof fn law_a_crisis_is_what_has_run_low(thirst: Num, hunger: Num, warmth: Num, crit: Num)
    ensures
        crisis_of(thirst, hunger, warmth, crit) == Some(AbortReason::ThirstCritical) <==> thirst.lt(crit),
        crisis_of(thirst, hunger, warmth, crit) == Some(AbortReason::HungerCritical) <==> !thirst.lt(crit)
            && hunger.lt(crit),
        crisis_of(thirst, hunger, warmth, crit) == Some(AbortReason::WarmthCritical) <==> !thirst.lt(crit)
            && !hunger.lt(crit) && warmth.lt(crit),
        crisis_of(thirst, hunger, warmth, crit) is None <==> !thirst.lt(crit) && !hunger.lt(crit) && !warmth.lt(crit),
{
}

/// A plan answers a crisis only by going after what is wanting: a plan for water
/// answers thirst, one for food hunger, one for warmth or fuel the cold, and no other
/// plan answers anything.
pub proof fn law_each_plan_answers_one_want(to: Addresses, thirst: Num, hunger: Num, warmth: Num, crit: Num)
    ensures
        to == Addresses::Water ==> (answers(to, thirst, hunger, warmth, crit) <==> thirst.lt(crit)),
        to == Addresses::Food ==> (answers(to, thirst, hunger, warmth, crit) <==> hunger.lt(crit)),
        to == Addresses::Warmth || to == Addresses::Fuel ==> (answers(to, thirst, hunger, warmth, crit) <==> warmth.lt(
            crit,
        )),
        to != Addresses::Water && to != Addresses::Food && to != Addresses::Warmth && to != Addresses::Fuel ==> !answers(
            to,
            thirst,
            hunger,
            warmth,
            crit,
        ),
{
}

/// How a plan comes to its end. In a crisis that it does not answer it is broken off
/// for that crisis, unless it was set less than two ticks ago; without one it ends
/// when its steps are done or its time is up; otherwise it is kept, has one tick
/// less, and the wish to think grows. Nothing else about the creature changes.
pub proof fn law_how_a_plan_ends(c: CreatureV, crit: Num, tick: i64)
    requires
        c.plan is Some,
    ensures
        ({
            let r = reviewed(c, crit, tick);
            let plan = c.plan->0;
            let crisis = crisis_of(c.thirst, c.hunger, c.warmth, crit);
            let broken = crisis is Some && !answers(plan.addresses, c.thirst, c.hunger, c.warmth, crit) && tick
                - plan.set_tick >= 2;
            let done = crisis is None && plan.step_index >= plan.steps.len();
            let expired = crisis is None && !done && plan.ticks_remaining <= 1;
            &&& broken ==> (r.outcome matches Some(o) && o.reason == crisis->0)
            &&& done ==> (r.outcome matches Some(o) && o.reason == AbortReason::Completed)
            &&& expired ==> (r.outcome matches Some(o) && o.reason == AbortReason::HorizonExpired)
            &&& broken || done || expired ==> r.c == (CreatureV { plan: None, ..c }) && r.flagged
            &&& broken || done || expired ==> (r.outcome matches Some(o) && o.creature_id == c.id && o.set_tick
                == plan.set_tick)
            &&& !(broken || done || expired) ==> {
                &&& r.outcome is None && !r.flagged
                &&& r.c.plan matches Some(kept) && kept == (PlanV { ticks_remaining: kept.ticks_remaining, ..plan })
                    && kept.ticks_remaining == if plan.ticks_remaining > 0 {
                    plan.ticks_remaining - 1
                } else {
                    0
                }
                &&& r.c == (CreatureV {
                    plan: r.c.plan,
                    deliberation_pressure: c.deliberation_pressure + num(0x3CA3_D70A),
                    ..c
                })
            }
        }),
{
}

} // verus!
