//! Acting on plans, and looking around afterwards.
//!
//! Observation runs after acting, so a creature that arrives somewhere this tick
//! sees it this tick. That ordering is what makes a stale belief legible: the
//! creature walks to the clearing it remembers, looks, and its belief is
//! corrected on the spot; next tick the gather it planned fails and the plan is
//! abandoned with a reason.

use crate::actions::{execute, executed, setting_of, steps_of, AbortReason, ActionCtx, Deed, Outcome, Setting, Step};
use crate::chance::Stream;
use crate::creature::{people_of, Creature, CreatureV, Plan, PlanV};
use crate::economy::{NodeIndex, Structure};
use crate::event::{log_of, EventV};
use crate::grid::GridV;
use crate::knowledge::{forget_expired, remembered};
use crate::needs::lemma_people_update;
use crate::num::{num, Num, NOTHING};
use crate::pathfind::{is_map, path_inside};
use crate::perception::{discovery, observe, observed, WorldCache};
use crate::records::{
    count_by, count_one, held_for, hops_about, least_hops, more_by, one_more, ticks_held, PlanOutcome,
};
use crate::world::{Ground, ResourceNode, World};
use vstd::prelude::*;

verus! {

/// What creatures act on, one after the other.
#[verifier::ext_equal]
pub struct Stage {
    pub nodes: Seq<ResourceNode>,
    pub structures: Seq<Structure>,
    pub next_id: i64,
    pub rng: Stream,
    pub log: Seq<EventV>,
}

pub open spec fn stage_of(ctx: &ActionCtx) -> Stage {
    Stage {
        nodes: ctx.world.nodes@,
        structures: ctx.structures.items@,
        next_id: ctx.structures.next_id,
        rng: ctx.rng,
        log: log_of(ctx.events@),
    }
}

/// One creature's turn: how it comes out of it, and the world after it.
#[verifier::ext_equal]
pub struct Turn {
    pub c: CreatureV,
    pub stage: Stage,
    pub gathered: Num,
    pub eaten: Num,
    pub outcome: Option<PlanOutcome>,
    /// The plan was given up rather than carried out.
    pub failed: bool,
    pub discovered: nat,
}

/// What came of one tick of a plan.
#[verifier::ext_equal]
pub struct Effort {
    pub deed: Deed,
    pub plan: PlanV,
    pub failure: Option<AbortReason>,
}

/// One tick of a plan: its current step is worked at and, once complete, left
/// behind. A plan with no step left has been completed.
#[verifier::opaque]
pub open spec fn worked(c: CreatureV, plan: PlanV, stage: Stage, s: Setting) -> Effort {
    let i = plan.step_index as int;
    let d = Deed {
        c,
        step: plan.steps[i],
        nodes: stage.nodes,
        structures: stage.structures,
        next_id: stage.next_id,
        rng: stage.rng,
        log: stage.log,
        gathered: num(NOTHING),
        eaten: num(NOTHING),
    };
    if plan.step_index < plan.steps.len() {
        let (e, out) = executed(d, s);
        Effort {
            deed: e,
            plan: PlanV {
                steps: plan.steps.update(i, e.step),
                step_index: if out == Outcome::StepComplete {
                    plan.step_index + 1
                } else {
                    plan.step_index
                },
                ..plan
            },
            failure: match out {
                Outcome::Failed(reason) => Some(reason),
                _ => None,
            },
        }
    } else {
        Effort { deed: d, plan, failure: Some(AbortReason::Completed) }
    }
}

/// The belief that proved wrong, where a target was gone or stripped: the
/// freshest one about the place the step was aimed at.
pub open spec fn blamed_hops(e: Effort, reason: AbortReason) -> Option<u8> {
    if reason != AbortReason::TargetGone && reason != AbortReason::TargetDepleted {
        None
    } else if e.plan.step_index >= e.plan.steps.len() {
        None
    } else {
        match e.plan.steps[e.plan.step_index as int].target.tile_in(e.deed.nodes) {
            Some(at) => least_hops(e.deed.c.beliefs, at.0, at.1),
            None => None,
        }
    }
}

/// What becomes of a plan after one tick of it: given up, completed, or kept.
pub open spec fn settled(e: Effort, tick: i64) -> (Option<PlanV>, Option<PlanOutcome>, bool) {
    let outcome = PlanOutcome {
        creature_id: e.deed.c.id,
        set_tick: e.plan.set_tick,
        horizon_actual: ticks_held(e.plan.set_tick, tick),
        reason: AbortReason::Completed,
        belief_hops: None,
    };
    let given_up = match e.failure {
        Some(reason) => reason != AbortReason::Completed,
        None => false,
    };
    if given_up {
        let reason = e.failure->Some_0;
        (None, Some(PlanOutcome { reason, belief_hops: blamed_hops(e, reason), ..outcome }), true)
    } else if e.plan.step_index >= e.plan.steps.len() {
        (None, Some(outcome), false)
    } else {
        (Some(e.plan), None, false)
    }
}

/// A creature's whole turn: it works at its plan, then looks around from
/// wherever it now stands, and forgets what has faded. One without a plan does
/// neither.
#[verifier::opaque]
pub open spec fn turn_of(
    c: CreatureV,
    stage: Stage,
    s: Setting,
    index: GridV,
) -> Turn {
    match c.plan {
        None => Turn {
            c,
            stage,
            gathered: num(NOTHING),
            eaten: num(NOTHING),
            outcome: None,
            failed: false,
            discovered: 0,
        },
        Some(plan) => {
            let e = worked(CreatureV { plan: None, ..c }, plan, stage, s);
            let (kept, outcome, failed) = settled(e, s.tick);
            let after = CreatureV { plan: kept, ..e.deed.c };
            let look = observed(after, s.ground, e.deed.nodes, index, &s.cfg, s.tick);
            Turn {
                c: CreatureV { beliefs: remembered(look.beliefs, s.tick, &s.cfg.knowledge), ..after },
                stage: Stage {
                    nodes: e.deed.nodes,
                    structures: e.deed.structures,
                    next_id: e.deed.next_id,
                    rng: e.deed.rng,
                    log: if look.discovered > 0 {
                        e.deed.log.push(discovery(after, look, s.tick))
                    } else {
                        e.deed.log
                    },
                },
                gathered: e.deed.gathered,
                eaten: e.deed.eaten,
                outcome,
                failed,
                discovered: look.discovered,
            }
        },
    }
}

/// A plan whose routes stay on the map.
pub open spec fn plan_holds(g: Ground, plan: Option<PlanV>) -> bool {
    plan matches Some(p) ==> forall|k: int|
        0 <= k < p.steps.len() ==> path_inside(g, (#[trigger] p.steps[k]).path)
}

/// A creature still itself, and still standing on the map with such a plan.
pub open spec fn kept_self(g: Ground, after: CreatureV, before: CreatureV) -> bool {
    stands(g, after) && after.id == before.id && after.birth_tick == before.birth_tick
}

/// A creature on the map with such a plan.
pub open spec fn stands(g: Ground, c: CreatureV) -> bool {
    g.inside(c.x as int, c.y as int) && plan_holds(g, c.plan)
}

proof fn lemma_steps_update(steps: Seq<Step>, i: int, s: Step)
    requires
        0 <= i < steps.len(),
    ensures
        steps_of(steps.update(i, s)) == steps_of(steps).update(i, s@),
{
    assert(steps_of(steps.update(i, s)) =~= steps_of(steps).update(i, s@));
}

/// What there is to note about a turn.
#[derive(Debug, Clone, Copy, PartialEq, Eq, Structural)]
pub struct Notes {
    pub gathered: Num,
    pub eaten: Num,
    pub outcome: Option<PlanOutcome>,
    pub failed: bool,
    pub discovered: u32,
}

impl Notes {
    pub open spec fn of(t: Turn) -> Notes {
        Notes {
            gathered: t.gathered,
            eaten: t.eaten,
            outcome: t.outcome,
            failed: t.failed,
            discovered: t.discovered as u32,
        }
    }
}

/// Works one tick at a plan.
fn work(c: &mut Creature, plan: &mut Plan, ctx: &mut ActionCtx) -> (failure: Option<AbortReason>)
    requires
        old(ctx).wf(),
        old(ctx).world.inside(old(c).x as int, old(c).y as int),
        plan_holds(old(ctx).world.ground(), Some(old(plan)@)),
        old(ctx).gathered == num(NOTHING),
        old(ctx).eaten == num(NOTHING),
    ensures
        ({
            let e = worked(old(c)@, old(plan)@, stage_of(old(ctx)), setting_of(old(ctx)));
            &&& final(c)@ == e.deed.c
            &&& final(plan)@ == e.plan
            &&& failure == e.failure
            &&& stage_of(final(ctx)) == (Stage {
                nodes: e.deed.nodes,
                structures: e.deed.structures,
                next_id: e.deed.next_id,
                rng: e.deed.rng,
                log: e.deed.log,
            })
            &&& final(ctx).gathered == e.deed.gathered
            &&& final(ctx).eaten == e.deed.eaten
        }),
        final(ctx).same_setting(old(ctx)),
        final(ctx).grown_from(old(ctx)),
        final(ctx).world.inside(final(c).x as int, final(c).y as int),
        final(plan).set_tick == old(plan).set_tick,
        final(c).plan == old(c).plan,
        final(c).id == old(c).id,
        final(c).birth_tick == old(c).birth_tick,
        forall|k: int| 0 <= k < final(plan)@.steps.len() ==> path_inside(
            final(ctx).world.ground(),
            (#[trigger] final(plan)@.steps[k]).path,
        ),
{
    proof {
        reveal(worked);
    }
    let i = plan.step_index;
    if i < plan.steps.len() {
        let ghost steps = plan.steps@;
        let ghost before = plan@;
        proof {
            assert(before.steps[i as int] == steps[i as int]@);
        }
        let out = execute(c, &mut plan.steps[i], ctx);
        proof {
            lemma_steps_update(steps, i as int, plan.steps@[i as int]);
            assert(plan.steps@ == steps.update(i as int, plan.steps@[i as int]));
        }
        match out {
            Outcome::Working => None,
            Outcome::StepComplete => {
                plan.step_index = i + 1;
                None
            },
            Outcome::Failed(reason) => Some(reason),
        }
    } else {
        Some(AbortReason::Completed)
    }
}

/// The belief to blame for a plan that came to nothing.
fn blame(c: &Creature, plan: &Plan, world: &World, reason: AbortReason, Ghost(e): Ghost<Effort>) -> (hops: Option<u8>)
    requires
        e.plan == plan@,
        e.deed.c == c@,
        e.deed.nodes == world.nodes@,
    ensures
        hops == blamed_hops(e, reason),
{
    if reason != AbortReason::TargetGone && reason != AbortReason::TargetDepleted {
        return None;
    }
    if plan.step_index >= plan.steps.len() {
        return None;
    }
    proof {
        assert(plan@.steps[plan.step_index as int] == plan.steps@[plan.step_index as int]@);
    }
    match plan.steps[plan.step_index].target.tile(world) {
        Some((x, y)) => hops_about(&c.beliefs, x, y),
        None => None,
    }
}

/// Looks around and forgets what has faded.
fn look_around(
    c: &mut Creature,
    ctx: &mut ActionCtx,
    cache: &WorldCache,
    index: &NodeIndex,
    scratch: &mut Vec<u32>,
) -> (discovered: u32)
    requires
        is_map(old(ctx).world.ground()),
        old(ctx).world.inside(old(c).x as int, old(c).y as int),
        cache.maps(old(ctx).world.ground()),
        index.grid.wf(),
        index.refers_into(old(ctx).world.nodes@),
        old(ctx).world.nodes@.len() + 1 < u32::MAX,
    ensures
        ({
            let look = observed(
                old(c)@,
                old(ctx).world.ground(),
                old(ctx).world.nodes@,
                index@,
                &old(ctx).cfg,
                old(ctx).tick,
            );
            &&& final(c)@ == (CreatureV {
                beliefs: remembered(look.beliefs, old(ctx).tick, &old(ctx).cfg.knowledge),
                ..old(c)@
            })
            &&& discovered == look.discovered
            &&& log_of(final(ctx).events@) == if look.discovered > 0 {
                log_of(old(ctx).events@).push(discovery(old(c)@, look, old(ctx).tick))
            } else {
                log_of(old(ctx).events@)
            }
        }),
        *final(ctx) == (ActionCtx { events: final(ctx).events, ..*old(ctx) }),
{
    let discovered = observe(c, &ctx.world, cache, index, scratch, &ctx.cfg, ctx.tick, &mut ctx.events);
    forget_expired(&mut c.beliefs, ctx.tick, &ctx.cfg.knowledge);
    discovered
}

/// A creature's turn. None where it has no plan to act on.
#[verifier::rlimit(40)]
pub fn take_turn(
    c: &mut Creature,
    ctx: &mut ActionCtx,
    cache: &WorldCache,
    index: &NodeIndex,
    scratch: &mut Vec<u32>,
) -> (notes: Option<Notes>)
    requires
        old(ctx).wf(),
        stands(old(ctx).world.ground(), old(c)@),
        cache.maps(old(ctx).world.ground()),
        index.grid.wf(),
        index.refers_into(old(ctx).world.nodes@),
        old(ctx).world.nodes@.len() + 2 < u32::MAX,
    ensures
        ({
            let t = turn_of(old(c)@, stage_of(old(ctx)), setting_of(old(ctx)), index@);
            &&& final(c)@ == t.c
            &&& stage_of(final(ctx)) == t.stage
            &&& notes == if old(c)@.plan is Some {
                Some(Notes::of(t))
            } else {
                None
            }
            &&& t.discovered <= u32::MAX
        }),
        final(ctx).same_setting(old(ctx)),
        final(ctx).grown_from(old(ctx)),
        stands(final(ctx).world.ground(), final(c)@),
        final(c).id == old(c).id,
        final(c).birth_tick == old(c).birth_tick,
{
    proof {
        reveal(turn_of);
    }
    let mut plan = match c.plan.take() {
        Some(p) => p,
        None => {
            return None;
        },
    };
    ctx.gathered = num(NOTHING);
    ctx.eaten = num(NOTHING);
    let ghost e = worked(c@, plan@, stage_of(ctx), setting_of(ctx));
    let failure = work(c, &mut plan, ctx);
    let (gathered, eaten) = (ctx.gathered, ctx.eaten);
    let mut outcome = PlanOutcome {
        creature_id: c.id,
        set_tick: plan.set_tick,
        horizon_actual: held_for(plan.set_tick, ctx.tick),
        reason: AbortReason::Completed,
        belief_hops: None,
    };
    let given_up = match failure {
        Some(reason) => if reason != AbortReason::Completed {
            outcome.belief_hops = blame(c, &plan, &ctx.world, reason, Ghost(e));
            outcome.reason = reason;
            true
        } else {
            false
        },
        None => false,
    };
    let ended = if given_up {
        Some(outcome)
    } else if plan.is_done() {
        Some(outcome)
    } else {
        c.plan = Some(plan);
        None
    };
    proof {
        let (kept, o, failed) = settled(e, ctx.tick);
        assert(o == ended && failed == given_up);
        assert(c@ == (CreatureV { plan: kept, ..e.deed.c }));
    }
    proof {
        assert(index.refers_into(ctx.world.nodes@));
    }
    let discovered = look_around(c, ctx, cache, index, scratch);
    Some(Notes { gathered, eaten, outcome: ended, failed: given_up, discovered })
}

/// What a round of turns has come to.
#[verifier::ext_equal]
pub struct Round {
    pub people: Seq<CreatureV>,
    pub stage: Stage,
    pub gathered: Num,
    pub eaten: Num,
    pub outcomes: Seq<PlanOutcome>,
    pub abandoned: u32,
    pub discoveries: u32,
    pub acted: u32,
}

/// The turns of the first `n`, one after the other, on top of what was counted
/// before.
pub open spec fn round_of(start: Round, n: nat, s: Setting, index: GridV) -> Round
    decreases n,
{
    if n == 0 {
        start
    } else {
        let r = round_of(start, (n - 1) as nat, s, index);
        let c = r.people[n - 1];
        if c.plan is None {
            r
        } else {
            let t = turn_of(c, r.stage, s, index);
            Round {
                people: r.people.update(n - 1, t.c),
                stage: t.stage,
                gathered: r.gathered + t.gathered,
                eaten: r.eaten + t.eaten,
                outcomes: match t.outcome {
                    Some(o) => r.outcomes.push(o),
                    None => r.outcomes,
                },
                abandoned: if t.failed {
                    one_more(r.abandoned)
                } else {
                    r.abandoned
                },
                discoveries: more_by(r.discoveries, t.discovered),
                acted: one_more(r.acted),
            }
        }
    }
}

/// Turns that have not come yet find their creature as it was.
pub proof fn lemma_round(start: Round, n: nat, s: Setting, index: GridV)
    requires
        n <= start.people.len(),
    ensures
        round_of(start, n, s, index).people.len() == start.people.len(),
        forall|j: int|
            n <= j < start.people.len() ==> #[trigger] round_of(start, n, s, index).people[j]
                == start.people[j],
    decreases n,
{
    if n > 0 {
        lemma_round(start, (n - 1) as nat, s, index);
    }
}

/// Whoever has a plan acts on it, every tick: where everybody has one, as many
/// act as there are.
pub proof fn law_everybody_acts(start: Round, n: nat, s: Setting, index: GridV)
    requires
        n <= start.people.len(),
        forall|i: int| 0 <= i < n ==> (#[trigger] start.people[i]).plan is Some,
        start.acted + n <= u32::MAX,
    ensures
        round_of(start, n, s, index).acted == start.acted + n,
    decreases n,
{
    if n > 0 {
        law_everybody_acts(start, (n - 1) as nat, s, index);
        lemma_round(start, (n - 1) as nat, s, index);
    }
}

/// Executable counts of a round.
#[derive(Debug, Clone, Copy, PartialEq, Eq, Structural)]
pub struct RoundCounts {
    pub gathered: Num,
    pub eaten: Num,
    pub abandoned: u32,
    pub discoveries: u32,
    pub acted: u32,
}

/// A round about to begin.
pub open spec fn round_from(
    people: Seq<CreatureV>,
    stage: Stage,
    outcomes: Seq<PlanOutcome>,
    abandoned: u32,
    discoveries: u32,
    acted: u32,
) -> Round {
    Round {
        people,
        stage,
        gathered: num(NOTHING),
        eaten: num(NOTHING),
        outcomes,
        abandoned,
        discoveries,
        acted,
    }
}

/// Everybody who has a plan acts on it and looks around, in order.
pub fn phase_act(
    creatures: &mut Vec<Creature>,
    ctx: &mut ActionCtx,
    cache: &WorldCache,
    index: &NodeIndex,
    scratch: &mut Vec<u32>,
    outcomes: &mut Vec<PlanOutcome>,
    counts: RoundCounts,
) -> (after: RoundCounts)
    requires
        old(ctx).wf(),
        forall|i: int|
            0 <= i < old(creatures)@.len() ==> stands(
                old(ctx).world.ground(),
                #[trigger] people_of(old(creatures)@)[i],
            ),
        cache.maps(old(ctx).world.ground()),
        index.grid.wf(),
        index.refers_into(old(ctx).world.nodes@),
        old(ctx).world.nodes@.len() + old(creatures)@.len() + 1 < u32::MAX,
        old(ctx).structures.next_id + old(creatures)@.len() < i64::MAX,
    ensures
        ({
            let r = round_of(
                round_from(
                    people_of(old(creatures)@),
                    stage_of(old(ctx)),
                    old(outcomes)@,
                    counts.abandoned,
                    counts.discoveries,
                    counts.acted,
                ),
                old(creatures)@.len(),
                setting_of(old(ctx)),
                index@,
            );
            &&& people_of(final(creatures)@) == r.people
            &&& stage_of(final(ctx)) == r.stage
            &&& final(outcomes)@ == r.outcomes
            &&& after == (RoundCounts {
                gathered: r.gathered,
                eaten: r.eaten,
                abandoned: r.abandoned,
                discoveries: r.discoveries,
                acted: r.acted,
            })
        }),
        final(ctx).same_setting(old(ctx)),
        final(ctx).world.nodes@.len() >= old(ctx).world.nodes@.len(),
        final(ctx).world.nodes@.len() <= old(ctx).world.nodes@.len() + old(creatures)@.len(),
        final(ctx).structures.next_id <= old(ctx).structures.next_id + old(creatures)@.len(),
        final(creatures)@.len() == old(creatures)@.len(),
        forall|i: int|
            0 <= i < final(creatures)@.len() ==> kept_self(
                final(ctx).world.ground(),
                #[trigger] people_of(final(creatures)@)[i],
                people_of(old(creatures)@)[i],
            ),
{
    let n: usize = creatures.len();
    let ghost start = round_from(
        people_of(creatures@),
        stage_of(ctx),
        outcomes@,
        counts.abandoned,
        counts.discoveries,
        counts.acted,
    );
    let ghost s = setting_of(ctx);
    let ghost g = ctx.world.ground();
    let ghost first_id = ctx.structures.next_id;
    let ghost first_nodes = ctx.world.nodes@.len();
    let mut after = RoundCounts {
        gathered: num(NOTHING),
        eaten: num(NOTHING),
        abandoned: counts.abandoned,
        discoveries: counts.discoveries,
        acted: counts.acted,
    };
    for i in 0..n
        invariant
            n == creatures@.len() == start.people.len(),
            ctx.same_setting(old(ctx)),
            s == setting_of(old(ctx)),
            g == ctx.world.ground(),
            cache.maps(g),
            index.grid.wf(),
            index.refers_into(ctx.world.nodes@),
            first_nodes + n + 1 < u32::MAX,
            first_id + n < i64::MAX,
            ctx.world.nodes@.len() <= first_nodes + i,
            ctx.structures.next_id <= first_id + i,
            forall|j: int| 0 <= j < n ==> stands(g, #[trigger] start.people[j]),
            first_nodes <= ctx.world.nodes@.len(),
            forall|j: int|
                0 <= j < n ==> kept_self(g, #[trigger] people_of(creatures@)[j], start.people[j]),
            ({
                let r = round_of(start, i as nat, s, index@);
                &&& people_of(creatures@) == r.people
                &&& stage_of(ctx) == r.stage
                &&& outcomes@ == r.outcomes
                &&& after == (RoundCounts {
                    gathered: r.gathered,
                    eaten: r.eaten,
                    abandoned: r.abandoned,
                    discoveries: r.discoveries,
                    acted: r.acted,
                })
            }),
    {
        let ghost before = creatures@;
        proof {
            lemma_round(start, i as nat, s, index@);
            assert(people_of(before)[i as int] == start.people[i as int]);
            assert(stands(g, start.people[i as int]));
        }
        let notes = take_turn(&mut creatures[i], ctx, cache, index, scratch);
        proof {
            lemma_people_update(before, i as int, creatures@[i as int]);
            assert(creatures@ == before.update(i as int, creatures@[i as int]));
            assert forall|j: int| 0 <= j < n implies kept_self(
                g,
                #[trigger] people_of(creatures@)[j],
                start.people[j],
            ) by {
                if j != i {
                    assert(people_of(creatures@)[j] == people_of(before)[j]);
                }
            }
            if start.people[i as int].plan is None {
                reveal(turn_of);
                assert(people_of(before).update(i as int, people_of(before)[i as int]) == people_of(before));
            }
        }
        if let Some(t) = notes {
            after = RoundCounts {
                gathered: after.gathered + t.gathered,
                eaten: after.eaten + t.eaten,
                abandoned: if t.failed {
                    count_one(after.abandoned)
                } else {
                    after.abandoned
                },
                discoveries: count_by(after.discoveries, t.discovered),
                acted: count_one(after.acted),
            };
            if let Some(o) = t.outcome {
                outcomes.push(o);
            }
        }
    }
    after
}

/// Work on a plan is work on its current step: when that is done the plan moves on to
/// the next, when it fails the plan is failed for that reason, and otherwise the plan
/// stays where it is. No other step changes.
pub proof fn law_a_plan_goes_step_by_step(c: CreatureV, plan: PlanV, stage: Stage, s: Setting)
    ensures
        ({
            let e = worked(c, plan, stage, s);
            &&& plan.step_index >= plan.steps.len() ==> e.plan == plan && e.failure == Some(AbortReason::Completed)
                && e.deed.c == c
            &&& plan.step_index < plan.steps.len() ==> {
                let i = plan.step_index as int;
                let d = Deed {
                    c,
                    step: plan.steps[i],
                    nodes: stage.nodes,
                    structures: stage.structures,
                    next_id: stage.next_id,
                    rng: stage.rng,
                    log: stage.log,
                    gathered: num(0),
                    eaten: num(0),
                };
                let out = executed(d, s).1;
                &&& e.deed == executed(d, s).0
                &&& out == Outcome::StepComplete ==> e.plan.step_index == plan.step_index + 1 && e.failure is None
                &&& out == Outcome::Working ==> e.plan.step_index == plan.step_index && e.failure is None
                &&& out matches Outcome::Failed(reason) ==> e.plan.step_index == plan.step_index && e.failure == Some(
                    reason,
                )
                &&& e.plan.steps.len() == plan.steps.len()
                &&& forall|k: int| 0 <= k < plan.steps.len() && k != i ==> #[trigger] e.plan.steps[k] == plan.steps[k]
                &&& e.plan == (PlanV { steps: e.plan.steps, step_index: e.plan.step_index, ..plan })
            }
        }),
{
    reveal(worked);
}

/// A plan that has failed is given up for the reason it failed, and that is told; one
/// whose steps are all done is completed, and given up without failing; any other is
/// kept.
pub proof fn law_how_an_effort_ends(e: Effort, tick: i64)
    ensures
        ({
            let (kept, outcome, failed) = settled(e, tick);
            let broken = e.failure is Some && e.failure != Some(AbortReason::Completed);
            &&& broken ==> kept is None && failed && (outcome matches Some(o) && Some(o.reason) == e.failure)
            &&& !broken && e.plan.step_index >= e.plan.steps.len() ==> kept is None && !failed && (outcome matches Some(o)
                && o.reason == AbortReason::Completed)
            &&& !broken && e.plan.step_index < e.plan.steps.len() ==> kept == Some(e.plan) && outcome is None && !failed
            &&& outcome matches Some(o) ==> o.creature_id == e.deed.c.id && o.set_tick == e.plan.set_tick
        }),
{
}

/// A turn leaves everybody else alone and forgets nothing but what has faded: one
/// without a plan does nothing at all, and what one with a plan ate and gathered is
/// what the deed was.
pub proof fn law_a_turn_is_ones_own(c: CreatureV, stage: Stage, s: Setting, index: GridV)
    ensures
        ({
            let t = turn_of(c, stage, s, index);
            &&& c.plan is None ==> t.c == c && t.stage == stage && t.outcome is None && !t.failed && t.discovered == 0
            &&& c.plan matches Some(plan) ==> {
                let e = worked(CreatureV { plan: None, ..c }, plan, stage, s);
                &&& t.gathered == e.deed.gathered && t.eaten == e.deed.eaten
                &&& t.stage.nodes == e.deed.nodes && t.stage.structures == e.deed.structures
                &&& t.c == (CreatureV { plan: t.c.plan, beliefs: t.c.beliefs, ..e.deed.c })
                &&& t.c.plan == settled(e, s.tick).0
                &&& t.outcome == settled(e, s.tick).1 && t.failed == settled(e, s.tick).2
            }
        }),
{
    reveal(turn_of);
}

/// When what was gone for is gone or used up, it is the word that led there that is
/// blamed, by how many hops it had come; nothing else is anybody's fault.
pub proof fn law_only_a_false_lead_is_blamed(e: Effort, reason: AbortReason)
    ensures
        reason != AbortReason::TargetGone && reason != AbortReason::TargetDepleted ==> blamed_hops(e, reason) is None,
        (reason == AbortReason::TargetGone || reason == AbortReason::TargetDepleted) && e.plan.step_index
            < e.plan.steps.len() ==> (e.plan.steps[e.plan.step_index as int].target.tile_in(e.deed.nodes) matches Some(at)
            ==> blamed_hops(e, reason) == least_hops(e.deed.c.beliefs, at.0, at.1)),
{
}

} // verus!
