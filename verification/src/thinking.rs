//! Deliberation: who is asked to think, what it costs them, and what becomes of
//! the answer.
//!
//! A call is answered several ticks after it was made, so its plan is held
//! against the world as it is when it arrives. Whoever has no usable answer keeps
//! the plan the reflex policy gave it: nobody ever stalls waiting for a model.

use crate::actions::{is_legal, legal, reads_ground, steps_of, Step};
use crate::config::WorldConfig;
use crate::creature::{people_of, Addresses, Creature, CreatureV, LifeStage, Plan, PlanV};
use crate::economy::{Structure, Structures};
use crate::event::{event_of, log_of, Event, EventKind, EventV};
use crate::lists::{
    count_where, insert_scored, law_ranking_is_ordered, lemma_filter_start, lemma_filter_step, lemma_filtered, outranks,
    rank_in, ranked_by, top, top_of,
};
use crate::needs::lemma_people_update;
use crate::num::{num, of_int, Num, NOTHING};
use crate::records::{
    aimed_hops, count_one, decisions_of, one_more, plan_belief_hops, reflex_decision, swell, swelled,
    true_for_recent, DecisionRecord, DecisionV, LlmStats, TickReport,
};
use crate::town::{index_of, is_here, lemma_place, place_of, say};
use crate::world::{tile_index, Ground, ResourceNode, World};
use vstd::prelude::*;
use vstd::string::*;

verus! {

/// 45.0: guessing low would spend the whole early budget on creatures that cannot
/// use the answer.
pub const UNKNOWN_LATENCY: u32 = 0x4234_0000;

/// A call in flight: whom it is about, and when it was made.
pub type Call = (i64, i64);

/// The calls in flight, in ascending order of id.
#[derive(Debug)]
pub struct Waiting {
    pub calls: Vec<Call>,
}

pub open spec fn calls_ascend(calls: Seq<Call>) -> bool {
    forall|i: int, j: int| 0 <= i < j < calls.len() ==> (#[trigger] calls[i]).0 < (#[trigger] calls[j]).0
}

/// Whether somebody has a call in flight.
pub open spec fn is_waiting(calls: Seq<Call>, id: i64) -> bool {
    exists|i: int| 0 <= i < calls.len() && (#[trigger] calls[i]).0 == id
}

/// With a call made about somebody, in place of any made before.
pub open spec fn with_call(calls: Seq<Call>, id: i64, tick: i64) -> Seq<Call>
    decreases calls.len(),
{
    if calls.len() == 0 || calls.last().0 < id {
        calls.push((id, tick))
    } else if calls.last().0 == id {
        calls.drop_last().push((id, tick))
    } else {
        with_call(calls.drop_last(), id, tick).push(calls.last())
    }
}

pub open spec fn not_about(id: i64) -> spec_fn(Call) -> bool {
    |c: Call| c.0 != id
}

/// Made no longer ago than somebody would wait.
pub open spec fn still_wanted(tick: i64, ttl: u32) -> spec_fn(Call) -> bool {
    |c: Call| tick - c.1 <= ttl
}

proof fn lemma_ascending_part(calls: Seq<Call>, p: spec_fn(Call) -> bool)
    requires
        calls_ascend(calls),
    ensures
        calls_ascend(calls.filter(p)),
        forall|i: int| 0 <= i < calls.filter(p).len() ==> calls.contains(#[trigger] calls.filter(p)[i]),
    decreases calls.len(),
{
    reveal(Seq::filter);
    if calls.len() > 0 {
        let shorter = calls.drop_last();
        lemma_ascending_part(shorter, p);
        let before = shorter.filter(p);
        let all = calls.filter(p);
        assert forall|i: int| 0 <= i < before.len() implies (#[trigger] before[i]).0 < calls.last().0
            && calls.contains(before[i]) by {
            assert(shorter.contains(before[i]));
            let k = shorter.index_of(before[i]);
            assert(calls[k] == before[i]);
        }
        assert forall|i: int| 0 <= i < all.len() implies calls.contains(#[trigger] all[i]) by {
            if i < before.len() {
                assert(all[i] == before[i]);
            } else {
                assert(calls[calls.len() - 1] == all[i]);
            }
        }
        assert forall|i: int, j: int| 0 <= i < j < all.len() implies (#[trigger] all[i]).0 < (#[trigger] all[j]).0 by {
            assert(all[i] == before[i]);
            if j < before.len() {
                assert(all[j] == before[j]);
            }
        }
    }
}

proof fn lemma_with_call(calls: Seq<Call>, id: i64, tick: i64)
    requires
        calls_ascend(calls),
    ensures
        calls_ascend(with_call(calls, id, tick)),
        forall|i: int|
            0 <= i < with_call(calls, id, tick).len() ==> (#[trigger] with_call(calls, id, tick)[i]).0 == id || exists|
                k: int,
            | 0 <= k < calls.len() && (#[trigger] calls[k]).0 == with_call(calls, id, tick)[i].0,
    decreases calls.len(),
{
    let after = with_call(calls, id, tick);
    if calls.len() == 0 || calls.last().0 < id {
        assert forall|i: int| 0 <= i < after.len() implies (#[trigger] after[i]).0 == id || exists|k: int|
            0 <= k < calls.len() && (#[trigger] calls[k]).0 == after[i].0 by {
            if i < calls.len() {
                assert(calls[i].0 == after[i].0);
            }
        }
        assert forall|i: int, j: int| 0 <= i < j < after.len() implies (#[trigger] after[i]).0 < (
        #[trigger] after[j]).0 by {
            if j == calls.len() && i < calls.len() - 1 {
                assert(calls[i].0 < calls[calls.len() - 1].0);
            }
        }
    } else if calls.last().0 == id {
        assert forall|i: int| 0 <= i < after.len() implies (#[trigger] after[i]).0 == id || exists|k: int|
            0 <= k < calls.len() && (#[trigger] calls[k]).0 == after[i].0 by {
            assert(calls[i].0 == after[i].0);
        }
        assert forall|i: int, j: int| 0 <= i < j < after.len() implies (#[trigger] after[i]).0 < (
        #[trigger] after[j]).0 by {
            assert(calls[i].0 < calls[j].0);
        }
    } else {
        let shorter = calls.drop_last();
        lemma_with_call(shorter, id, tick);
        let before = with_call(shorter, id, tick);
        assert forall|i: int| 0 <= i < before.len() implies (#[trigger] before[i]).0 < calls.last().0 by {
            if before[i].0 != id {
                let k = choose|k: int| 0 <= k < shorter.len() && (#[trigger] shorter[k]).0 == before[i].0;
                assert(calls[k].0 < calls[calls.len() - 1].0);
            }
        }
        assert forall|i: int| 0 <= i < after.len() implies (#[trigger] after[i]).0 == id || exists|k: int|
            0 <= k < calls.len() && (#[trigger] calls[k]).0 == after[i].0 by {
            if i < before.len() {
                assert(after[i] == before[i]);
                if before[i].0 != id {
                    let k = choose|k: int| 0 <= k < shorter.len() && (#[trigger] shorter[k]).0 == before[i].0;
                    assert(calls[k].0 == after[i].0);
                }
            } else {
                assert(calls[calls.len() - 1].0 == after[i].0);
            }
        }
        assert forall|i: int, j: int| 0 <= i < j < after.len() implies (#[trigger] after[i]).0 < (
        #[trigger] after[j]).0 by {
            assert(after[i] == before[i]);
            if j < before.len() {
                assert(after[j] == before[j]);
            }
        }
    }
}

impl Waiting {
    pub open spec fn wf(&self) -> bool {
        calls_ascend(self.calls@)
    }

    pub fn new() -> (r: Self)
        ensures
            r.calls@.len() == 0,
            r.wf(),
    {
        Waiting { calls: Vec::new() }
    }

    pub fn contains(&self, id: i64) -> (r: bool)
        ensures
            r == is_waiting(self.calls@, id),
    {
        for i in 0..self.calls.len()
            invariant
                forall|j: int| 0 <= j < i ==> (#[trigger] self.calls@[j]).0 != id,
        {
            if self.calls[i].0 == id {
                return true;
            }
        }
        false
    }

    pub fn insert(&mut self, id: i64, tick: i64)
        requires
            old(self).wf(),
        ensures
            final(self).calls@ == with_call(old(self).calls@, id, tick),
            final(self).wf(),
    {
        let ghost before = self.calls@;
        proof {
            lemma_with_call(before, id, tick);
        }
        let mut at: usize = self.calls.len();
        assert(before.take(at as int) == before);
        assert(with_call(before.take(at as int), id, tick) + before.skip(at as int) == with_call(before, id, tick));
        while at > 0 && self.calls[at - 1].0 > id
            invariant
                self.calls@ == before,
                at <= before.len(),
                with_call(before.take(at as int), id, tick) + before.skip(at as int) == with_call(before, id, tick),
            decreases at,
        {
            proof {
                let head = before.take(at as int);
                assert(head.last() == before[at - 1]);
                assert(head.drop_last() == before.take(at - 1));
                let shorter = with_call(head.drop_last(), id, tick);
                assert(shorter.push(head.last()) + before.skip(at as int) == shorter + before.skip(at - 1));
            }
            at = at - 1;
        }
        let ghost head = before.take(at as int);
        if at > 0 && self.calls[at - 1].0 == id {
            assert(head.last() == before[at - 1]);
            self.calls.set(at - 1, (id, tick));
            assert(self.calls@ == head.drop_last().push((id, tick)) + before.skip(at as int));
        } else {
            if at > 0 {
                assert(head.last() == before[at - 1]);
            }
            self.calls.insert(at, (id, tick));
            assert(self.calls@ == head.push((id, tick)) + before.skip(at as int));
        }
    }

    pub fn remove(&mut self, id: i64)
        requires
            old(self).wf(),
        ensures
            final(self).calls@ == old(self).calls@.filter(not_about(id)),
            final(self).wf(),
    {
        let ghost all = self.calls@;
        let ghost keep = not_about(id);
        let mut kept: Vec<Call> = Vec::new();
        proof {
            lemma_filter_start(all, keep);
            lemma_ascending_part(all, keep);
        }
        for i in 0..self.calls.len()
            invariant
                self.calls@ == all,
                keep == not_about(id),
                kept@ == all.take(i as int).filter(keep),
        {
            proof {
                lemma_filter_step(all, keep, i as int);
            }
            let c = self.calls[i];
            if c.0 != id {
                kept.push(c);
            }
        }
        self.calls = kept;
    }

    /// Gives up on calls nobody is waiting for any more. Tells how many.
    pub fn expire(&mut self, tick: i64, ttl: u32) -> (n: u64)
        requires
            old(self).wf(),
        ensures
            final(self).calls@ == old(self).calls@.filter(still_wanted(tick, ttl)),
            n == old(self).calls@.len() - final(self).calls@.len(),
            final(self).wf(),
    {
        let ghost all = self.calls@;
        let ghost keep = still_wanted(tick, ttl);
        let mut kept: Vec<Call> = Vec::new();
        let mut n: u64 = 0;
        proof {
            lemma_filter_start(all, keep);
            lemma_ascending_part(all, keep);
        }
        for i in 0..self.calls.len()
            invariant
                self.calls@ == all,
                keep == still_wanted(tick, ttl),
                kept@ == all.take(i as int).filter(keep),
                n == i - kept@.len(),
        {
            proof {
                lemma_filter_step(all, keep, i as int);
            }
            let c = self.calls[i];
            if tick as i128 - c.1 as i128 <= ttl as i128 {
                kept.push(c);
            } else {
                n = n + 1;
            }
        }
        self.calls = kept;
        n
    }

    /// Who has a call in flight, in ascending order.
    pub fn pending_ids(&self) -> (ids: Vec<i64>)
        ensures
            ids@ == Seq::new(self.calls@.len(), |i: int| self.calls@[i].0),
    {
        let mut ids: Vec<i64> = Vec::new();
        for i in 0..self.calls.len()
            invariant
                ids@ == Seq::new(i as nat, |j: int| self.calls@[j].0),
        {
            ids.push(self.calls[i].0);
            assert(ids@ == Seq::new((i + 1) as nat, |j: int| self.calls@[j].0));
        }
        ids
    }
}

/// Everything deliberation keeps between ticks.
#[derive(Debug)]
pub struct Thinking {
    pub waiting: Waiting,
    pub stats: LlmStats,
    pub decisions: Vec<DecisionRecord>,
}

/// The people and their deliberation, with everything as sequences.
#[verifier::ext_equal]
pub struct Desk {
    pub people: Seq<CreatureV>,
    pub calls: Seq<Call>,
    pub stats: LlmStats,
    pub decisions: Seq<DecisionV>,
    pub log: Seq<EventV>,
    pub report: TickReport,
}

pub open spec fn desk_of(creatures: &Vec<Creature>, t: &Thinking, events: &Vec<Event>, report: &TickReport) -> Desk {
    Desk {
        people: people_of(creatures@),
        calls: t.waiting.calls@,
        stats: t.stats,
        decisions: decisions_of(t.decisions@),
        log: log_of(events@),
        report: *report,
    }
}

/// The world that a plan is held against.
pub struct Scene {
    pub ground: Ground,
    pub nodes: Seq<ResourceNode>,
    pub structures: Seq<Structure>,
    pub cfg: WorldConfig,
    pub tick: i64,
}

pub open spec fn scene_of(world: &World, structures: &Structures, cfg: &WorldConfig, tick: i64) -> Scene {
    Scene { ground: world.ground(), nodes: world.nodes@, structures: structures.items@, cfg: *cfg, tick }
}

/// One more, as far as can be counted.
pub open spec fn thought_more(n: i64) -> i64 {
    if n < i64::MAX {
        (n + 1) as i64
    } else {
        n
    }
}

/// What a plan starts with.
pub open spec fn opening_of(plan: PlanV) -> Seq<char> {
    if plan.steps.len() > 0 {
        plan.steps[0].goal.text()
    } else {
        "NONE"@
    }
}

/// Why the reflex policy decided rather than the model.
pub open spec fn excuse(enabled: bool) -> Seq<char> {
    if enabled {
        "NOT_SELECTED_BY_BUDGET"@
    } else {
        "LLM_DISABLED"@
    }
}

/// A creature given a plan by the reflex policy.
pub open spec fn reflexed(d: Desk, i: int, plan: PlanV, enabled: bool, s: Scene) -> Desk {
    let c = d.people[i];
    Desk {
        people: d.people.update(
            i,
            CreatureV {
                last_deliberation_tick: Some(s.tick),
                lifetime_deliberations: thought_more(c.lifetime_deliberations),
                deliberation_pressure: num(NOTHING),
                plan: Some(plan),
                dirty: true,
                ..c
            },
        ),
        decisions: d.decisions.push(
            reflex_decision(
                s.tick,
                c,
                opening_of(plan),
                plan.addresses,
                plan.rationale,
                plan.horizon,
                Some(excuse(enabled)),
                aimed_hops(c, plan, s.nodes),
            ),
        ),
        report: TickReport { deliberations: one_more(d.report.deliberations), ..d.report },
        ..d
    }
}

fn file(decisions: &mut Vec<DecisionRecord>, r: DecisionRecord)
    ensures
        decisions_of(final(decisions)@) == decisions_of(old(decisions)@).push(r@),
{
    decisions.push(r);
    assert(decisions_of(decisions@) == decisions_of(old(decisions)@).push(r@));
}

/// Gives a creature the plan that the reflex policy has for it.
pub fn adopt_reflex(
    creatures: &mut Vec<Creature>,
    thinking: &mut Thinking,
    events: &Vec<Event>,
    report: &mut TickReport,
    i: usize,
    plan: Plan,
    enabled: bool,
    world: &World,
    structures: &Structures,
    cfg: &WorldConfig,
    tick: i64,
)
    requires
        i < old(creatures)@.len(),
        i64::MIN <= old(creatures)@[i as int]@.age(tick) <= i64::MAX,
    ensures
        desk_of(final(creatures), final(thinking), events, final(report)) == reflexed(
            desk_of(old(creatures), old(thinking), events, old(report)),
            i as int,
            plan@,
            enabled,
            scene_of(world, structures, cfg, tick),
        ),
        final(thinking).waiting == old(thinking).waiting,
        final(creatures)@.len() == old(creatures)@.len(),
{
    let ghost before = creatures@;
    assert(people_of(before)[i as int] == before[i as int]@);
    let hops = plan_belief_hops(&creatures[i], &plan, world);
    let goal = if plan.steps.len() > 0 {
        plan.steps[0].goal.as_str()
    } else {
        "NONE"
    };
    proof {
        if plan.steps@.len() > 0 {
            assert(plan@.steps[0] == plan.steps@[0]@);
        }
    }
    let why = if enabled {
        "NOT_SELECTED_BY_BUDGET".to_owned()
    } else {
        "LLM_DISABLED".to_owned()
    };
    let record = DecisionRecord::tier1(
        tick,
        &creatures[i],
        goal,
        plan.addresses,
        plan.rationale.clone(),
        plan.horizon,
        Some(why),
        hops,
    );
    file(&mut thinking.decisions, record);
    {
        let c = &mut creatures[i];
        c.last_deliberation_tick = Some(tick);
        if c.lifetime_deliberations < i64::MAX {
            c.lifetime_deliberations = c.lifetime_deliberations + 1;
        }
        c.deliberation_pressure = num(NOTHING);
        c.plan = Some(plan);
        c.dirty = true;
    }
    proof {
        lemma_people_update(before, i as int, creatures@[i as int]);
        assert(creatures@ == before.update(i as int, creatures@[i as int]));
    }
    report.deliberations = count_one(report.deliberations);
}

/// What the model said.
#[derive(Debug)]
pub struct Answer {
    pub raw: String,
    pub latency_ms: u64,
    pub prompt_tokens: u32,
    pub cached_tokens: u32,
    pub response_tokens: u32,
}

/// A call that came back, with an answer unless it failed.
#[derive(Debug)]
pub struct Completion {
    pub creature_id: i64,
    pub issued_tick: i64,
    pub depth: String,
    pub prompt_hash: String,
    pub prompt_text: String,
    pub crisis_exempt: bool,
    pub repaired: bool,
    pub answer: Option<Answer>,
}

/// A plan found in an answer.
#[derive(Debug)]
pub struct Proposal {
    pub steps: Vec<Step>,
    pub horizon: u32,
    pub rationale: String,
    pub addresses: Addresses,
}

/// What was made of an answer.
#[derive(Debug)]
pub enum Verdict {
    Proposed(Proposal),
    /// Nothing usable, and why.
    Refused(String),
}

/// What thinking costs a creature, and how much its age weighs.
#[derive(Debug, Clone, Copy)]
pub struct ThinkCost {
    pub age_weight: Num,
    pub fatigue: Num,
    pub hunger: Num,
}

/// The model that is asked.
#[derive(Debug)]
pub struct Model {
    pub name: String,
    pub retain_prompt_text_ticks: Option<u32>,
}

/// How long a call was away.
pub open spec fn away(issued: i64, tick: i64) -> nat {
    if tick > issued {
        (tick - issued) as nat
    } else {
        0
    }
}

/// A call taken off the list, and its round trip counted.
pub open spec fn delivered(d: Desk, done: &Completion, tick: i64) -> Desk {
    Desk {
        calls: d.calls.filter(not_about(done.creature_id)),
        stats: LlmStats {
            round_trip_ticks: swelled(d.stats.round_trip_ticks, away(done.issued_tick, tick)),
            round_trips: swelled(d.stats.round_trips, 1),
            ..d.stats
        },
        ..d
    }
}

/// What an answer adds to the totals.
pub open spec fn billed(s: LlmStats, answer: Option<Answer>) -> LlmStats {
    match answer {
        Some(a) => LlmStats {
            latency_total_ms: swelled(s.latency_total_ms, a.latency_ms as nat),
            tokens_prompt: swelled(s.tokens_prompt, a.prompt_tokens as nat),
            tokens_cached: swelled(s.tokens_cached, a.cached_tokens as nat),
            tokens_response: swelled(s.tokens_response, a.response_tokens as nat),
            ..s
        },
        None => s,
    }
}

pub open spec fn raw_of(answer: Option<Answer>) -> Option<Seq<char>> {
    match answer {
        Some(a) => Some(a.raw@),
        None => None,
    }
}

pub open spec fn latency_of(answer: Option<Answer>) -> Option<u64> {
    match answer {
        Some(a) => Some(a.latency_ms),
        None => None,
    }
}

/// The record of a call about somebody who died meanwhile. The call still
/// happened and still cost seconds, so it is recorded rather than dropped.
pub open spec fn epitaph(done: &Completion, model: &Model, tick: i64) -> DecisionV {
    DecisionV {
        tick,
        creature_id: done.creature_id,
        tier: 2,
        age_ticks: 0,
        life_stage: LifeStage::Adult,
        goal: "FALLBACK"@,
        addresses: Addresses::Nothing,
        rationale: Seq::empty(),
        horizon_committed: 0,
        fallback_reason: Some("CREATURE_DIED_WHILE_THINKING"@),
        belief_hops: None,
        age_weight: num(NOTHING),
        think_budget: Some(done.depth@),
        prompt_hash: Some(done.prompt_hash@),
        prompt_text: None,
        raw_response: raw_of(done.answer),
        fatigue_cost: num(NOTHING),
        hunger_cost: num(NOTHING),
        crisis_exempt: done.crisis_exempt,
        latency_ms: latency_of(done.answer),
        model: Some(model.name@),
        fallback_used: true,
    }
}

/// An answer that came too late for the creature it was about.
pub open spec fn too_late(d: Desk, done: &Completion, model: &Model, tick: i64) -> Desk {
    let stats = billed(d.stats, done.answer);
    Desk {
        stats: LlmStats { rejected: swelled(stats.rejected, 1), ..stats },
        report: TickReport { llm_rejected: one_more(d.report.llm_rejected), ..d.report },
        decisions: d.decisions.push(epitaph(done, model, tick)),
        ..d
    }
}

/// Why a verdict gives a creature nothing to do, if it does not.
pub open spec fn objection(c: CreatureV, verdict: &Verdict, s: Scene) -> Option<Seq<char>> {
    match verdict {
        Verdict::Refused(why) => Some(why@),
        Verdict::Proposed(p) => if legal(
            c,
            p.steps@[0].goal,
            p.steps@[0].target,
            s.ground,
            s.nodes,
            s.structures,
            &s.cfg,
        ) {
            None
        } else {
            Some("PLAN_WENT_STALE_WHILE_THINKING"@)
        },
    }
}

/// A proposal as a plan.
pub open spec fn plan_from(p: Proposal, tick: i64) -> PlanV {
    PlanV {
        steps: steps_of(p.steps@),
        step_index: 0,
        horizon: p.horizon,
        ticks_remaining: p.horizon,
        set_tick: tick,
        rationale: p.rationale@,
        tier: 2,
        addresses: p.addresses,
    }
}

/// The record of a call about somebody who is here. What it proposed is filled
/// in where it was taken up.
pub open spec fn minutes(
    c: CreatureV,
    done: &Completion,
    why: Option<Seq<char>>,
    cost: ThinkCost,
    model: &Model,
    tick: i64,
) -> DecisionV {
    DecisionV {
        tick,
        creature_id: c.id,
        tier: 2,
        age_ticks: c.age(tick),
        life_stage: c.life_stage,
        goal: "FALLBACK"@,
        addresses: Addresses::Nothing,
        rationale: Seq::empty(),
        horizon_committed: 0,
        fallback_reason: why,
        belief_hops: None,
        age_weight: cost.age_weight,
        think_budget: Some(done.depth@),
        prompt_hash: Some(done.prompt_hash@),
        prompt_text: Some(done.prompt_text@),
        raw_response: raw_of(done.answer),
        fatigue_cost: cost.fatigue,
        hunger_cost: cost.hunger,
        crisis_exempt: done.crisis_exempt,
        latency_ms: latency_of(done.answer),
        model: Some(model.name@),
        fallback_used: why is Some,
    }
}

/// What an answer about somebody who is here adds to the totals before it is
/// judged.
pub open spec fn received(d: Desk, done: &Completion) -> Desk {
    let a = if done.repaired {
        LlmStats { repaired: swelled(d.stats.repaired, 1), ..d.stats }
    } else {
        d.stats
    };
    let b = billed(a, done.answer);
    if done.answer is None {
        Desk {
            stats: LlmStats { failed: swelled(b.failed, 1), ..b },
            report: TickReport { llm_failed: one_more(d.report.llm_failed), ..d.report },
            ..d
        }
    } else {
        Desk { stats: b, ..d }
    }
}

/// A proposal taken up.
pub open spec fn taken_up(
    d: Desk,
    i: int,
    done: &Completion,
    p: Proposal,
    cost: ThinkCost,
    model: &Model,
    s: Scene,
) -> Desk {
    let c = d.people[i];
    let plan = plan_from(p, s.tick);
    Desk {
        people: d.people.update(
            i,
            CreatureV { plan: Some(plan), last_deliberation_tick: Some(s.tick), dirty: true, ..c },
        ),
        stats: LlmStats { accepted: swelled(d.stats.accepted, 1), ..d.stats },
        report: TickReport { llm_accepted: one_more(d.report.llm_accepted), ..d.report },
        decisions: d.decisions.push(
            DecisionV {
                goal: p.steps@[0].goal.text(),
                addresses: p.addresses,
                rationale: p.rationale@,
                horizon_committed: p.horizon,
                belief_hops: aimed_hops(c, plan, s.nodes),
                ..minutes(c, done, None, cost, model, s.tick)
            },
        ),
        log: d.log.push(
            event_of(s.tick, EventKind::Deliberated, c.id).with_int("horizon"@, p.horizon as int).with(
                "depth"@,
                done.depth@,
            ),
        ),
        ..d
    }
}

/// A verdict put aside: the creature keeps whatever plan it has.
pub open spec fn put_aside(
    d: Desk,
    i: int,
    done: &Completion,
    why: Seq<char>,
    cost: ThinkCost,
    model: &Model,
    tick: i64,
) -> Desk {
    Desk {
        stats: LlmStats { rejected: swelled(d.stats.rejected, 1), ..d.stats },
        report: TickReport { llm_rejected: one_more(d.report.llm_rejected), ..d.report },
        decisions: d.decisions.push(minutes(d.people[i], done, Some(why), cost, model, tick)),
        ..d
    }
}

/// What becomes of a call that came back.
pub open spec fn answered(
    d: Desk,
    done: &Completion,
    verdict: &Verdict,
    cost: ThinkCost,
    model: &Model,
    s: Scene,
) -> Desk {
    let a = delivered(d, done, s.tick);
    if !is_here(a.people, done.creature_id) {
        too_late(a, done, model, s.tick)
    } else {
        let i = place_of(a.people, done.creature_id);
        let b = received(a, done);
        match (objection(a.people[i], verdict, s), verdict) {
            (None, Verdict::Proposed(p)) => taken_up(b, i, done, *p, cost, model, s),
            (Some(why), _) => put_aside(b, i, done, why, cost, model, s.tick),
            _ => b,
        }
    }
}

fn bill(stats: &mut LlmStats, answer: &Option<Answer>)
    ensures
        *final(stats) == billed(*old(stats), *answer),
{
    if let Some(a) = answer {
        stats.latency_total_ms = swell(stats.latency_total_ms, a.latency_ms);
        stats.tokens_prompt = swell(stats.tokens_prompt, a.prompt_tokens as u64);
        stats.tokens_cached = swell(stats.tokens_cached, a.cached_tokens as u64);
        stats.tokens_response = swell(stats.tokens_response, a.response_tokens as u64);
    }
}

fn raw_text(answer: &Option<Answer>) -> (r: Option<String>)
    ensures
        crate::records::words(r) == raw_of(*answer),
{
    match answer {
        Some(a) => Some(a.raw.clone()),
        None => None,
    }
}

fn latency(answer: &Option<Answer>) -> (r: Option<u64>)
    ensures
        r == latency_of(*answer),
{
    match answer {
        Some(a) => Some(a.latency_ms),
        None => None,
    }
}

fn write_epitaph(done: &Completion, model: &Model, tick: i64) -> (r: DecisionRecord)
    ensures
        r@ == epitaph(done, model, tick),
{
    DecisionRecord {
        tick,
        creature_id: done.creature_id,
        tier: 2,
        age_ticks: 0,
        life_stage: LifeStage::Adult,
        goal: "FALLBACK".to_owned(),
        addresses: Addresses::Nothing,
        rationale: String::new(),
        horizon_committed: 0,
        fallback_reason: Some("CREATURE_DIED_WHILE_THINKING".to_owned()),
        belief_hops: None,
        age_weight: num(NOTHING),
        think_budget: Some(done.depth.clone()),
        prompt_hash: Some(done.prompt_hash.clone()),
        prompt_text: None,
        raw_response: raw_text(&done.answer),
        fatigue_cost: num(NOTHING),
        hunger_cost: num(NOTHING),
        crisis_exempt: done.crisis_exempt,
        latency_ms: latency(&done.answer),
        model: Some(model.name.clone()),
        fallback_used: true,
    }
}

fn keep_minutes(
    c: &Creature,
    done: &Completion,
    why: Option<String>,
    cost: ThinkCost,
    model: &Model,
    tick: i64,
) -> (r: DecisionRecord)
    requires
        i64::MIN <= c@.age(tick) <= i64::MAX,
    ensures
        r@ == minutes(c@, done, crate::records::words(why), cost, model, tick),
{
    let keep = match model.retain_prompt_text_ticks {
        Some(n) => true_for_recent(tick, n),
        None => true,
    };
    let fallback_used = why.is_some();
    DecisionRecord {
        tick,
        creature_id: c.id,
        tier: 2,
        age_ticks: c.age(tick),
        life_stage: c.life_stage,
        goal: "FALLBACK".to_owned(),
        addresses: Addresses::Nothing,
        rationale: String::new(),
        horizon_committed: 0,
        fallback_reason: why,
        belief_hops: None,
        age_weight: cost.age_weight,
        think_budget: Some(done.depth.clone()),
        prompt_hash: Some(done.prompt_hash.clone()),
        prompt_text: if keep {
            Some(done.prompt_text.clone())
        } else {
            None
        },
        raw_response: raw_text(&done.answer),
        fatigue_cost: cost.fatigue,
        hunger_cost: cost.hunger,
        crisis_exempt: done.crisis_exempt,
        latency_ms: latency(&done.answer),
        model: Some(model.name.clone()),
        fallback_used,
    }
}

/// Takes up a proposal that still holds.
fn take_up(
    creatures: &mut Vec<Creature>,
    thinking: &mut Thinking,
    events: &mut Vec<Event>,
    report: &mut TickReport,
    i: usize,
    done: &Completion,
    p: Proposal,
    cost: ThinkCost,
    model: &Model,
    world: &World,
    structures: &Structures,
    cfg: &WorldConfig,
    tick: i64,
)
    requires
        i < old(creatures)@.len(),
        p.steps@.len() > 0,
        i64::MIN <= old(creatures)@[i as int]@.age(tick) <= i64::MAX,
    ensures
        desk_of(final(creatures), final(thinking), final(events), final(report)) == taken_up(
            desk_of(old(creatures), old(thinking), old(events), old(report)),
            i as int,
            done,
            p,
            cost,
            model,
            scene_of(world, structures, cfg, tick),
        ),
        final(thinking).waiting == old(thinking).waiting,
        final(creatures)@.len() == old(creatures)@.len(),
{
    let ghost before = creatures@;
    assert(people_of(before)[i as int] == before[i as int]@);
    thinking.stats.accepted = swell(thinking.stats.accepted, 1);
    report.llm_accepted = count_one(report.llm_accepted);
    let mut record = keep_minutes(&creatures[i], done, None, cost, model, tick);
    record.goal = p.steps[0].goal.as_str().to_owned();
    record.addresses = p.addresses;
    record.rationale = p.rationale.clone();
    record.horizon_committed = p.horizon;
    let horizon = p.horizon;
    let ghost meant = plan_from(p, tick);
    let plan = Plan {
        steps: p.steps,
        step_index: 0,
        horizon: p.horizon,
        ticks_remaining: p.horizon,
        set_tick: tick,
        rationale: p.rationale,
        tier: 2,
        addresses: p.addresses,
    };
    assert(plan@ == meant);
    record.belief_hops = plan_belief_hops(&creatures[i], &plan, world);
    let id = creatures[i].id;
    {
        let c = &mut creatures[i];
        c.plan = Some(plan);
        c.last_deliberation_tick = Some(tick);
        c.dirty = true;
    }
    proof {
        lemma_people_update(before, i as int, creatures@[i as int]);
        assert(creatures@ == before.update(i as int, creatures@[i as int]));
    }
    say(
        events,
        Event::new(tick, EventKind::Deliberated, id).with_int("horizon", horizon as i64).with(
            "depth",
            done.depth.as_str(),
        ),
    );
    file(&mut thinking.decisions, record);
}

/// A proposal whose first step can be judged: there is one, and where judging it
/// reads the ground it is on the map.
pub open spec fn is_judgeable(verdict: &Verdict, world: &World) -> bool {
    verdict matches Verdict::Proposed(p) ==> p.steps@.len() > 0 && (reads_ground(p.steps@[0].goal) ==> (
    p.steps@[0].target.tile_in(world.nodes@) matches Some(at) ==> tile_index(
        world.width,
        at.0 as int,
        at.1 as int,
    ) < world.tiles@.len()))
}

/// Takes delivery of one answer.
pub fn adopt_completion(
    creatures: &mut Vec<Creature>,
    thinking: &mut Thinking,
    events: &mut Vec<Event>,
    report: &mut TickReport,
    done: &Completion,
    verdict: Verdict,
    cost: ThinkCost,
    model: &Model,
    world: &World,
    structures: &Structures,
    cfg: &WorldConfig,
    tick: i64,
)
    requires
        old(thinking).waiting.wf(),
        world.wf(),
        is_judgeable(&verdict, world),
        forall|i: int|
            0 <= i < old(creatures)@.len() ==> i64::MIN <= (#[trigger] old(creatures)@[i])@.age(tick) <= i64::MAX,
    ensures
        desk_of(final(creatures), final(thinking), final(events), final(report)) == answered(
            desk_of(old(creatures), old(thinking), old(events), old(report)),
            done,
            &verdict,
            cost,
            model,
            scene_of(world, structures, cfg, tick),
        ),
        final(thinking).waiting.wf(),
        final(creatures)@.len() == old(creatures)@.len(),
{
    let ghost s = scene_of(world, structures, cfg, tick);
    thinking.waiting.remove(done.creature_id);
    let gone: u64 = if tick > done.issued_tick {
        (tick as i128 - done.issued_tick as i128) as u64
    } else {
        0
    };
    thinking.stats.round_trip_ticks = swell(thinking.stats.round_trip_ticks, gone);
    thinking.stats.round_trips = swell(thinking.stats.round_trips, 1);
    let ghost a = desk_of(creatures, thinking, events, report);
    assert(a == delivered(desk_of(old(creatures), old(thinking), old(events), old(report)), done, tick));
    let i = match index_of(creatures, done.creature_id) {
        Some(i) => i,
        None => {
            bill(&mut thinking.stats, &done.answer);
            thinking.stats.rejected = swell(thinking.stats.rejected, 1);
            report.llm_rejected = count_one(report.llm_rejected);
            let record = write_epitaph(done, model, tick);
            file(&mut thinking.decisions, record);
            return ;
        },
    };
    assert(people_of(creatures@)[i as int] == creatures@[i as int]@);
    if done.repaired {
        thinking.stats.repaired = swell(thinking.stats.repaired, 1);
    }
    bill(&mut thinking.stats, &done.answer);
    if done.answer.is_none() {
        thinking.stats.failed = swell(thinking.stats.failed, 1);
        report.llm_failed = count_one(report.llm_failed);
    }
    let ghost b = desk_of(creatures, thinking, events, report);
    assert(b == received(a, done));
    let ghost judged = verdict;
    let why = match verdict {
        Verdict::Proposed(p) => {
            if is_legal(&creatures[i], p.steps[0].goal, p.steps[0].target, world, structures, cfg) {
                assert(objection(a.people[i as int], &judged, s) is None);
                take_up(
                    creatures,
                    thinking,
                    events,
                    report,
                    i,
                    done,
                    p,
                    cost,
                    model,
                    world,
                    structures,
                    cfg,
                    tick,
                );
                return ;
            }
            "PLAN_WENT_STALE_WHILE_THINKING".to_owned()
        },
        Verdict::Refused(why) => why,
    };
    thinking.stats.rejected = swell(thinking.stats.rejected, 1);
    report.llm_rejected = count_one(report.llm_rejected);
    let record = keep_minutes(&creatures[i], done, Some(why), cost, model, tick);
    file(&mut thinking.decisions, record);
}

/// Whatever comes back, nobody is left without a plan they had: an answer either
/// replaces a plan or leaves it, and touches nobody else's.
pub proof fn law_an_answer_takes_no_plan_away(
    d: Desk,
    done: &Completion,
    verdict: &Verdict,
    cost: ThinkCost,
    model: &Model,
    s: Scene,
    k: int,
)
    requires
        0 <= k < d.people.len(),
        d.people[k].plan is Some,
    ensures
        answered(d, done, verdict, cost, model, s).people.len() == d.people.len(),
        answered(d, done, verdict, cost, model, s).people[k].plan is Some,
        d.people[k].id != done.creature_id ==> answered(d, done, verdict, cost, model, s).people[k] == d.people[k],
{
    crate::town::lemma_place(d.people, done.creature_id);
}

/// Every call is in the record: each answer adds exactly one decision.
pub proof fn law_every_call_is_recorded(
    d: Desk,
    done: &Completion,
    verdict: &Verdict,
    cost: ThinkCost,
    model: &Model,
    s: Scene,
)
    ensures
        answered(d, done, verdict, cost, model, s).decisions.len() == d.decisions.len() + 1,
        answered(d, done, verdict, cost, model, s).decisions.last().creature_id == done.creature_id,
        answered(d, done, verdict, cost, model, s).decisions.last().tier == 2,
{
    crate::town::lemma_place(d.people, done.creature_id);
}

/// Somebody who might be asked to think, with what the budget says of them.
#[derive(Debug, Clone, Copy)]
pub struct Candidate {
    /// Their place in the list of creatures.
    pub place: usize,
    /// How much they want to think.
    pub pressure: Num,
    pub crisis: bool,
    /// They can pay for it.
    pub affordable: bool,
    /// They will outlive the answer.
    pub worth_asking: bool,
}

/// How eager a candidate is, unless it is out of the question.
pub open spec fn eagerness(people: Seq<CreatureV>, calls: Seq<Call>) -> spec_fn(Candidate) -> Option<Num> {
    |c: Candidate|
        if c.place < people.len() && !is_waiting(calls, people[c.place as int].id) && c.affordable && c.worth_asking {
            Some(c.pressure)
        } else {
            None
        }
}

/// The candidates worth asking, by their place in the list of candidates: the
/// most eager first, and among equals the one listed first.
pub open spec fn asking_order(candidates: Seq<Candidate>, people: Seq<CreatureV>, calls: Seq<Call>) -> Seq<usize> {
    let order = ranked_by(candidates, eagerness(people, calls), candidates.len() as int);
    top_of(order, order.len())
}

/// Ranks those who might be asked.
pub fn rank_candidates(candidates: &Vec<Candidate>, creatures: &Vec<Creature>, waiting: &Waiting) -> (r: Vec<usize>)
    ensures
        r@ == asking_order(candidates@, people_of(creatures@), waiting.calls@),
{
    let ghost people = people_of(creatures@);
    let ghost f = eagerness(people, waiting.calls@);
    let mut order: Vec<(usize, Num)> = Vec::new();
    for i in 0..candidates.len()
        invariant
            people == people_of(creatures@),
            f == eagerness(people, waiting.calls@),
            order@ == ranked_by(candidates@, f, i as int),
    {
        let c = candidates[i];
        if c.place < creatures.len() && c.affordable && c.worth_asking {
            assert(people[c.place as int] == creatures@[c.place as int]@);
            if !waiting.contains(creatures[c.place].id) {
                rank_in(&mut order, (i, c.pressure));
            }
        }
    }
    top(&order, order.len())
}

/// What came of trying to ask somebody.
#[derive(Debug, Clone, Copy, PartialEq, Eq, Structural)]
pub enum Posting {
    Sent,
    /// There was nothing to ask them.
    Nothing,
    /// Nobody took the question.
    Full,
}

/// A round of questions: who is to be asked, in order, and how far it has come.
#[derive(Debug)]
pub struct Asking {
    /// By place in the list of candidates.
    pub order: Vec<usize>,
    pub next: usize,
    pub sent: u32,
    pub budget: u32,
}

/// A round of questions with its order as a sequence.
#[verifier::ext_equal]
pub struct AskingV {
    pub order: Seq<usize>,
    pub next: int,
    pub sent: u32,
    pub budget: u32,
}

impl View for Asking {
    type V = AskingV;

    open spec fn view(&self) -> AskingV {
        AskingV { order: self.order@, next: self.next as int, sent: self.sent, budget: self.budget }
    }
}

impl AskingV {
    /// Whether anybody is left to ask, as far as the budget and the room go.
    pub open spec fn goes_on(self, room: bool) -> bool {
        self.sent < self.budget && room && self.next < self.order.len()
    }

    /// The round after one more has been tried. Only what was sent counts against
    /// the budget; somebody there was nothing to ask of is passed over; and where
    /// nobody took the question the round is over.
    pub open spec fn after(self, p: Posting) -> AskingV {
        match p {
            Posting::Sent => AskingV { next: self.next + 1, sent: one_more(self.sent), ..self },
            Posting::Nothing => AskingV { next: self.next + 1, ..self },
            Posting::Full => AskingV { next: self.order.len() as int, ..self },
        }
    }

    /// The round after the first `n` of some tries.
    pub open spec fn after_all(self, tries: Seq<Posting>, n: nat) -> AskingV
        decreases n,
    {
        if n == 0 {
            self
        } else {
            self.after_all(tries, (n - 1) as nat).after(tries[n - 1])
        }
    }
}

impl Asking {
    pub open spec fn wf(&self) -> bool {
        self.next <= self.order@.len()
    }

    /// A round among some candidates, the most eager first.
    pub fn begin(candidates: &Vec<Candidate>, creatures: &Vec<Creature>, waiting: &Waiting, budget: u32) -> (r: Self)
        ensures
            r@ == (AskingV {
                order: asking_order(candidates@, people_of(creatures@), waiting.calls@),
                next: 0,
                sent: 0,
                budget,
            }),
            r.wf(),
    {
        Asking { order: rank_candidates(candidates, creatures, waiting), next: 0, sent: 0, budget }
    }

    /// Whom to try next, by place in the list of candidates; none where the round
    /// is over.
    pub fn whom(&self, room: bool) -> (r: Option<usize>)
        requires
            self.wf(),
        ensures
            r == if self@.goes_on(room) {
                Some(self@.order[self@.next])
            } else {
                None
            },
    {
        if self.sent < self.budget && room && self.next < self.order.len() {
            Some(self.order[self.next])
        } else {
            None
        }
    }

    /// Takes note of what came of the last try.
    pub fn note(&mut self, p: Posting)
        requires
            old(self).wf(),
            old(self).next < old(self).order@.len(),
        ensures
            final(self)@ == old(self)@.after(p),
            final(self).wf(),
    {
        let all = self.order.len();
        match p {
            Posting::Sent => {
                self.next = self.next + 1;
                self.sent = count_one(self.sent);
            },
            Posting::Nothing => {
                self.next = self.next + 1;
            },
            Posting::Full => {
                self.next = all;
            },
        }
    }
}

pub open spec fn was_sent() -> spec_fn(Posting) -> bool {
    |p: Posting| p == Posting::Sent
}

/// Only what was sent counts: however many are passed over, the budget is spent on
/// questions that went out, and a round that went on at every try never spends more.
pub proof fn law_only_what_is_sent_is_counted(round: AskingV, tries: Seq<Posting>, n: nat)
    requires
        round.sent == 0,
        n <= tries.len(),
        forall|k: nat| k < n ==> (#[trigger] round.after_all(tries, k)).goes_on(true),
    ensures
        round.after_all(tries, n).sent == count_where(tries.take(n as int), was_sent()),
        round.after_all(tries, n).sent <= round.budget,
        round.after_all(tries, n).budget == round.budget,
        round.after_all(tries, n).order == round.order,
    decreases n,
{
    if n > 0 {
        assert forall|k: nat| k < n - 1 implies (#[trigger] round.after_all(tries, k)).goes_on(true) by {}
        law_only_what_is_sent_is_counted(round, tries, (n - 1) as nat);
        assert(round.after_all(tries, (n - 1) as nat).goes_on(true));
        assert(tries.take(n as int).drop_last() == tries.take(n - 1));
    } else {
        assert(tries.take(0) == Seq::<Posting>::empty());
    }
}

/// Nobody with a call in flight is asked again.
pub proof fn law_nobody_is_asked_twice(
    candidates: Seq<Candidate>,
    people: Seq<CreatureV>,
    calls: Seq<Call>,
    k: int,
)
    requires
        0 <= k < asking_order(candidates, people, calls).len(),
        candidates.len() <= usize::MAX,
    ensures
        asking_order(candidates, people, calls)[k] < candidates.len(),
        candidates[asking_order(candidates, people, calls)[k] as int].place < people.len(),
        !is_waiting(calls, people[candidates[asking_order(candidates, people, calls)[k] as int].place as int].id),
{
    let f = eagerness(people, calls);
    lemma_ranked_are_scored(candidates, f, candidates.len() as int, k);
}

proof fn lemma_insert_scored_members(order: Seq<(usize, Num)>, x: (usize, Num), k: int)
    requires
        0 <= k < insert_scored(order, x).len(),
    ensures
        insert_scored(order, x)[k] == x || order.contains(insert_scored(order, x)[k]),
        insert_scored(order, x).len() == order.len() + 1,
    decreases order.len(),
{
    let after = insert_scored(order, x);
    if order.len() == 0 || order.last().1.order_key() >= x.1.order_key() {
        if k < order.len() {
            assert(order[k] == after[k]);
        }
    } else {
        let shorter = order.drop_last();
        if k < insert_scored(shorter, x).len() {
            lemma_insert_scored_members(shorter, x, k);
            if after[k] != x {
                let j = shorter.index_of(after[k]);
                assert(order[j] == after[k]);
            }
        } else {
            assert(order[order.len() - 1] == after[k]);
        }
        if insert_scored(shorter, x).len() > 0 {
            lemma_insert_scored_members(shorter, x, 0);
        }
        lemma_insert_scored_len(order, x);
    }
}

proof fn lemma_insert_scored_len(order: Seq<(usize, Num)>, x: (usize, Num))
    ensures
        insert_scored(order, x).len() == order.len() + 1,
    decreases order.len(),
{
    if order.len() > 0 {
        lemma_insert_scored_len(order.drop_last(), x);
    }
}

proof fn lemma_ranked_are_scored(s: Seq<Candidate>, f: spec_fn(Candidate) -> Option<Num>, n: int, k: int)
    requires
        0 <= n <= s.len(),
        s.len() <= usize::MAX,
        0 <= k < ranked_by(s, f, n).len(),
    ensures
        ranked_by(s, f, n)[k].0 < n,
        f(s[ranked_by(s, f, n)[k].0 as int]) is Some,
    decreases n,
{
    if n > 0 {
        let before = ranked_by(s, f, n - 1);
        match f(s[n - 1]) {
            Some(q) => {
                let x = ((n - 1) as usize, q);
                lemma_insert_scored_members(before, x, k);
                let y = ranked_by(s, f, n)[k];
                if y != x {
                    let j = before.index_of(y);
                    lemma_ranked_are_scored(s, f, n - 1, j);
                }
            },
            None => {
                lemma_ranked_are_scored(s, f, n - 1, k);
            },
        }
    }
}

/// A creature asked to think. It pays now, whenever the answer happens to arrive,
/// and the same for however long a plan: that is the whole incentive to commit.
pub open spec fn asked(d: Desk, i: int, cost: ThinkCost, tick: i64) -> Desk {
    let c = d.people[i];
    Desk {
        people: d.people.update(
            i,
            CreatureV {
                fatigue: (c.fatigue - cost.fatigue).max(num(NOTHING)),
                hunger: (c.hunger - cost.hunger).max(num(NOTHING)),
                lifetime_think_fatigue: c.lifetime_think_fatigue + cost.fatigue,
                dirty: true,
                ..c
            },
        ),
        calls: with_call(d.calls, c.id, tick),
        stats: LlmStats { dispatched: swelled(d.stats.dispatched, 1), ..d.stats },
        report: TickReport { llm_dispatched: one_more(d.report.llm_dispatched), ..d.report },
        ..d
    }
}

/// Records that a creature was asked to think.
pub fn record_dispatch(
    creatures: &mut Vec<Creature>,
    thinking: &mut Thinking,
    events: &Vec<Event>,
    report: &mut TickReport,
    i: usize,
    cost: ThinkCost,
    tick: i64,
)
    requires
        i < old(creatures)@.len(),
        old(thinking).waiting.wf(),
    ensures
        desk_of(final(creatures), final(thinking), events, final(report)) == asked(
            desk_of(old(creatures), old(thinking), events, old(report)),
            i as int,
            cost,
            tick,
        ),
        final(thinking).waiting.wf(),
        final(creatures)@.len() == old(creatures)@.len(),
{
    let ghost before = creatures@;
    assert(people_of(before)[i as int] == before[i as int]@);
    let id = creatures[i].id;
    {
        let c = &mut creatures[i];
        c.fatigue = (c.fatigue - cost.fatigue).max(num(NOTHING));
        c.hunger = (c.hunger - cost.hunger).max(num(NOTHING));
        c.lifetime_think_fatigue = c.lifetime_think_fatigue + cost.fatigue;
        c.dirty = true;
    }
    proof {
        lemma_people_update(before, i as int, creatures@[i as int]);
        assert(creatures@ == before.update(i as int, creatures@[i as int]));
    }
    thinking.waiting.insert(id, tick);
    thinking.stats.dispatched = swell(thinking.stats.dispatched, 1);
    report.llm_dispatched = count_one(report.llm_dispatched);
}

/// Gives up on the calls nobody is waiting for any more, and counts them.
pub fn expire_calls(thinking: &mut Thinking, ttl: u32, tick: i64)
    requires
        old(thinking).waiting.wf(),
    ensures
        final(thinking).waiting.calls@ == old(thinking).waiting.calls@.filter(still_wanted(tick, ttl)),
        final(thinking).stats == (LlmStats {
            expired: swelled(
                old(thinking).stats.expired,
                (old(thinking).waiting.calls@.len() - final(thinking).waiting.calls@.len()) as nat,
            ),
            ..old(thinking).stats
        }),
        final(thinking).decisions == old(thinking).decisions,
        final(thinking).waiting.wf(),
{
    let n = thinking.waiting.expire(tick, ttl);
    thinking.stats.expired = swell(thinking.stats.expired, n);
}

/// How many ticks an answer takes, by what has actually happened once there is
/// any evidence.
pub open spec fn expected_latency(stats: LlmStats) -> Num {
    if stats.round_trips < 3 {
        num(UNKNOWN_LATENCY)
    } else {
        stats.round_trip()
    }
}

pub fn observed_latency_ticks(stats: &LlmStats) -> (r: Num)
    ensures
        r == expected_latency(*stats),
{
    if stats.round_trips < 3 {
        num(UNKNOWN_LATENCY)
    } else {
        stats.mean_round_trip_ticks()
    }
}

/// Thinking costs: who is asked about pays in fatigue and hunger, down to nothing at
/// worst, is waited for from that tick, and nobody else is touched. It is counted.
pub proof fn law_thinking_costs(d: Desk, i: int, cost: ThinkCost, tick: i64)
    requires
        0 <= i < d.people.len(),
    ensures
        ({
            let after = asked(d, i, cost, tick);
            let (c, e) = (d.people[i], after.people[i]);
            &&& e.fatigue == (c.fatigue - cost.fatigue).max(num(0))
            &&& e.hunger == (c.hunger - cost.hunger).max(num(0))
            &&& e.lifetime_think_fatigue == c.lifetime_think_fatigue + cost.fatigue
            &&& e == (CreatureV {
                fatigue: e.fatigue,
                hunger: e.hunger,
                lifetime_think_fatigue: e.lifetime_think_fatigue,
                dirty: true,
                ..c
            })
            &&& after.people == d.people.update(i, e)
            &&& after.calls == with_call(d.calls, c.id, tick)
            &&& after.stats == (LlmStats { dispatched: swelled(d.stats.dispatched, 1), ..d.stats })
            &&& after.report == (TickReport { llm_dispatched: one_more(d.report.llm_dispatched), ..d.report })
            &&& after.log == d.log && after.decisions == d.decisions
        }),
{
}

/// Whoever is asked about is waited for, once, and everybody else as before; and when
/// the answer comes they are waited for no more.
pub proof fn law_whoever_is_asked_is_waited_for(calls: Seq<Call>, id: i64, tick: i64, c: Call)
    requires
        calls_ascend(calls),
    ensures
        calls_ascend(with_call(calls, id, tick)),
        with_call(calls, id, tick).contains((id, tick)),
        c.0 != id ==> (with_call(calls, id, tick).contains(c) <==> calls.contains(c)),
        c.0 == id ==> (with_call(calls, id, tick).contains(c) <==> c.1 == tick),
        calls.filter(not_about(id)).contains(c) <==> calls.contains(c) && c.0 != id,
    decreases calls.len(),
{
    lemma_filtered(calls, not_about(id), c);
    let after = with_call(calls, id, tick);
    if calls.len() == 0 || calls.last().0 < id {
        assert(after[calls.len() as int] == (id, tick));
        if calls.contains(c) {
            let k = calls.index_of(c);
            assert(after[k] == c);
        }
        if after.contains(c) {
            let k = after.index_of(c);
            if k < calls.len() {
                assert(calls[k] == c);
                assert(calls[k].0 <= calls.last().0);
            }
        }
    } else {
        let shorter = calls.drop_last();
        let n = shorter.len() as int;
        assert(calls[n] == calls.last());
        assert(calls_ascend(shorter)) by {
            assert forall|i: int, j: int| 0 <= i < j < shorter.len() implies (#[trigger] shorter[i]).0 < (
            #[trigger] shorter[j]).0 by {
                assert(calls[i].0 < calls[j].0);
            }
        }
        if calls.contains(c) {
            let k = calls.index_of(c);
            if k < n {
                assert(shorter[k] == c);
            }
        }
        if shorter.contains(c) {
            let k = shorter.index_of(c);
            assert(calls[k] == c);
            assert(calls[k].0 < calls[n].0);
        }
        if calls.last().0 == id {
            assert(after[n] == (id, tick));
            if after.contains(c) {
                let k = after.index_of(c);
                if k < n {
                    assert(shorter[k] == c);
                }
            }
            if shorter.contains(c) {
                let k = shorter.index_of(c);
                assert(after[k] == c);
            }
        } else {
            law_whoever_is_asked_is_waited_for(shorter, id, tick, c);
            let inner = with_call(shorter, id, tick);
            assert(after == inner.push(calls.last()));
            let at = inner.index_of((id, tick));
            assert(after[at] == (id, tick));
            assert(after[inner.len() as int] == calls.last());
            if inner.contains(c) {
                let k = inner.index_of(c);
                assert(after[k] == c);
            }
            if after.contains(c) {
                let k = after.index_of(c);
                if k < inner.len() {
                    assert(inner[k] == c);
                }
            }
            assert forall|i: int, j: int| 0 <= i < j < after.len() implies (#[trigger] after[i]).0 < (
            #[trigger] after[j]).0 by {
                if j == inner.len() {
                    let x = inner[i];
                    assert(inner.contains(x));
                    law_whoever_is_asked_is_waited_for(shorter, id, tick, x);
                    if x.0 != id {
                        let m = shorter.index_of(x);
                        assert(calls[m].0 < calls[n].0);
                    }
                } else {
                    assert(inner[i].0 < inner[j].0);
                }
            }
        }
    }
}

/// An answer is followed exactly if the one it is for is still there, it was a
/// proposal, and its first step can still be done; then it is their plan from that
/// tick, for as long as it was meant. One that is not followed changes nobody, and
/// is counted as refused.
pub proof fn law_what_becomes_of_an_answer(
    d: Desk,
    done: &Completion,
    verdict: &Verdict,
    cost: ThinkCost,
    model: &Model,
    s: Scene,
)
    ensures
        ({
            let after = answered(d, done, verdict, cost, model, s);
            let i = place_of(d.people, done.creature_id);
            let here = is_here(d.people, done.creature_id);
            let followed = here && (verdict matches Verdict::Proposed(p) && legal(
                d.people[i],
                p.steps@[0].goal,
                p.steps@[0].target,
                s.ground,
                s.nodes,
                s.structures,
                &s.cfg,
            ));
            &&& !followed ==> after.people == d.people && after.log == d.log
            &&& !followed ==> after.stats.rejected == swelled(d.stats.rejected, 1) && after.stats.accepted
                == d.stats.accepted
            &&& followed ==> after.stats.accepted == swelled(d.stats.accepted, 1) && after.stats.rejected
                == d.stats.rejected
            &&& followed ==> (verdict matches Verdict::Proposed(p) && (after.people[i].plan matches Some(plan) && plan.steps
                == steps_of(p.steps@) && plan.step_index == 0 && plan.horizon == p.horizon && plan.ticks_remaining
                == p.horizon && plan.set_tick == s.tick && plan.addresses == p.addresses && plan.tier == 2))
            &&& followed ==> after.people == d.people.update(
                i,
                CreatureV {
                    plan: after.people[i].plan,
                    last_deliberation_tick: Some(s.tick),
                    dirty: true,
                    ..d.people[i]
                },
            )
            &&& after.stats.round_trips == swelled(d.stats.round_trips, 1)
            &&& after.stats.dispatched == d.stats.dispatched
            &&& here && done.answer is None ==> after.stats.failed == swelled(d.stats.failed, 1)
            &&& done.answer is Some ==> after.stats.failed == d.stats.failed
            &&& here && done.answer is None ==> after.report.llm_failed == one_more(d.report.llm_failed)
            &&& followed ==> after.report.llm_accepted == one_more(d.report.llm_accepted)
            &&& !followed ==> after.report.llm_rejected == one_more(d.report.llm_rejected)
            &&& after.calls == d.calls.filter(not_about(done.creature_id))
        }),
{
    lemma_place(d.people, done.creature_id);
}

/// Who is not asked about acts on reflex: they have that plan, have thought once
/// more, have no more wish to for now, and it is recorded as reflex, with why.
pub proof fn law_reflex_gives_a_plan(d: Desk, i: int, plan: PlanV, enabled: bool, s: Scene)
    requires
        0 <= i < d.people.len(),
    ensures
        ({
            let after = reflexed(d, i, plan, enabled, s);
            let (c, e) = (d.people[i], after.people[i]);
            let r = after.decisions.last();
            &&& e.plan == Some(plan) && e.deliberation_pressure == num(0) && e.last_deliberation_tick == Some(s.tick)
            &&& c.lifetime_deliberations < i64::MAX ==> e.lifetime_deliberations == c.lifetime_deliberations + 1
            &&& e.hunger == c.hunger && e.fatigue == c.fatigue && e.pack == c.pack && e.x == c.x && e.y == c.y
            &&& after.people == d.people.update(i, e)
            &&& after.decisions.len() == d.decisions.len() + 1
            &&& r.tier == 1 && r.creature_id == c.id && r.tick == s.tick && r.fallback_used
            &&& r.fallback_reason == Some(if enabled { "NOT_SELECTED_BY_BUDGET"@ } else { "LLM_DISABLED"@ })
            &&& after.report == (TickReport { deliberations: one_more(d.report.deliberations), ..d.report })
            &&& after.stats == d.stats && after.calls == d.calls
        }),
{
}

/// Until three answers have come back the wait is taken to be forty-five ticks; from
/// then on what it has been on average.
pub proof fn law_the_wait_to_expect(stats: LlmStats)
    ensures
        stats.round_trips < 3 ==> expected_latency(stats) == num(0x4234_0000),
        stats.round_trips >= 3 ==> expected_latency(stats) == of_int(stats.round_trip_ticks as int) / of_int(
            stats.round_trips as int,
        ),
{
}

/// A call is given up when it has been out longer than it may, and not before.
pub proof fn law_old_calls_are_given_up(calls: Seq<Call>, tick: i64, ttl: u32, c: Call)
    ensures
        calls.filter(still_wanted(tick, ttl)).contains(c) <==> calls.contains(c) && tick - c.1 <= ttl,
{
    lemma_filtered(calls, still_wanted(tick, ttl), c);
}

/// Who is asked about can afford it, is worth it and is not waited for already, and
/// whoever wants to think most comes first.
pub proof fn law_who_is_asked_about(candidates: Seq<Candidate>, people: Seq<CreatureV>, calls: Seq<Call>, k: int)
    requires
        0 <= k < asking_order(candidates, people, calls).len(),
        candidates.len() <= usize::MAX,
    ensures
        ({
            let order = asking_order(candidates, people, calls);
            let c = candidates[order[k] as int];
            &&& order[k] < candidates.len()
            &&& c.affordable && c.worth_asking && c.place < people.len()
            &&& forall|l: int|
                k < l < order.len() ==> c.pressure.order_key() >= candidates[#[trigger] order[l] as int].pressure.order_key()
        }),
{
    let f = eagerness(people, calls);
    let all = ranked_by(candidates, f, candidates.len() as int);
    law_ranking_is_ordered(candidates, f, candidates.len() as int);
    let order = asking_order(candidates, people, calls);
    assert(order[k] == all[k].0);
    assert(all.contains((all[k].0, all[k].1)));
    assert forall|l: int| k < l < order.len() implies candidates[order[k] as int].pressure.order_key() >= candidates[
    #[trigger] order[l] as int].pressure.order_key() by {
        assert(order[l] == all[l].0);
        assert(all.contains((all[l].0, all[l].1)));
        assert(outranks(all[k], all[l]));
    }
}

/// What an answer cost is added up, each under its own name; no answer costs nothing.
pub proof fn law_what_an_answer_cost(s: LlmStats, a: Answer)
    ensures
        billed(s, None) == s,
        ({
            let t = billed(s, Some(a));
            &&& t.latency_total_ms == swelled(s.latency_total_ms, a.latency_ms as nat)
            &&& t.tokens_prompt == swelled(s.tokens_prompt, a.prompt_tokens as nat)
            &&& t.tokens_cached == swelled(s.tokens_cached, a.cached_tokens as nat)
            &&& t.tokens_response == swelled(s.tokens_response, a.response_tokens as nat)
            &&& t.accepted == s.accepted && t.rejected == s.rejected && t.failed == s.failed
        }),
{
}

} // verus!
