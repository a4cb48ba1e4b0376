//! What a tick leaves behind: its report, the decisions made in it, the plans
//! that ended and the word that was passed on.

use crate::actions::{AbortReason, StepV};
use crate::creature::{Addresses, Creature, CreatureV, LifeStage, Plan, PlanV};
use crate::knowledge::{Belief, Channel};
use crate::lists::{first_where, lemma_first_where_is};
use crate::num::{num, of_int, Num, NOTHING, ONE};
use crate::world::{ResourceNode, World};
use vstd::prelude::*;
use vstd::string::*;

verus! {

/// Per-phase wall-clock cost of one tick, in microseconds.
#[derive(Debug, Clone, Copy, PartialEq, Eq, Structural)]
pub struct PhaseTimings {
    pub world: u64,
    pub needs: u64,
    pub plans: u64,
    pub deliberate: u64,
    pub act: u64,
    pub resolve: u64,
    pub persist: u64,
}

impl PhaseTimings {
    pub open spec fn sum(&self) -> int {
        self.world + self.needs + self.plans + self.deliberate + self.act + self.resolve + self.persist
    }

    pub fn total(&self) -> (r: u64)
        requires
            self.sum() <= u64::MAX,
        ensures
            r == self.sum(),
    {
        self.world + self.needs + self.plans + self.deliberate + self.act + self.resolve + self.persist
    }
}

impl Default for PhaseTimings {
    fn default() -> (r: Self)
        ensures
            r.sum() == 0,
            r == (PhaseTimings { world: 0, needs: 0, plans: 0, deliberate: 0, act: 0, resolve: 0, persist: 0 }),
    {
        PhaseTimings { world: 0, needs: 0, plans: 0, deliberate: 0, act: 0, resolve: 0, persist: 0 }
    }
}

/// Which of the requirements of conception stopped one, tallied.
#[derive(Debug, Clone, Copy, PartialEq, Eq, Structural)]
pub struct Tally {
    pub slot0: u32,
    pub slot1: u32,
    pub slot2: u32,
    pub slot3: u32,
    pub slot4: u32,
    pub slot5: u32,
    pub slot6: u32,
}

/// One more, as far as can be counted.
pub open spec fn one_more(n: u32) -> u32 {
    if n < u32::MAX {
        (n + 1) as u32
    } else {
        n
    }
}

/// So many more, as far as can be counted.
pub open spec fn more_by(n: u32, k: nat) -> u32 {
    if n + k <= u32::MAX {
        (n + k) as u32
    } else {
        u32::MAX
    }
}

pub fn count_one(n: u32) -> (r: u32)
    ensures
        r == one_more(n),
{
    if n < u32::MAX {
        n + 1
    } else {
        n
    }
}

pub fn count_by(n: u32, k: u32) -> (r: u32)
    ensures
        r == more_by(n, k as nat),
{
    if k <= u32::MAX - n {
        n + k
    } else {
        u32::MAX
    }
}

impl Tally {
    pub open spec fn zero() -> Tally {
        Tally { slot0: 0, slot1: 0, slot2: 0, slot3: 0, slot4: 0, slot5: 0, slot6: 0 }
    }

    pub fn new() -> (r: Self)
        ensures
            r == Tally::zero(),
    {
        Tally { slot0: 0, slot1: 0, slot2: 0, slot3: 0, slot4: 0, slot5: 0, slot6: 0 }
    }

    /// The count in a slot.
    pub open spec fn at(self, i: int) -> u32 {
        if i == 0 {
            self.slot0
        } else if i == 1 {
            self.slot1
        } else if i == 2 {
            self.slot2
        } else if i == 3 {
            self.slot3
        } else if i == 4 {
            self.slot4
        } else if i == 5 {
            self.slot5
        } else {
            self.slot6
        }
    }

    pub fn get(&self, i: usize) -> (r: u32)
        requires
            i < 7,
        ensures
            r == self.at(i as int),
    {
        match i {
            0 => self.slot0,
            1 => self.slot1,
            2 => self.slot2,
            3 => self.slot3,
            4 => self.slot4,
            5 => self.slot5,
            _ => self.slot6,
        }
    }

    /// One more in a slot.
    pub open spec fn raised(self, i: int) -> Tally {
        if i == 0 {
            Tally { slot0: one_more(self.slot0), ..self }
        } else if i == 1 {
            Tally { slot1: one_more(self.slot1), ..self }
        } else if i == 2 {
            Tally { slot2: one_more(self.slot2), ..self }
        } else if i == 3 {
            Tally { slot3: one_more(self.slot3), ..self }
        } else if i == 4 {
            Tally { slot4: one_more(self.slot4), ..self }
        } else if i == 5 {
            Tally { slot5: one_more(self.slot5), ..self }
        } else {
            Tally { slot6: one_more(self.slot6), ..self }
        }
    }

    pub fn raise(&mut self, i: usize)
        requires
            i < 7,
        ensures
            *final(self) == old(self).raised(i as int),
    {
        match i {
            0 => self.slot0 = count_one(self.slot0),
            1 => self.slot1 = count_one(self.slot1),
            2 => self.slot2 = count_one(self.slot2),
            3 => self.slot3 = count_one(self.slot3),
            4 => self.slot4 = count_one(self.slot4),
            5 => self.slot5 = count_one(self.slot5),
            _ => self.slot6 = count_one(self.slot6),
        }
    }
}

/// What one tick did, handed to the persistence layer and the display.
#[derive(Debug, Clone, Copy, PartialEq, Eq, Structural)]
pub struct TickReport {
    pub tick: i64,
    pub population: u32,
    pub births: u32,
    pub deaths: u32,
    pub deliberations: u32,
    pub plans_abandoned: u32,
    pub food_gathered: Num,
    pub food_eaten: Num,
    pub food_spoiled: Num,
    pub discoveries: u32,
    pub pairings: u32,
    pub rejections: u32,
    pub conceptions: u32,
    pub beliefs_shared: u32,
    pub beliefs_taught: u32,
    pub beliefs_overheard: u32,
    pub households_founded: u32,
    pub llm_dispatched: u32,
    pub llm_accepted: u32,
    pub llm_rejected: u32,
    pub llm_failed: u32,
    pub mean_latency_ms: Option<Num>,
    /// How many distinct tiles the living population collectively knows, or
    /// nothing on ticks where it was not sampled.
    pub known_tiles: Option<u32>,
    /// Arrivals from the measurement fixture, counted apart from births: folded
    /// into them they would make a held run look like a fertile one.
    pub settlers: u32,
    /// Which requirement stopped a conception this tick, by requirement.
    pub conception_blocked: Tally,
    /// Creatures that executed a step this tick.
    pub acted: u32,
    pub timings: PhaseTimings,
}

impl TickReport {
    /// A report with nothing in it yet.
    pub open spec fn blank(tick: i64) -> TickReport {
        TickReport {
            tick,
            population: 0,
            births: 0,
            deaths: 0,
            deliberations: 0,
            plans_abandoned: 0,
            food_gathered: num(NOTHING),
            food_eaten: num(NOTHING),
            food_spoiled: num(NOTHING),
            discoveries: 0,
            pairings: 0,
            rejections: 0,
            conceptions: 0,
            beliefs_shared: 0,
            beliefs_taught: 0,
            beliefs_overheard: 0,
            households_founded: 0,
            llm_dispatched: 0,
            llm_accepted: 0,
            llm_rejected: 0,
            llm_failed: 0,
            mean_latency_ms: None,
            known_tiles: None,
            settlers: 0,
            conception_blocked: Tally::zero(),
            acted: 0,
            timings: PhaseTimings { world: 0, needs: 0, plans: 0, deliberate: 0, act: 0, resolve: 0, persist: 0 },
        }
    }

    pub fn new(tick: i64) -> (r: Self)
        ensures
            r == TickReport::blank(tick),
    {
        TickReport {
            tick,
            population: 0,
            births: 0,
            deaths: 0,
            deliberations: 0,
            plans_abandoned: 0,
            food_gathered: num(NOTHING),
            food_eaten: num(NOTHING),
            food_spoiled: num(NOTHING),
            discoveries: 0,
            pairings: 0,
            rejections: 0,
            conceptions: 0,
            beliefs_shared: 0,
            beliefs_taught: 0,
            beliefs_overheard: 0,
            households_founded: 0,
            llm_dispatched: 0,
            llm_accepted: 0,
            llm_rejected: 0,
            llm_failed: 0,
            mean_latency_ms: None,
            known_tiles: None,
            settlers: 0,
            conception_blocked: Tally::new(),
            acted: 0,
            timings: PhaseTimings::default(),
        }
    }
}

/// A decision to be recorded, every call in full.
#[derive(Debug)]
pub struct DecisionRecord {
    pub tick: i64,
    pub creature_id: i64,
    pub tier: u8,
    pub age_ticks: i64,
    pub life_stage: LifeStage,
    pub goal: String,
    /// Which need the plan exists to serve. The first step's goal is a poor
    /// proxy, since every errand starts with a walk.
    pub addresses: Addresses,
    pub rationale: String,
    pub horizon_committed: u32,
    pub fallback_reason: Option<String>,
    /// How far the belief this plan is aimed at has travelled, recorded when the
    /// plan is set.
    pub belief_hops: Option<u8>,
    pub age_weight: Num,
    pub think_budget: Option<String>,
    pub prompt_hash: Option<String>,
    pub prompt_text: Option<String>,
    pub raw_response: Option<String>,
    pub fatigue_cost: Num,
    pub hunger_cost: Num,
    pub crisis_exempt: bool,
    pub latency_ms: Option<u64>,
    pub model: Option<String>,
    pub fallback_used: bool,
}

/// A decision with its texts as sequences.
#[verifier::ext_equal]
pub struct DecisionV {
    pub tick: i64,
    pub creature_id: i64,
    pub tier: u8,
    pub age_ticks: int,
    pub life_stage: LifeStage,
    pub goal: Seq<char>,
    pub addresses: Addresses,
    pub rationale: Seq<char>,
    pub horizon_committed: u32,
    pub fallback_reason: Option<Seq<char>>,
    pub belief_hops: Option<u8>,
    pub age_weight: Num,
    pub think_budget: Option<Seq<char>>,
    pub prompt_hash: Option<Seq<char>>,
    pub prompt_text: Option<Seq<char>>,
    pub raw_response: Option<Seq<char>>,
    pub fatigue_cost: Num,
    pub hunger_cost: Num,
    pub crisis_exempt: bool,
    pub latency_ms: Option<u64>,
    pub model: Option<Seq<char>>,
    pub fallback_used: bool,
}

pub open spec fn words(s: Option<String>) -> Option<Seq<char>> {
    match s {
        Some(t) => Some(t@),
        None => None,
    }
}

impl View for DecisionRecord {
    type V = DecisionV;

    open spec fn view(&self) -> DecisionV {
        DecisionV {
            tick: self.tick,
            creature_id: self.creature_id,
            tier: self.tier,
            age_ticks: self.age_ticks as int,
            life_stage: self.life_stage,
            goal: self.goal@,
            addresses: self.addresses,
            rationale: self.rationale@,
            horizon_committed: self.horizon_committed,
            fallback_reason: words(self.fallback_reason),
            belief_hops: self.belief_hops,
            age_weight: self.age_weight,
            think_budget: words(self.think_budget),
            prompt_hash: words(self.prompt_hash),
            prompt_text: words(self.prompt_text),
            raw_response: words(self.raw_response),
            fatigue_cost: self.fatigue_cost,
            hunger_cost: self.hunger_cost,
            crisis_exempt: self.crisis_exempt,
            latency_ms: self.latency_ms,
            model: words(self.model),
            fallback_used: self.fallback_used,
        }
    }
}

pub open spec fn decisions_of(list: Seq<DecisionRecord>) -> Seq<DecisionV> {
    Seq::new(list.len(), |i: int| list[i]@)
}

/// A decision of the reflex policy: no call, no prompt, no cost beyond what the
/// policy already charged.
pub open spec fn reflex_decision(
    tick: i64,
    c: CreatureV,
    goal: Seq<char>,
    addresses: Addresses,
    rationale: Seq<char>,
    horizon: u32,
    why: Option<Seq<char>>,
    belief_hops: Option<u8>,
) -> DecisionV {
    DecisionV {
        tick,
        creature_id: c.id,
        tier: 1,
        age_ticks: c.age(tick),
        life_stage: c.life_stage,
        goal,
        addresses,
        rationale,
        horizon_committed: horizon,
        fallback_reason: why,
        belief_hops,
        age_weight: num(ONE),
        think_budget: None,
        prompt_hash: None,
        prompt_text: None,
        raw_response: None,
        fatigue_cost: num(NOTHING),
        hunger_cost: num(NOTHING),
        crisis_exempt: false,
        latency_ms: None,
        model: None,
        fallback_used: true,
    }
}

impl DecisionRecord {
    pub fn tier1(
        tick: i64,
        c: &Creature,
        goal: &str,
        addresses: Addresses,
        rationale: String,
        horizon: u32,
        why: Option<String>,
        belief_hops: Option<u8>,
    ) -> (r: Self)
        requires
            i64::MIN <= c@.age(tick) <= i64::MAX,
        ensures
            r@ == reflex_decision(tick, c@, goal@, addresses, rationale@, horizon, words(why), belief_hops),
    {
        DecisionRecord {
            tick,
            creature_id: c.id,
            tier: 1,
            age_ticks: c.age(tick),
            life_stage: c.life_stage,
            goal: goal.to_owned(),
            addresses,
            rationale,
            horizon_committed: horizon,
            fallback_reason: why,
            belief_hops,
            age_weight: num(ONE),
            think_budget: None,
            prompt_hash: None,
            prompt_text: None,
            raw_response: None,
            fatigue_cost: num(NOTHING),
            hunger_cost: num(NOTHING),
            crisis_exempt: false,
            latency_ms: None,
            model: None,
            fallback_used: true,
        }
    }
}

/// The fewest hops among the beliefs about a tile: the freshest is the one that
/// was acted on.
pub open spec fn least_hops(beliefs: Seq<Belief>, x: u32, y: u32) -> Option<u8>
    decreases beliefs.len(),
{
    if beliefs.len() == 0 {
        None
    } else {
        let b = beliefs.last();
        let before = least_hops(beliefs.drop_last(), x, y);
        if b.x != x || b.y != y {
            before
        } else {
            match before {
                Some(h) if h <= b.hops => before,
                _ => Some(b.hops),
            }
        }
    }
}

pub fn hops_about(beliefs: &Vec<Belief>, x: u32, y: u32) -> (r: Option<u8>)
    ensures
        r == least_hops(beliefs@, x, y),
{
    let mut best: Option<u8> = None;
    for i in 0..beliefs.len()
        invariant
            best == least_hops(beliefs@.take(i as int), x, y),
    {
        proof {
            assert(beliefs@.take(i + 1).drop_last() == beliefs@.take(i as int));
        }
        let b = &beliefs[i];
        if b.x == x && b.y == y {
            best = match best {
                Some(h) => if h <= b.hops {
                    Some(h)
                } else {
                    Some(b.hops)
                },
                None => Some(b.hops),
            };
        }
    }
    assert(beliefs@.take(beliefs@.len() as int) == beliefs@);
    best
}

pub open spec fn is_placed(nodes: Seq<ResourceNode>) -> spec_fn(StepV) -> bool {
    |s: StepV| s.target.tile_in(nodes) is Some
}

/// The place a plan is about: that of its first step that has one.
pub open spec fn aim_of(plan: PlanV, nodes: Seq<ResourceNode>) -> Option<(u32, u32)> {
    let k = first_where(plan.steps, is_placed(nodes));
    if k < plan.steps.len() {
        plan.steps[k].target.tile_in(nodes)
    } else {
        None
    }
}

/// How far the belief a plan is aimed at has travelled. A plan that is not aimed
/// at a remembered place at all has none, and stays out of any account of
/// accuracy rather than counting as accurate.
pub open spec fn aimed_hops(c: CreatureV, plan: PlanV, nodes: Seq<ResourceNode>) -> Option<u8> {
    match aim_of(plan, nodes) {
        Some(at) => least_hops(c.beliefs, at.0, at.1),
        None => None,
    }
}

pub fn plan_belief_hops(c: &Creature, plan: &Plan, world: &World) -> (r: Option<u8>)
    ensures
        r == aimed_hops(c@, plan@, world.nodes@),
{
    let ghost p = is_placed(world.nodes@);
    for k in 0..plan.steps.len()
        invariant
            p == is_placed(world.nodes@),
            forall|j: int| 0 <= j < k ==> !p(#[trigger] plan@.steps[j]),
    {
        if let Some((x, y)) = plan.steps[k].target.tile(world) {
            proof {
                assert(plan@.steps[k as int] == plan.steps@[k as int]@);
                lemma_first_where_is(plan@.steps, p, k as int);
            }
            return hops_about(&c.beliefs, x, y);
        }
        assert(plan@.steps[k as int] == plan.steps@[k as int]@);
    }
    proof {
        lemma_first_where_is(plan@.steps, p, plan@.steps.len() as int);
    }
    None
}

/// Whether full prompt text is still retained at this tick. It is kept at every
/// one.
pub fn true_for_recent(_tick: i64, _keep_for: u32) -> (r: bool)
    ensures
        r,
{
    true
}

/// Running totals for the deliberation dashboard. These are production metrics:
/// a rising fallback rate is the model quietly ceasing to matter.
#[derive(Debug, Clone, Copy, PartialEq, Eq, Structural)]
pub struct LlmStats {
    pub dispatched: u64,
    pub accepted: u64,
    pub rejected: u64,
    pub failed: u64,
    pub expired: u64,
    pub repaired: u64,
    pub latency_total_ms: u64,
    pub tokens_prompt: u64,
    pub tokens_cached: u64,
    pub tokens_response: u64,
    /// Ticks from asking to taking delivery, summed over every answer. This
    /// governs staleness, and it is not the call latency: a request waits behind
    /// others before a worker picks it up.
    pub round_trip_ticks: u64,
    pub round_trips: u64,
}

/// So much more, as far as can be counted.
pub open spec fn swelled(n: u64, k: nat) -> u64 {
    if n + k <= u64::MAX {
        (n + k) as u64
    } else {
        u64::MAX
    }
}

pub fn swell(n: u64, k: u64) -> (r: u64)
    ensures
        r == swelled(n, k as nat),
{
    if k <= u64::MAX - n {
        n + k
    } else {
        u64::MAX
    }
}

impl LlmStats {
    pub open spec fn zero() -> LlmStats {
        LlmStats {
            dispatched: 0,
            accepted: 0,
            rejected: 0,
            failed: 0,
            expired: 0,
            repaired: 0,
            latency_total_ms: 0,
            tokens_prompt: 0,
            tokens_cached: 0,
            tokens_response: 0,
            round_trip_ticks: 0,
            round_trips: 0,
        }
    }

    pub fn new() -> (r: Self)
        ensures
            r == LlmStats::zero(),
    {
        LlmStats {
            dispatched: 0,
            accepted: 0,
            rejected: 0,
            failed: 0,
            expired: 0,
            repaired: 0,
            latency_total_ms: 0,
            tokens_prompt: 0,
            tokens_cached: 0,
            tokens_response: 0,
            round_trip_ticks: 0,
            round_trips: 0,
        }
    }

    pub open spec fn answers(&self) -> int {
        self.accepted + self.rejected + self.failed
    }

    pub fn answered(&self) -> (r: u64)
        requires
            self.answers() <= u64::MAX,
        ensures
            r == self.answers(),
    {
        self.accepted + self.rejected + self.failed
    }

    pub open spec fn fallback_share(&self) -> Num {
        if self.answers() == 0 {
            num(NOTHING)
        } else {
            of_int(self.rejected + self.failed) / of_int(self.answers())
        }
    }

    /// How much of what was asked came back unusable.
    pub fn fallback_rate(&self) -> (r: Num)
        requires
            self.answers() <= u64::MAX,
        ensures
            r == self.fallback_share(),
    {
        let n = self.answered();
        if n == 0 {
            return num(NOTHING);
        }
        Num::from_u64(self.rejected + self.failed) / Num::from_u64(n)
    }

    pub open spec fn latency(&self) -> Num {
        if self.accepted + self.rejected == 0 {
            num(NOTHING)
        } else {
            of_int(self.latency_total_ms as int) / of_int(self.accepted + self.rejected)
        }
    }

    pub fn mean_latency_ms(&self) -> (r: Num)
        requires
            self.answers() <= u64::MAX,
        ensures
            r == self.latency(),
    {
        if self.accepted + self.rejected == 0 {
            return num(NOTHING);
        }
        Num::from_u64(self.latency_total_ms) / Num::from_u64(self.accepted + self.rejected)
    }

    pub open spec fn round_trip(&self) -> Num {
        if self.round_trips == 0 {
            num(NOTHING)
        } else {
            of_int(self.round_trip_ticks as int) / of_int(self.round_trips as int)
        }
    }

    /// Mean ticks from asking to answering, including time spent queued.
    pub fn mean_round_trip_ticks(&self) -> (r: Num)
        ensures
            r == self.round_trip(),
    {
        if self.round_trips == 0 {
            return num(NOTHING);
        }
        Num::from_u64(self.round_trip_ticks) / Num::from_u64(self.round_trips)
    }
}

/// One act of transmission: who told whom, and how much.
#[derive(Debug, Clone, Copy, PartialEq, Eq, Structural)]
pub struct TransmissionRecord {
    pub tick: i64,
    pub from: i64,
    pub to: i64,
    pub channel: Channel,
    pub count: u32,
}

/// A plan that ended. The gap between what was committed and what was carried
/// out is the early warning that committing has stopped working.
#[derive(Debug, Clone, Copy, PartialEq, Eq, Structural)]
pub struct PlanOutcome {
    pub creature_id: i64,
    pub set_tick: i64,
    pub horizon_actual: u32,
    pub reason: AbortReason,
    /// How far the belief that sent the creature here had travelled, recorded
    /// only when the plan died because the target was gone or empty. Gone at hop
    /// zero means the world moved on; at hop three it means the chain of
    /// retelling was wrong.
    pub belief_hops: Option<u8>,
}

/// Ticks a plan was carried out for; the lowest 32 bits of them.
pub open spec fn ticks_held(set_tick: i64, tick: i64) -> u32 {
    (if tick > set_tick {
        tick - set_tick
    } else {
        0
    } % 0x1_0000_0000) as u32
}

pub fn held_for(set_tick: i64, tick: i64) -> (r: u32)
    ensures
        r == ticks_held(set_tick, tick),
{
    if tick > set_tick {
        let d: i128 = tick as i128 - set_tick as i128;
        (d % 0x1_0000_0000) as u32
    } else {
        0
    }
}

/// Counts go up by what is counted, and stop at the top.
pub proof fn law_counts_go_up(n: u32, k: nat, m: u64)
    ensures
        n < u32::MAX ==> one_more(n) == n + 1,
        n + k <= u32::MAX ==> more_by(n, k) == n + k,
        n <= one_more(n) && n <= more_by(n, k) && m <= swelled(m, k),
        m + k <= u64::MAX ==> swelled(m, k) == m + k,
{
}

/// A tally raises the one slot it is told to, and no other.
pub proof fn law_a_tally_raises_one(t: Tally, i: int, j: int)
    requires
        0 <= i <= 6,
        0 <= j <= 6,
    ensures
        t.raised(i).at(j) == if i == j {
            one_more(t.at(j))
        } else {
            t.at(j)
        },
        Tally::zero().at(i) == 0,
{
}

/// How far a place is from having been seen, by the belief about it that has come
/// the fewest hops.
pub proof fn law_the_nearest_word_counts(beliefs: Seq<Belief>, x: u32, y: u32)
    ensures
        match least_hops(beliefs, x, y) {
            Some(h) => {
                &&& exists|i: int|
                    0 <= i < beliefs.len() && (#[trigger] beliefs[i]).x == x && beliefs[i].y == y && beliefs[i].hops == h
                &&& forall|i: int|
                    0 <= i < beliefs.len() && (#[trigger] beliefs[i]).x == x && beliefs[i].y == y ==> h <= beliefs[i].hops
            },
            None => forall|i: int| 0 <= i < beliefs.len() ==> (#[trigger] beliefs[i]).x != x || beliefs[i].y != y,
        },
    decreases beliefs.len(),
{
    if beliefs.len() > 0 {
        let shorter = beliefs.drop_last();
        law_the_nearest_word_counts(shorter, x, y);
        assert(forall|i: int| 0 <= i < shorter.len() ==> #[trigger] beliefs[i] == shorter[i]);
        assert(beliefs[beliefs.len() - 1] == beliefs.last());
        if let Some(h) = least_hops(shorter, x, y) {
            let i = choose|i: int|
                0 <= i < shorter.len() && (#[trigger] shorter[i]).x == x && shorter[i].y == y && shorter[i].hops == h;
            assert(beliefs[i] == shorter[i]);
        }
    }
}

/// How long a plan was held: from when it was set until now, and not at all before.
pub proof fn law_how_long_a_plan_was_held(set_tick: i64, tick: i64)
    requires
        tick - set_tick <= u32::MAX,
    ensures
        tick > set_tick ==> ticks_held(set_tick, tick) == tick - set_tick,
        tick <= set_tick ==> ticks_held(set_tick, tick) == 0,
{
}

/// The share of answers that were no use, of all that came: none while none has come,
/// and the rejected and the failed over all of them.
pub proof fn law_what_answers_came_to(s: LlmStats)
    ensures
        s.accepted + s.rejected + s.failed == 0 ==> s.fallback_share() == num(0),
        s.accepted + s.rejected + s.failed > 0 ==> s.fallback_share() == of_int(s.rejected + s.failed) / of_int(
            s.accepted + s.rejected + s.failed,
        ),
        s.accepted + s.rejected > 0 ==> s.latency() == of_int(s.latency_total_ms as int) / of_int(s.accepted + s.rejected),
        s.accepted + s.rejected == 0 ==> s.latency() == num(0),
        s.round_trips > 0 ==> s.round_trip() == of_int(s.round_trip_ticks as int) / of_int(s.round_trips as int),
        LlmStats::zero().answers() == 0,
{
}

/// A report starts blank: it is of its tick, and nothing has happened in it yet.
pub proof fn law_a_report_starts_blank(tick: i64)
    ensures
        ({
            let r = TickReport::blank(tick);
            &&& r.tick == tick
            &&& r.births == 0 && r.deaths == 0 && r.deliberations == 0 && r.plans_abandoned == 0 && r.discoveries == 0
            &&& r.pairings == 0 && r.rejections == 0 && r.conceptions == 0 && r.settlers == 0 && r.acted == 0
            &&& r.beliefs_shared == 0 && r.beliefs_taught == 0 && r.beliefs_overheard == 0
            &&& r.food_gathered == num(0) && r.food_eaten == num(0) && r.food_spoiled == num(0)
            &&& r.llm_dispatched == 0 && r.llm_accepted == 0 && r.llm_rejected == 0 && r.llm_failed == 0
        }),
{
}

/// A plan aims at the first of its steps that is aimed at a place.
pub proof fn law_a_plan_aims_at_its_first_place(plan: PlanV, nodes: Seq<ResourceNode>, k: int)
    requires
        0 <= k < plan.steps.len(),
        plan.steps[k].target.tile_in(nodes) is Some,
        forall|j: int| 0 <= j < k ==> (#[trigger] plan.steps[j]).target.tile_in(nodes) is None,
    ensures
        aim_of(plan, nodes) == plan.steps[k].target.tile_in(nodes),
{
    lemma_first_where_is(plan.steps, is_placed(nodes), k);
}

} // verus!
