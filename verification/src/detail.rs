//! Everything that is shown of one creature when somebody looks at it.

use crate::actions::StepV;
use crate::config::{KnowledgeConfig, WorldConfig};
use crate::creature::{
    food_of, people_of, total_of, Addresses, Batch, Creature, CreatureV, ItemKind, PlanV, Sex, Traits, HALF,
};
use crate::economy::{is_spoiled, shelf_life};
use crate::knowledge::{rank, rank_score, Belief, NeedProfile};
use crate::lists::{
    count_where, first_where, law_ranking_is_ordered, lemma_count_where_bound, lemma_first_where, lemma_first_where_is,
    ranked_by, top_of,
};
use crate::num::{
    law_a_share_is_finite, law_quotients_keep_their_order, law_taking_more_leaves_no_more, num, Num, FULL, NOTHING, ONE,
};
use crate::social::{
    blocker_of, conception_blocker, home_at, homes_of, lemma_home_at, Blocker, Household, HouseholdV, Households,
};
use crate::text::{rounded, whole_text};
use crate::town::{index_of, is_here, place_of};
use crate::world::{ResourceNode, World};
use vstd::prelude::*;
use vstd::string::*;

verus! {

/// What is carried of one kind, and when the first of it turns.
#[derive(Debug, Clone, Copy, PartialEq, Eq, Structural)]
pub struct Carried {
    pub kind: ItemKind,
    pub quantity: Num,
    pub spoils_in: Option<i64>,
}

/// What somebody believes, as it is read.
#[derive(Debug)]
pub struct BeliefView {
    pub kind: &'static str,
    pub x: u32,
    pub y: u32,
    pub estimate: &'static str,
    pub confidence: Num,
    pub hops: u8,
    pub provenance: String,
}

/// One step of a plan, as it is read.
#[derive(Debug)]
pub struct PlanStepView {
    pub goal: &'static str,
    pub label: String,
    pub done: bool,
    pub current: bool,
    pub est_ticks: u32,
}

/// Everything the inspector shows about one creature.
#[derive(Debug)]
pub struct CreatureDetail {
    pub id: i64,
    pub name: String,
    pub sex: &'static str,
    pub generation: i32,
    pub age: i64,
    pub expected_lifespan: u32,
    pub life_stage: &'static str,
    pub x: u32,
    pub y: u32,
    pub felt_state: &'static str,
    pub hunger: Num,
    pub thirst: Num,
    pub fatigue: Num,
    pub warmth: Num,
    pub health: Num,
    pub traits: Traits,
    pub carrying: Vec<Carried>,
    pub plan_rationale: String,
    pub plan_addresses: &'static str,
    pub plan_horizon: u32,
    pub plan_remaining: u32,
    pub plan_tier: u8,
    pub steps: Vec<PlanStepView>,
    pub beliefs: Vec<BeliefView>,
    pub belief_count: usize,
    pub lifetime_deliberations: i64,
    pub sheltered: bool,
    pub household_id: Option<i64>,
    pub household_store: Num,
    pub household_grain: Num,
    pub household_members: usize,
    pub mate: Option<(i64, String)>,
    pub mother: Option<(i64, String)>,
    pub father: Option<(i64, String)>,
    pub children_born: i32,
    pub taught_count: i32,
    pub shared_count: i32,
    /// Ticks until the child arrives, if there is one on the way.
    pub expecting_in: Option<i64>,
    /// Which of the requirements of conception is missing, in plain language.
    pub cannot_yet: Option<String>,
    /// Beliefs held that somebody else discovered, and how many of those
    /// discoverers are already dead.
    pub inherited_beliefs: usize,
    pub from_the_dead: usize,
}

#[verifier::ext_equal]
pub struct BeliefLine {
    pub kind: Seq<char>,
    pub x: u32,
    pub y: u32,
    pub estimate: Seq<char>,
    pub confidence: Num,
    pub hops: u8,
    pub provenance: Seq<char>,
}

#[verifier::ext_equal]
pub struct StepLine {
    pub goal: Seq<char>,
    pub label: Seq<char>,
    pub done: bool,
    pub current: bool,
    pub est_ticks: u32,
}

/// What is shown, with its words as sequences.
#[verifier::ext_equal]
pub struct DetailV {
    pub id: i64,
    pub name: Seq<char>,
    pub sex: Seq<char>,
    pub generation: i32,
    pub age: i64,
    pub expected_lifespan: u32,
    pub life_stage: Seq<char>,
    pub x: u32,
    pub y: u32,
    pub felt_state: Seq<char>,
    pub hunger: Num,
    pub thirst: Num,
    pub fatigue: Num,
    pub warmth: Num,
    pub health: Num,
    pub traits: Traits,
    pub carrying: Seq<Carried>,
    pub plan_rationale: Seq<char>,
    pub plan_addresses: Seq<char>,
    pub plan_horizon: u32,
    pub plan_remaining: u32,
    pub plan_tier: u8,
    pub steps: Seq<StepLine>,
    pub beliefs: Seq<BeliefLine>,
    pub belief_count: nat,
    pub lifetime_deliberations: i64,
    pub sheltered: bool,
    pub household_id: Option<i64>,
    pub household_store: Num,
    pub household_grain: Num,
    pub household_members: nat,
    pub mate: Option<(i64, Seq<char>)>,
    pub mother: Option<(i64, Seq<char>)>,
    pub father: Option<(i64, Seq<char>)>,
    pub children_born: i32,
    pub taught_count: i32,
    pub shared_count: i32,
    pub expecting_in: Option<i64>,
    pub cannot_yet: Option<Seq<char>>,
    pub inherited_beliefs: nat,
    pub from_the_dead: nat,
}

impl View for BeliefView {
    type V = BeliefLine;

    open spec fn view(&self) -> BeliefLine {
        BeliefLine {
            kind: self.kind@,
            x: self.x,
            y: self.y,
            estimate: self.estimate@,
            confidence: self.confidence,
            hops: self.hops,
            provenance: self.provenance@,
        }
    }
}

impl View for PlanStepView {
    type V = StepLine;

    open spec fn view(&self) -> StepLine {
        StepLine {
            goal: self.goal@,
            label: self.label@,
            done: self.done,
            current: self.current,
            est_ticks: self.est_ticks,
        }
    }
}

pub open spec fn text_of(s: Option<String>) -> Option<Seq<char>> {
    match s {
        Some(s) => Some(s@),
        None => None,
    }
}

pub open spec fn named_of(p: Option<(i64, String)>) -> Option<(i64, Seq<char>)> {
    match p {
        Some((id, name)) => Some((id, name@)),
        None => None,
    }
}

impl View for CreatureDetail {
    type V = DetailV;

    open spec fn view(&self) -> DetailV {
        DetailV {
            id: self.id,
            name: self.name@,
            sex: self.sex@,
            generation: self.generation,
            age: self.age,
            expected_lifespan: self.expected_lifespan,
            life_stage: self.life_stage@,
            x: self.x,
            y: self.y,
            felt_state: self.felt_state@,
            hunger: self.hunger,
            thirst: self.thirst,
            fatigue: self.fatigue,
            warmth: self.warmth,
            health: self.health,
            traits: self.traits,
            carrying: self.carrying@,
            plan_rationale: self.plan_rationale@,
            plan_addresses: self.plan_addresses@,
            plan_horizon: self.plan_horizon,
            plan_remaining: self.plan_remaining,
            plan_tier: self.plan_tier,
            steps: Seq::new(self.steps@.len(), |i: int| self.steps@[i]@),
            beliefs: Seq::new(self.beliefs@.len(), |i: int| self.beliefs@[i]@),
            belief_count: self.belief_count as nat,
            lifetime_deliberations: self.lifetime_deliberations,
            sheltered: self.sheltered,
            household_id: self.household_id,
            household_store: self.household_store,
            household_grain: self.household_grain,
            household_members: self.household_members as nat,
            mate: named_of(self.mate),
            mother: named_of(self.mother),
            father: named_of(self.father),
            children_born: self.children_born,
            taught_count: self.taught_count,
            shared_count: self.shared_count,
            expecting_in: self.expecting_in,
            cannot_yet: text_of(self.cannot_yet),
            inherited_beliefs: self.inherited_beliefs as nat,
            from_the_dead: self.from_the_dead as nat,
        }
    }
}

/// A span of ticks, held within what a tick can count.
pub open spec fn span(i: int) -> i64 {
    if i > i64::MAX {
        i64::MAX
    } else if i < i64::MIN {
        i64::MIN
    } else {
        i as i64
    }
}

fn span_of(i: i128) -> (r: i64)
    ensures
        r == span(i as int),
{
    if i > i64::MAX as i128 {
        i64::MAX
    } else if i < i64::MIN as i128 {
        i64::MIN
    } else {
        i as i64
    }
}

pub open spec fn turns_in(b: Batch, tick: i64, cfg: &WorldConfig) -> Option<i64> {
    match shelf_life(b.kind, cfg) {
        Some(life) => Some(span(b.harvested_tick + life - tick)),
        None => None,
    }
}

/// The sooner of two times, where there is one.
pub open spec fn sooner(a: Option<i64>, b: Option<i64>) -> Option<i64> {
    match (a, b) {
        (Some(x), Some(y)) => Some(
            if x <= y {
                x
            } else {
                y
            },
        ),
        (None, s) => s,
        (s, None) => s,
    }
}

pub open spec fn is_carried(kind: ItemKind) -> spec_fn(Carried) -> bool {
    |c: Carried| c.kind == kind
}

/// What is carried, with one more batch counted.
pub open spec fn carried_with(all: Seq<Carried>, b: Batch, tick: i64, cfg: &WorldConfig) -> Seq<Carried> {
    let at = first_where(all, is_carried(b.kind));
    if at < all.len() {
        all.update(
            at,
            Carried {
                kind: all[at].kind,
                quantity: all[at].quantity + b.quantity,
                spoils_in: sooner(all[at].spoils_in, turns_in(b, tick, cfg)),
            },
        )
    } else {
        all.push(Carried { kind: b.kind, quantity: b.quantity, spoils_in: turns_in(b, tick, cfg) })
    }
}

/// What is carried in a pack, by kind, in the order in which the kinds were packed.
pub open spec fn carried_in(pack: Seq<Batch>, tick: i64, cfg: &WorldConfig) -> Seq<Carried>
    decreases pack.len(),
{
    if pack.len() == 0 {
        Seq::empty()
    } else {
        carried_with(carried_in(pack.drop_last(), tick, cfg), pack.last(), tick, cfg)
    }
}

fn carrying(pack: &Vec<Batch>, tick: i64, cfg: &WorldConfig) -> (r: Vec<Carried>)
    ensures
        r@ == carried_in(pack@, tick, cfg),
{
    let mut all: Vec<Carried> = Vec::new();
    assert(pack@.take(0).len() == 0);
    for i in 0..pack.len()
        invariant
            all@ == carried_in(pack@.take(i as int), tick, cfg),
    {
        let b = pack[i];
        assert(pack@.take(i + 1).drop_last() == pack@.take(i as int));
        let spoils = match shelf_life(b.kind, cfg) {
            Some(life) => Some(span_of(b.harvested_tick as i128 + life as i128 - tick as i128)),
            None => None,
        };
        let ghost before = all@;
        let ghost p = is_carried(b.kind);
        let n: usize = all.len();
        let mut at: usize = 0;
        while at < n && all[at].kind != b.kind
            invariant
                all@ == before,
                n == all@.len(),
                at <= n,
                p == is_carried(b.kind),
                forall|j: int| 0 <= j < at ==> !p(#[trigger] all@[j]),
            decreases n - at,
        {
            at = at + 1;
        }
        proof {
            lemma_first_where_is(before, p, at as int);
        }
        if at < n {
            let e = all[at];
            let sooner = match (e.spoils_in, spoils) {
                (Some(x), Some(y)) => Some(
                    if x <= y {
                        x
                    } else {
                        y
                    },
                ),
                (None, s) => s,
                (s, None) => s,
            };
            all.set(at, Carried { kind: e.kind, quantity: e.quantity + b.quantity, spoils_in: sooner });
        } else {
            all.push(Carried { kind: b.kind, quantity: b.quantity, spoils_in: spoils });
        }
    }
    assert(pack@.take(pack@.len() as int) == pack@);
    all
}

/// How pressing each need is, from the body alone.
pub open spec fn needs_of(c: CreatureV) -> NeedProfile {
    NeedProfile {
        food: num(ONE) - c.hunger / num(FULL),
        water: num(ONE) - c.thirst / num(FULL),
        fuel: num(HALF),
        shelter: num(ONE) - c.warmth / num(FULL),
    }
}

pub open spec fn belief_line(b: Belief, tick: i64, k: &KnowledgeConfig) -> BeliefLine {
    BeliefLine {
        kind: b.kind.text(),
        x: b.x,
        y: b.y,
        estimate: b.estimate.text(),
        confidence: b.confidence_at_spec(tick, k),
        hops: b.hops,
        provenance: b.provenance_text(tick),
    }
}

/// The beliefs that matter to somebody, the most relevant first.
pub open spec fn beliefs_in_order(c: CreatureV, tick: i64, k: &KnowledgeConfig) -> Seq<usize> {
    top_of(
        ranked_by(
            c.beliefs,
            |b: Belief| rank_score(b, (c.x, c.y), tick, &needs_of(c), k),
            c.beliefs.len() as int,
        ),
        c.beliefs.len(),
    )
}

pub open spec fn belief_lines(c: CreatureV, tick: i64, k: &KnowledgeConfig) -> Seq<BeliefLine> {
    let order = beliefs_in_order(c, tick, k);
    Seq::new(order.len(), |i: int| belief_line(c.beliefs[order[i] as int], tick, k))
}

fn show_beliefs(c: &Creature, tick: i64, k: &KnowledgeConfig) -> (r: Vec<BeliefView>)
    ensures
        Seq::new(r@.len(), |i: int| r@[i]@) == belief_lines(c@, tick, k),
{
    let needs = NeedProfile {
        food: num(ONE) - c.hunger / num(FULL),
        water: num(ONE) - c.thirst / num(FULL),
        fuel: num(HALF),
        shelter: num(ONE) - c.warmth / num(FULL),
    };
    assert(needs == needs_of(c@));
    let order = rank(&c.beliefs, (c.x, c.y), tick, &needs, k, c.beliefs.len());
    let ghost f = |b: Belief| rank_score(b, (c.x, c.y), tick, &needs, k);
    proof {
        assert(order@ == beliefs_in_order(c@, tick, k));
        law_ranking_is_ordered(c.beliefs@, f, c.beliefs@.len() as int);
        assert forall|i: int| 0 <= i < order@.len() implies #[trigger] order@[i] < c.beliefs@.len() by {
            assert(order@[i] == ranked_by(c.beliefs@, f, c.beliefs@.len() as int)[i].0);
        }
    }
    let mut r: Vec<BeliefView> = Vec::new();
    for i in 0..order.len()
        invariant
            forall|j: int| 0 <= j < order@.len() ==> #[trigger] order@[j] < c.beliefs@.len(),
            r@.len() == i,
            forall|j: int| 0 <= j < i ==> (#[trigger] r@[j])@ == belief_line(c.beliefs@[order@[j] as int], tick, k),
    {
        let b = &c.beliefs[order[i]];
        r.push(
            BeliefView {
                kind: b.kind.as_str(),
                x: b.x,
                y: b.y,
                estimate: b.estimate.as_str(),
                confidence: b.confidence_at(tick, k),
                hops: b.hops,
                provenance: b.provenance(tick),
            },
        );
    }
    r
}

pub open spec fn step_line(s: StepV, i: nat, at: nat, nodes: Seq<ResourceNode>) -> StepLine {
    StepLine {
        goal: s.goal.text(),
        label: s.described(nodes),
        done: i < at,
        current: i == at,
        est_ticks: s.est_ticks,
    }
}

pub open spec fn step_lines(plan: Option<PlanV>, nodes: Seq<ResourceNode>) -> Seq<StepLine> {
    match plan {
        Some(p) => Seq::new(p.steps.len(), |i: int| step_line(p.steps[i], i as nat, p.step_index, nodes)),
        None => Seq::empty(),
    }
}

fn show_steps(c: &Creature, world: &World) -> (r: Vec<PlanStepView>)
    ensures
        Seq::new(r@.len(), |i: int| r@[i]@) == step_lines(c@.plan, world.nodes@),
{
    let mut r: Vec<PlanStepView> = Vec::new();
    if let Some(p) = &c.plan {
        let ghost steps = p@.steps;
        for i in 0..p.steps.len()
            invariant
                steps == p@.steps,
                r@.len() == i,
                forall|j: int|
                    0 <= j < i ==> (#[trigger] r@[j])@ == step_line(steps[j], j as nat, p@.step_index, world.nodes@),
        {
            let s = &p.steps[i];
            assert(steps[i as int] == s@);
            r.push(
                PlanStepView {
                    goal: s.goal.as_str(),
                    label: s.describe(world),
                    done: i < p.step_index,
                    current: i == p.step_index,
                    est_ticks: s.est_ticks,
                },
            );
        }
    }
    r
}

impl Addresses {
    /// What a plan is about, in a word.
    pub open spec fn text(self) -> Seq<char> {
        match self {
            Addresses::Food => "Food"@,
            Addresses::Water => "Water"@,
            Addresses::Warmth => "Warmth"@,
            Addresses::Rest => "Rest"@,
            Addresses::Fuel => "Fuel"@,
            Addresses::Knowledge => "Knowledge"@,
            Addresses::Kinship => "Kinship"@,
            Addresses::Nothing => "None"@,
        }
    }

    pub fn as_str(self) -> (s: &'static str)
        ensures
            s@ == self.text(),
    {
        match self {
            Addresses::Food => "Food",
            Addresses::Water => "Water",
            Addresses::Warmth => "Warmth",
            Addresses::Rest => "Rest",
            Addresses::Fuel => "Fuel",
            Addresses::Knowledge => "Knowledge",
            Addresses::Kinship => "Kinship",
            Addresses::Nothing => "None",
        }
    }
}

/// Somebody alive, by their name.
pub open spec fn named(id: Option<i64>, people: Seq<CreatureV>) -> Option<(i64, Seq<char>)> {
    match id {
        Some(id) => if is_here(people, id) {
            Some((id, people[place_of(people, id)].name))
        } else {
            None
        },
        None => None,
    }
}

fn name_of(id: Option<i64>, creatures: &Vec<Creature>) -> (r: Option<(i64, String)>)
    ensures
        named_of(r) == named(id, people_of(creatures@)),
{
    match id {
        Some(id) => match index_of(creatures, id) {
            Some(i) => {
                assert(people_of(creatures@)[i as int] == creatures@[i as int]@);
                Some((id, creatures[i].name.clone()))
            },
            None => None,
        },
        None => None,
    }
}

/// The living household that somebody belongs to.
pub open spec fn hearth_of(c: CreatureV, homes: Seq<HouseholdV>) -> Option<HouseholdV> {
    match c.household_id {
        Some(id) => if home_at(homes, id) < homes.len() {
            Some(homes[home_at(homes, id)])
        } else {
            None
        },
        None => None,
    }
}

pub open spec fn store_in(home: Option<HouseholdV>) -> Num {
    match home {
        Some(h) => food_of(h.store),
        None => num(NOTHING),
    }
}

pub open spec fn grain_in(home: Option<HouseholdV>) -> Num {
    match home {
        Some(h) => total_of(h.store, ItemKind::Grain),
        None => num(NOTHING),
    }
}

pub open spec fn lives_with(id: Option<i64>) -> spec_fn(CreatureV) -> bool {
    |c: CreatureV| id is Some && c.household_id == id
}

/// Why somebody who has a mate has no child on the way. For anyone else that is a
/// different question.
pub open spec fn obstacle(
    c: CreatureV,
    people: Seq<CreatureV>,
    home: Option<HouseholdV>,
    cfg: &WorldConfig,
    tick: i64,
) -> Option<Seq<char>> {
    match c.mate_id {
        Some(mate) if is_here(people, mate) => {
            let partner = people[place_of(people, mate)];
            let blocker = if c.sex == Sex::Female {
                blocker_of(c, partner, home, cfg, tick)
            } else {
                blocker_of(partner, c, home, cfg, tick)
            };
            match blocker {
                Some(Blocker::StoreShort) => Some(
                    "needs "@ + whole_text((cfg.reproduction.store_reserve - store_in(home)).max(num(NOTHING)))
                        + " more put by"@,
                ),
                Some(other) => Some(other.text()),
                None => None,
            }
        },
        _ => None,
    }
}

fn cannot_yet(
    c: &Creature,
    creatures: &Vec<Creature>,
    household: Option<&Household>,
    cfg: &WorldConfig,
    tick: i64,
) -> (r: Option<String>)
    ensures
        text_of(r) == obstacle(c@, people_of(creatures@), crate::social::home_of(household), cfg, tick),
{
    let mate = match c.mate_id {
        Some(m) => m,
        None => return None,
    };
    let partner = match index_of(creatures, mate) {
        Some(i) => {
            assert(people_of(creatures@)[i as int] == creatures@[i as int]@);
            &creatures[i]
        },
        None => return None,
    };
    let blocker = if c.sex == Sex::Female {
        conception_blocker(c, partner, household, cfg, tick)
    } else {
        conception_blocker(partner, c, household, cfg, tick)
    };
    match blocker {
        Some(Blocker::StoreShort) => {
            let stored = match household {
                Some(h) => h.stored_food(),
                None => num(NOTHING),
            };
            let mut s = "needs ".to_owned();
            s.append(rounded((cfg.reproduction.store_reserve - stored).max(num(NOTHING))).as_str());
            s.append(" more put by");
            Some(s)
        },
        Some(other) => Some(other.as_str().to_owned()),
        None => None,
    }
}

/// Whether somebody else found out what a belief says.
pub open spec fn is_inherited(own: i64) -> spec_fn(Belief) -> bool {
    |b: Belief| b.origin_creature_id matches Some(o) && o != own
}

/// Whether somebody who is dead found it out.
pub open spec fn is_left_behind(own: i64, people: Seq<CreatureV>) -> spec_fn(Belief) -> bool {
    |b: Belief| b.origin_creature_id matches Some(o) && o != own && !is_here(people, o)
}

fn count_inherited(c: &Creature, creatures: &Vec<Creature>) -> (r: (usize, usize))
    ensures
        r.0 == count_where(c.beliefs@, is_inherited(c.id)),
        r.1 == count_where(c.beliefs@, is_left_behind(c.id, people_of(creatures@))),
{
    let ghost people = people_of(creatures@);
    let ghost p = is_inherited(c.id);
    let ghost q = is_left_behind(c.id, people);
    let mut others: usize = 0;
    let mut dead: usize = 0;
    assert(c.beliefs@.take(0).len() == 0);
    for i in 0..c.beliefs.len()
        invariant
            people == people_of(creatures@),
            p == is_inherited(c.id),
            q == is_left_behind(c.id, people),
            others == count_where(c.beliefs@.take(i as int), p),
            dead == count_where(c.beliefs@.take(i as int), q),
            others <= i,
            dead <= i,
    {
        assert(c.beliefs@.take(i + 1).drop_last() == c.beliefs@.take(i as int));
        assert(c.beliefs@.take(i + 1).last() == c.beliefs@[i as int]);
        if let Some(o) = c.beliefs[i].origin_creature_id {
            if o != c.id {
                others = others + 1;
                if index_of(creatures, o).is_none() {
                    dead = dead + 1;
                }
            }
        }
    }
    assert(c.beliefs@.take(c.beliefs@.len() as int) == c.beliefs@);
    (others, dead)
}

fn count_members(id: Option<i64>, creatures: &Vec<Creature>) -> (r: usize)
    ensures
        r == count_where(people_of(creatures@), lives_with(id)),
{
    let ghost people = people_of(creatures@);
    let ghost p = lives_with(id);
    let mut n: usize = 0;
    assert(people.take(0).len() == 0);
    for i in 0..creatures.len()
        invariant
            people == people_of(creatures@),
            p == lives_with(id),
            n == count_where(people.take(i as int), p),
            n <= i,
    {
        assert(people.take(i + 1).drop_last() == people.take(i as int));
        assert(people.take(i + 1).last() == creatures@[i as int]@);
        if let Some(h) = id {
            if let Some(own) = creatures[i].household_id {
                if own == h {
                    n = n + 1;
                }
            }
        }
    }
    assert(people.take(people.len() as int) == people);
    n
}

/// Everything that is shown of a creature.
pub open spec fn detail_of(
    c: Creature,
    people: Seq<CreatureV>,
    homes: Seq<HouseholdV>,
    nodes: Seq<ResourceNode>,
    cfg: &WorldConfig,
    tick: i64,
) -> DetailV {
    let v = c@;
    let home = hearth_of(v, homes);
    DetailV {
        id: v.id,
        name: v.name,
        sex: v.sex.text(),
        generation: v.generation,
        age: span(tick - v.birth_tick),
        expected_lifespan: v.lifespan_ticks.truncated(u32::MAX as nat) as u32,
        life_stage: v.life_stage.text(),
        x: v.x,
        y: v.y,
        felt_state: c.felt_text(&cfg.needs),
        hunger: v.hunger,
        thirst: v.thirst,
        fatigue: v.fatigue,
        warmth: v.warmth,
        health: v.health,
        traits: v.traits,
        carrying: carried_in(v.pack, tick, cfg),
        plan_rationale: match v.plan {
            Some(p) => p.rationale,
            None => Seq::empty(),
        },
        plan_addresses: match v.plan {
            Some(p) => p.addresses.text(),
            None => "None"@,
        },
        plan_horizon: match v.plan {
            Some(p) => p.horizon,
            None => 0,
        },
        plan_remaining: match v.plan {
            Some(p) => p.ticks_remaining,
            None => 0,
        },
        plan_tier: match v.plan {
            Some(p) => p.tier,
            None => 1,
        },
        steps: step_lines(v.plan, nodes),
        beliefs: belief_lines(v, tick, &cfg.knowledge),
        belief_count: v.beliefs.len(),
        lifetime_deliberations: v.lifetime_deliberations,
        sheltered: v.in_shelter is Some,
        household_id: v.household_id,
        household_store: store_in(home),
        household_grain: grain_in(home),
        household_members: count_where(people, lives_with(v.household_id)),
        mate: named(v.mate_id, people),
        mother: named(v.mother_id, people),
        father: named(v.father_id, people),
        children_born: v.children_born,
        taught_count: v.taught_count,
        shared_count: v.shared_count,
        expecting_in: match v.pregnancy {
            Some(p) => Some(span(p.due_tick - tick)),
            None => None,
        },
        cannot_yet: obstacle(v, people, home, cfg, tick),
        inherited_beliefs: count_where(v.beliefs, is_inherited(v.id)),
        from_the_dead: count_where(v.beliefs, is_left_behind(v.id, people)),
    }
}

/// The inspector's view of one creature, where it is alive.
pub fn detail_for(
    creatures: &Vec<Creature>,
    households: &Households,
    world: &World,
    cfg: &WorldConfig,
    tick: i64,
    id: i64,
) -> (r: Option<CreatureDetail>)
    ensures
        match r {
            Some(d) => is_here(people_of(creatures@), id) && d@ == detail_of(
                creatures@[place_of(people_of(creatures@), id)],
                people_of(creatures@),
                homes_of(households.items@),
                world.nodes@,
                cfg,
                tick,
            ),
            None => !is_here(people_of(creatures@), id),
        },
{
    let c = match index_of(creatures, id) {
        Some(i) => &creatures[i],
        None => return None,
    };
    let household = match c.household_id {
        Some(h) => {
            proof {
                lemma_home_at(households.items@, h);
            }
            households.get(h)
        },
        None => None,
    };
    assert(crate::social::home_of(household) == hearth_of(c@, homes_of(households.items@)));
    let (inherited, dead) = count_inherited(c, creatures);
    let (rationale, addresses, horizon, remaining, tier): (String, &'static str, u32, u32, u8) = match &c.plan {
        Some(p) => (p.rationale.clone(), p.addresses.as_str(), p.horizon, p.ticks_remaining, p.tier),
        None => ("".to_owned(), "None", 0, 0, 1),
    };
    proof {
        reveal_strlit("");
        assert(""@ == Seq::<char>::empty());
    }
    let detail = CreatureDetail {
        id: c.id,
        name: c.name.clone(),
        sex: c.sex.as_str(),
        generation: c.generation,
        age: span_of(tick as i128 - c.birth_tick as i128),
        expected_lifespan: c.lifespan_ticks.to_u32(),
        life_stage: c.life_stage.as_str(),
        x: c.x,
        y: c.y,
        felt_state: c.felt_state(&cfg.needs),
        hunger: c.hunger,
        thirst: c.thirst,
        fatigue: c.fatigue,
        warmth: c.warmth,
        health: c.health,
        traits: c.traits,
        carrying: carrying(&c.inventory.batches, tick, cfg),
        plan_rationale: rationale,
        plan_addresses: addresses,
        plan_horizon: horizon,
        plan_remaining: remaining,
        plan_tier: tier,
        steps: show_steps(c, world),
        beliefs: show_beliefs(c, tick, &cfg.knowledge),
        belief_count: c.beliefs.len(),
        lifetime_deliberations: c.lifetime_deliberations,
        sheltered: c.in_shelter.is_some(),
        household_id: c.household_id,
        household_store: match household {
            Some(h) => h.stored_food(),
            None => num(NOTHING),
        },
        household_grain: match household {
            Some(h) => h.grain(),
            None => num(NOTHING),
        },
        household_members: count_members(c.household_id, creatures),
        mate: name_of(c.mate_id, creatures),
        mother: name_of(c.mother_id, creatures),
        father: name_of(c.father_id, creatures),
        children_born: c.children_born,
        taught_count: c.taught_count,
        shared_count: c.shared_count,
        expecting_in: match c.pregnancy {
            Some(p) => Some(span_of(p.due_tick as i128 - tick as i128)),
            None => None,
        },
        cannot_yet: cannot_yet(c, creatures, household, cfg, tick),
        inherited_beliefs: inherited,
        from_the_dead: dead,
    };
    Some(detail)
}

/// What somebody wants is what they lack: two who are as hungry want as much food,
/// two as thirsty as much water, two as warm as much shelter, whatever else differs;
/// and everybody wants fuel alike.
pub proof fn law_wants_are_what_is_lacking(a: CreatureV, b: CreatureV)
    ensures
        a.hunger == b.hunger ==> needs_of(a).food == needs_of(b).food,
        a.thirst == b.thirst ==> needs_of(a).water == needs_of(b).water,
        a.warmth == b.warmth ==> needs_of(a).shelter == needs_of(b).shelter,
        needs_of(a).fuel == num(0x3F00_0000),
        needs_of(a).food == num(0x3F80_0000) - a.hunger / num(0x42C8_0000),
        needs_of(a).water == num(0x3F80_0000) - a.thirst / num(0x42C8_0000),
        needs_of(a).shelter == num(0x3F80_0000) - a.warmth / num(0x42C8_0000),
{
}

/// Whoever has less wants no less of it.
pub proof fn law_who_has_less_wants_more(less: CreatureV, more: CreatureV)
    requires
        less.hunger.finite() && more.hunger.finite() && !less.hunger.negative() && !more.hunger.negative(),
        less.hunger.le(more.hunger),
        more.hunger.le(num(FULL)),
    ensures
        needs_of(more).food.le(needs_of(less).food),
{
    law_quotients_keep_their_order(less.hunger, more.hunger, num(FULL), num(FULL));
    law_a_share_is_finite(less.hunger, num(FULL));
    law_a_share_is_finite(more.hunger, num(FULL));
    law_taking_more_leaves_no_more(num(ONE), less.hunger / num(FULL), more.hunger / num(FULL));
}

/// What is carried is listed once for each kind that is carried at all, and no other.
pub proof fn law_each_kind_is_listed_once(pack: Seq<Batch>, tick: i64, cfg: &WorldConfig, kind: ItemKind)
    ensures
        ({
            let all = carried_in(pack, tick, cfg);
            &&& (exists|i: int| 0 <= i < all.len() && (#[trigger] all[i]).kind == kind) <==> (exists|i: int|
                0 <= i < pack.len() && (#[trigger] pack[i]).kind == kind)
            &&& forall|i: int, j: int|
                0 <= i < j < all.len() ==> (#[trigger] all[i]).kind != (#[trigger] all[j]).kind
        }),
    decreases pack.len(),
{
    if pack.len() > 0 {
        let shorter = pack.drop_last();
        let b = pack.last();
        law_each_kind_is_listed_once(shorter, tick, cfg, kind);
        let before = carried_in(shorter, tick, cfg);
        let all = carried_in(pack, tick, cfg);
        assert(forall|i: int| 0 <= i < shorter.len() ==> #[trigger] pack[i] == shorter[i]);
        assert(pack[pack.len() - 1] == b);
        let p = is_carried(b.kind);
        lemma_first_where(before, p);
        let at = first_where(before, p);
        if at < before.len() {
            assert(p(before[at]));
            assert(forall|i: int| 0 <= i < before.len() ==> (#[trigger] all[i]).kind == before[i].kind);
            assert(all[at].kind == b.kind);
        } else {
            assert(forall|i: int| 0 <= i < before.len() ==> #[trigger] all[i] == before[i] && !p(before[i]));
            assert(all[before.len() as int].kind == b.kind);
        }
        if exists|i: int| 0 <= i < shorter.len() && (#[trigger] shorter[i]).kind == kind {
            let i = choose|i: int| 0 <= i < shorter.len() && (#[trigger] shorter[i]).kind == kind;
            assert(pack[i].kind == kind);
            let j = choose|j: int| 0 <= j < before.len() && (#[trigger] before[j]).kind == kind;
            assert(all[j].kind == kind);
        }
        if exists|i: int| 0 <= i < all.len() && (#[trigger] all[i]).kind == kind {
            let i = choose|i: int| 0 <= i < all.len() && (#[trigger] all[i]).kind == kind;
            if i < before.len() {
                assert(before[i].kind == kind);
                let j = choose|j: int| 0 <= j < shorter.len() && (#[trigger] shorter[j]).kind == kind;
                assert(pack[j].kind == kind);
            }
        }
        if exists|i: int| 0 <= i < pack.len() && (#[trigger] pack[i]).kind == kind {
            let i = choose|i: int| 0 <= i < pack.len() && (#[trigger] pack[i]).kind == kind;
            if i < shorter.len() {
                assert(shorter[i].kind == kind);
            }
        }
    }
}

/// What is shown to turn turns with the oldest: of two batches of a kind the sooner
/// counts.
pub proof fn law_the_sooner_counts(a: Option<i64>, b: Option<i64>)
    ensures
        sooner(a, b) == sooner(b, a),
        a is None ==> sooner(a, b) == b,
        a matches Some(x) ==> (b matches Some(y) ==> sooner(a, b) == Some(if x <= y { x } else { y })),
{
}

/// The steps of a plan before the current one are done, that one is current, and
/// those after it are neither.
pub proof fn law_steps_are_done_in_order(plan: PlanV, nodes: Seq<ResourceNode>, i: int)
    requires
        0 <= i < plan.steps.len(),
    ensures
        ({
            let lines = step_lines(Some(plan), nodes);
            &&& lines.len() == plan.steps.len()
            &&& lines[i].done <==> i < plan.step_index
            &&& lines[i].current <==> i == plan.step_index
            &&& lines[i].goal == plan.steps[i].goal.text()
            &&& lines[i].est_ticks == plan.steps[i].est_ticks
        }),
{
}

/// What keeps a couple from a child is the same whichever of them is asked.
pub proof fn law_a_couple_sees_one_obstacle(
    people: Seq<CreatureV>,
    i: int,
    j: int,
    home: Option<HouseholdV>,
    cfg: &WorldConfig,
    tick: i64,
)
    requires
        0 <= i < people.len(),
        0 <= j < people.len(),
        place_of(people, people[i].id) == i,
        place_of(people, people[j].id) == j,
        people[i].mate_id == Some(people[j].id),
        people[j].mate_id == Some(people[i].id),
        people[i].sex == Sex::Female,
        people[j].sex == Sex::Male,
    ensures
        obstacle(people[i], people, home, cfg, tick) == obstacle(people[j], people, home, cfg, tick),
        obstacle(people[i], people, home, cfg, tick) is None <==> blocker_of(people[i], people[j], home, cfg, tick)
            is None,
{
}

/// What is shown of somebody is theirs.
pub proof fn law_the_detail_is_theirs(
    c: Creature,
    people: Seq<CreatureV>,
    homes: Seq<HouseholdV>,
    nodes: Seq<ResourceNode>,
    cfg: &WorldConfig,
    tick: i64,
)
    ensures
        ({
            let d = detail_of(c, people, homes, nodes, cfg, tick);
            &&& d.id == c.id && d.name == c.name@ && d.x == c.x && d.y == c.y && d.generation == c.generation
            &&& d.hunger == c.hunger && d.thirst == c.thirst && d.fatigue == c.fatigue && d.warmth == c.warmth && d.health
                == c.health
            &&& d.traits == c.traits && d.belief_count == c.beliefs@.len()
            &&& i64::MIN <= tick - c.birth_tick <= i64::MAX ==> d.age == tick - c.birth_tick
            &&& d.sheltered <==> c.in_shelter is Some
            &&& d.household_id == c.household_id
            &&& d.children_born == c.children_born && d.taught_count == c.taught_count && d.shared_count == c.shared_count
            &&& c.pregnancy is None <==> d.expecting_in is None
            &&& d.from_the_dead <= d.belief_count && d.inherited_beliefs <= d.belief_count
        }),
{
    lemma_count_where_bound(c.beliefs@, is_inherited(c.id));
    lemma_count_where_bound(c.beliefs@, is_left_behind(c.id, people));
}

/// What is said to turn in no time has turned: the time left of a batch is used up
/// exactly when it has spoiled.
pub proof fn law_the_time_left_runs_out(b: Batch, tick: i64, cfg: &WorldConfig)
    ensures
        is_spoiled(b, tick, cfg) <==> (turns_in(b, tick, cfg) matches Some(left) && left <= 0),
        turns_in(b, tick, cfg) is None <==> shelf_life(b.kind, cfg) is None,
{
}

/// What is shown of a household is its own: its food, its grain, and how many live in
/// it; and a name is shown only of somebody who is there.
pub proof fn law_a_household_is_shown_as_it_is(c: CreatureV, homes: Seq<HouseholdV>, people: Seq<CreatureV>, k: int, id: i64)
    requires
        0 <= k < homes.len(),
        home_at(homes, homes[k].id) == k,
    ensures
        c.household_id == Some(homes[k].id) ==> hearth_of(c, homes) == Some(homes[k]),
        c.household_id is None ==> hearth_of(c, homes) is None,
        store_in(Some(homes[k])) == food_of(homes[k].store),
        grain_in(Some(homes[k])) == total_of(homes[k].store, ItemKind::Grain),
        store_in(None) == num(0) && grain_in(None) == num(0),
        lives_with(Some(homes[k].id))(c) <==> c.household_id == Some(homes[k].id),
        named(Some(id), people) is Some <==> is_here(people, id),
        named(Some(id), people) matches Some((whom, name)) ==> whom == id && name == people[place_of(people, id)].name,
        named(None, people) is None,
{
}

/// What somebody knows from others is what they did not find out themselves; what is
/// left by the dead is that of it whose finder is gone.
pub proof fn law_what_is_known_from_others(b: Belief, own: i64, people: Seq<CreatureV>)
    ensures
        is_inherited(own)(b) <==> b.origin_creature_id is Some && b.origin_creature_id != Some(own),
        is_left_behind(own, people)(b) <==> is_inherited(own)(b) && !is_here(people, b.origin_creature_id->0),
{
}

/// What is carried of a kind is shown as one amount: one more batch adds to what is
/// shown of its kind, and to nothing else, and turns the whole as soon as the sooner
/// of the two.
pub proof fn law_a_batch_adds_to_its_kind(all: Seq<Carried>, b: Batch, tick: i64, cfg: &WorldConfig, k: int)
    requires
        0 <= k < all.len(),
        forall|i: int, j: int| 0 <= i < j < all.len() ==> (#[trigger] all[i]).kind != (#[trigger] all[j]).kind,
    ensures
        ({
            let after = carried_with(all, b, tick, cfg);
            &&& all[k].kind == b.kind ==> after.len() == all.len() && after[k].kind == b.kind && after[k].quantity
                == all[k].quantity + b.quantity && after[k].spoils_in == sooner(
                all[k].spoils_in,
                turns_in(b, tick, cfg),
            )
            &&& all[k].kind != b.kind ==> after[k] == all[k]
            &&& (forall|i: int| 0 <= i < all.len() ==> (#[trigger] all[i]).kind != b.kind) ==> after == all.push(
                Carried { kind: b.kind, quantity: b.quantity, spoils_in: turns_in(b, tick, cfg) },
            )
        }),
{
    let p = is_carried(b.kind);
    lemma_first_where(all, p);
    let at = first_where(all, p);
    if all[k].kind == b.kind {
        assert forall|i: int| 0 <= i < k implies !p(#[trigger] all[i]) by {
            assert(all[i].kind != all[k].kind);
        }
        lemma_first_where_is(all, p, k);
    } else if at < all.len() {
        assert(p(all[at]));
    }
}

} // verus!
