//! The belief substrate.
//!
//! No creature sees the whole map. Each carries a private, incomplete and
//! possibly wrong model of the world, built from what it has personally seen
//! and what it was told.

use crate::config::KnowledgeConfig;
use crate::lists::{
    first_where, law_ranking_is_ordered, lemma_filter_start, lemma_filter_step, lemma_filtered, lemma_first_where,
    lemma_first_where_is, outranks, rank_in, ranked_by, top, top_of,
};
use crate::num::{
    law_a_product_does_not_vanish, law_a_share_is_no_more, law_adding_more_makes_no_less, law_counts_keep_their_order,
    law_more_times_is_no_less, law_no_product_is_negative, law_nothing_changes_nothing, law_once_is_itself,
    law_one_and_one, law_product_is_a_number, law_products_commute, law_quotients_keep_their_order, law_sum_is_a_number,
    law_taking_more_leaves_no_more, law_what_is_left, lemma_nothing_of, lemma_nothing_times, lemma_signed,
    lemma_square_is_not_negative, lemma_squared_either_way, lemma_summed_either_way, num, of_int, root_of, sum_of, Num,
    NOTHING, ONE,
};
use crate::text::{integer, integer_text, same_text};
use crate::world::NodeKind;
use vstd::prelude::*;
use vstd::string::*;

verus! {

#[derive(Debug, Clone, Copy, PartialEq, Eq, Structural)]
pub enum BeliefKind {
    Water,
    ForageNode,
    WoodNode,
    SoilPatch,
    SheepFlock,
    Shelter,
    HouseholdTerritory,
    Danger,
    Person,
}

/// 0.05
pub const WATER_DECAY: u32 = 0x3D4C_CCCD;

/// 0.1
pub const SOIL_DECAY: u32 = 0x3DCC_CCCD;

/// 0.25
pub const SHELTER_DECAY: u32 = 0x3E80_0000;

/// 0.6
pub const WOOD_DECAY: u32 = 0x3F19_999A;

/// 2.0
pub const FLOCK_DECAY: u32 = 0x4000_0000;

impl BeliefKind {
    pub open spec fn text(self) -> Seq<char> {
        match self {
            BeliefKind::Water => "WATER"@,
            BeliefKind::ForageNode => "FORAGE_NODE"@,
            BeliefKind::WoodNode => "WOOD_NODE"@,
            BeliefKind::SoilPatch => "SOIL_PATCH"@,
            BeliefKind::SheepFlock => "SHEEP_FLOCK"@,
            BeliefKind::Shelter => "SHELTER"@,
            BeliefKind::HouseholdTerritory => "HOUSEHOLD_TERRITORY"@,
            BeliefKind::Danger => "DANGER"@,
            BeliefKind::Person => "PERSON"@,
        }
    }

    pub fn as_str(self) -> (s: &'static str)
        ensures
            s@ == self.text(),
    {
        match self {
            BeliefKind::Water => "WATER",
            BeliefKind::ForageNode => "FORAGE_NODE",
            BeliefKind::WoodNode => "WOOD_NODE",
            BeliefKind::SoilPatch => "SOIL_PATCH",
            BeliefKind::SheepFlock => "SHEEP_FLOCK",
            BeliefKind::Shelter => "SHELTER",
            BeliefKind::HouseholdTerritory => "HOUSEHOLD_TERRITORY",
            BeliefKind::Danger => "DANGER",
            BeliefKind::Person => "PERSON",
        }
    }

    /// The kind whose text this is, if any has it.
    pub fn parse(s: &str) -> (r: Option<Self>)
        ensures
            r matches Some(k) ==> k.text() == s@,
            r is None ==> forall|k: BeliefKind| #[trigger] k.text() != s@,
    {
        if same_text(s, "WATER") {
            Some(BeliefKind::Water)
        } else if same_text(s, "FORAGE_NODE") {
            Some(BeliefKind::ForageNode)
        } else if same_text(s, "WOOD_NODE") {
            Some(BeliefKind::WoodNode)
        } else if same_text(s, "SOIL_PATCH") {
            Some(BeliefKind::SoilPatch)
        } else if same_text(s, "SHEEP_FLOCK") {
            Some(BeliefKind::SheepFlock)
        } else if same_text(s, "SHELTER") {
            Some(BeliefKind::Shelter)
        } else if same_text(s, "HOUSEHOLD_TERRITORY") {
            Some(BeliefKind::HouseholdTerritory)
        } else if same_text(s, "DANGER") {
            Some(BeliefKind::Danger)
        } else if same_text(s, "PERSON") {
            Some(BeliefKind::Person)
        } else {
            None
        }
    }

    pub open spec fn bit_spec(self) -> u16 {
        match self {
            BeliefKind::Water => 1,
            BeliefKind::ForageNode => 2,
            BeliefKind::WoodNode => 4,
            BeliefKind::SoilPatch => 8,
            BeliefKind::SheepFlock => 16,
            BeliefKind::Shelter => 32,
            BeliefKind::HouseholdTerritory => 64,
            BeliefKind::Danger => 128,
            BeliefKind::Person => 256,
        }
    }

    /// One bit per kind, so what a creature knows about fits in a `u16`.
    #[verifier::when_used_as_spec(bit_spec)]
    pub fn bit(self) -> (b: u16)
        ensures
            b == self.bit_spec(),
    {
        match self {
            BeliefKind::Water => 1,
            BeliefKind::ForageNode => 2,
            BeliefKind::WoodNode => 4,
            BeliefKind::SoilPatch => 8,
            BeliefKind::SheepFlock => 16,
            BeliefKind::Shelter => 32,
            BeliefKind::HouseholdTerritory => 64,
            BeliefKind::Danger => 128,
            BeliefKind::Person => 256,
        }
    }

    pub open spec fn decay_scale_spec(self) -> Num {
        num(
            match self {
                BeliefKind::Water => WATER_DECAY,
                BeliefKind::SoilPatch => SOIL_DECAY,
                BeliefKind::Shelter => SHELTER_DECAY,
                BeliefKind::WoodNode => WOOD_DECAY,
                BeliefKind::ForageNode => ONE,
                BeliefKind::SheepFlock => FLOCK_DECAY,
                BeliefKind::Person | BeliefKind::Danger | BeliefKind::HouseholdTerritory => ONE,
            },
        )
    }

    /// How fast a belief of this kind goes stale, as a multiple of the base
    /// decay rate. Landmarks persist; harvests do not; flocks wander off.
    #[verifier::when_used_as_spec(decay_scale_spec)]
    pub fn decay_scale(self) -> (r: Num)
        ensures
            r == self.decay_scale_spec(),
    {
        num(
            match self {
                BeliefKind::Water => WATER_DECAY,
                BeliefKind::SoilPatch => SOIL_DECAY,
                BeliefKind::Shelter => SHELTER_DECAY,
                BeliefKind::WoodNode => WOOD_DECAY,
                BeliefKind::ForageNode => ONE,
                BeliefKind::SheepFlock => FLOCK_DECAY,
                BeliefKind::Person | BeliefKind::Danger | BeliefKind::HouseholdTerritory => ONE,
            },
        )
    }

    pub open spec fn of_node_spec(kind: NodeKind) -> Self {
        match kind {
            NodeKind::Forage => BeliefKind::ForageNode,
            NodeKind::Wood => BeliefKind::WoodNode,
            NodeKind::Wheat => BeliefKind::SoilPatch,
            NodeKind::Sheep => BeliefKind::SheepFlock,
        }
    }

    #[verifier::when_used_as_spec(of_node_spec)]
    pub fn of_node(kind: NodeKind) -> (r: Self)
        ensures
            r == Self::of_node_spec(kind),
    {
        match kind {
            NodeKind::Forage => BeliefKind::ForageNode,
            NodeKind::Wood => BeliefKind::WoodNode,
            NodeKind::Wheat => BeliefKind::SoilPatch,
            NodeKind::Sheep => BeliefKind::SheepFlock,
        }
    }
}

/// No two kinds share a text, so a stored kind is read back as it was.
pub proof fn law_belief_texts_are_distinct(a: BeliefKind, b: BeliefKind)
    ensures
        a.text() == b.text() ==> a == b,
{
    reveal_strlit("WATER");
    reveal_strlit("FORAGE_NODE");
    reveal_strlit("WOOD_NODE");
    reveal_strlit("SOIL_PATCH");
    reveal_strlit("SHEEP_FLOCK");
    reveal_strlit("SHELTER");
    reveal_strlit("HOUSEHOLD_TERRITORY");
    reveal_strlit("DANGER");
    reveal_strlit("PERSON");
    assert(a.text().len() == b.text().len() && a.text()[0] == b.text()[0] && a.text()[1] == b.text()[1] ==> a == b);
}

/// What the creature thinks is there. Deliberately coarse: a creature remembers
/// "plentiful" or "picked over", not a number.
#[derive(Debug, Clone, Copy, PartialEq, Eq, Structural)]
pub enum Estimate {
    Empty,
    Sparse,
    Moderate,
    Plentiful,
}

/// 0.02
pub const FAINT: u32 = 0x3CA3_D70A;

/// 0.28
pub const SPARSE_VALUE: u32 = 0x3E8F_5C29;

/// 0.65
pub const SOME_VALUE: u32 = 0x3F26_6666;

impl Estimate {
    pub open spec fn share(quantity: Num, max: Num) -> Num {
        if max.gt(num(NOTHING)) {
            quantity / max
        } else {
            num(NOTHING)
        }
    }

    pub open spec fn of_spec(quantity: Num, max: Num) -> Self {
        let f = Self::share(quantity, max);
        if f.le(num(FAINT)) {
            Estimate::Empty
        } else if f.lt(num(SHELTER_DECAY)) {
            Estimate::Sparse
        } else if f.lt(num(SOME_VALUE)) {
            Estimate::Moderate
        } else {
            Estimate::Plentiful
        }
    }

    #[verifier::when_used_as_spec(of_spec)]
    pub fn of(quantity: Num, max: Num) -> (r: Self)
        ensures
            r == Self::of_spec(quantity, max),
    {
        let f = if max.gt(num(NOTHING)) {
            quantity / max
        } else {
            num(NOTHING)
        };
        if f.le(num(FAINT)) {
            Estimate::Empty
        } else if f.lt(num(SHELTER_DECAY)) {
            Estimate::Sparse
        } else if f.lt(num(SOME_VALUE)) {
            Estimate::Moderate
        } else {
            Estimate::Plentiful
        }
    }

    pub open spec fn text(self) -> Seq<char> {
        match self {
            Estimate::Empty => "empty"@,
            Estimate::Sparse => "picked over"@,
            Estimate::Moderate => "some"@,
            Estimate::Plentiful => "plentiful"@,
        }
    }

    pub fn as_str(self) -> (s: &'static str)
        ensures
            s@ == self.text(),
    {
        match self {
            Estimate::Empty => "empty",
            Estimate::Sparse => "picked over",
            Estimate::Moderate => "some",
            Estimate::Plentiful => "plentiful",
        }
    }

    pub open spec fn expected_value_spec(self) -> Num {
        num(
            match self {
                Estimate::Empty => NOTHING,
                Estimate::Sparse => SPARSE_VALUE,
                Estimate::Moderate => SOME_VALUE,
                Estimate::Plentiful => ONE,
            },
        )
    }

    /// How much a creature expects to get out of going there.
    #[verifier::when_used_as_spec(expected_value_spec)]
    pub fn expected_value(self) -> (r: Num)
        ensures
            r == self.expected_value_spec(),
    {
        num(
            match self {
                Estimate::Empty => NOTHING,
                Estimate::Sparse => SPARSE_VALUE,
                Estimate::Moderate => SOME_VALUE,
                Estimate::Plentiful => ONE,
            },
        )
    }
}

#[derive(Debug, Clone, Copy, PartialEq, Eq, Structural)]
pub struct Belief {
    pub kind: BeliefKind,
    pub x: u32,
    pub y: u32,
    pub estimate: Estimate,
    /// Confidence at `last_verified_tick`. Current confidence is this decayed
    /// by elapsed time; see `confidence_at`.
    pub confidence: Num,
    pub learned_tick: i64,
    pub last_verified_tick: i64,
    pub source_creature_id: Option<i64>,
    /// How far this has travelled from firsthand observation.
    pub hops: u8,
    /// Survives every retransmission, so a belief can always be traced to the
    /// creature that first saw the thing.
    pub origin_creature_id: Option<i64>,
    pub origin_tick: i64,
}

/// Ticks from one moment to a later one; none if it is not later.
pub open spec fn elapsed_between(from: i64, to: i64) -> int {
    if to > from {
        to - from
    } else {
        0
    }
}

fn elapsed_num(from: i64, to: i64) -> (r: Num)
    ensures
        r == of_int(elapsed_between(from, to)),
{
    if to > from {
        Num::from_u64((to as i128 - from as i128) as u64)
    } else {
        Num::from_u64(0)
    }
}

impl Belief {
    pub open spec fn confidence_at_spec(&self, tick: i64, cfg: &KnowledgeConfig) -> Num {
        let elapsed = of_int(elapsed_between(self.last_verified_tick, tick));
        let rate = cfg.confidence_decay_per_tick * self.kind.decay_scale();
        (self.confidence - elapsed * rate).clamp(num(NOTHING), num(ONE))
    }

    /// Confidence decays with time since last verified.
    pub fn confidence_at(&self, tick: i64, cfg: &KnowledgeConfig) -> (r: Num)
        ensures
            r == self.confidence_at_spec(tick, cfg),
    {
        let elapsed = elapsed_num(self.last_verified_tick, tick);
        let rate = cfg.confidence_decay_per_tick * self.kind.decay_scale();
        (self.confidence - elapsed * rate).clamp(num(NOTHING), num(ONE))
    }

    pub open spec fn is_firsthand_spec(&self) -> bool {
        self.hops == 0
    }

    #[verifier::when_used_as_spec(is_firsthand_spec)]
    pub fn is_firsthand(&self) -> (r: bool)
        ensures
            r == self.is_firsthand_spec(),
    {
        self.hops == 0
    }

    pub open spec fn age_text(&self, tick: i64) -> Seq<char> {
        let age = tick - self.last_verified_tick;
        if age < 24 {
            "recently"@
        } else if age < 168 {
            integer_text(age / 24) + " days ago"@
        } else {
            integer_text(age / 168) + " weeks ago"@
        }
    }

    pub open spec fn provenance_text(&self, tick: i64) -> Seq<char> {
        if self.is_firsthand() {
            "you saw it yourself, "@ + self.age_text(tick)
        } else if self.hops == 1 {
            "someone told you, "@ + self.age_text(tick)
        } else {
            integer_text(self.hops as int) + " hops from anyone who saw it, "@ + self.age_text(tick)
        }
    }

    /// Plain-language provenance, which is what lets a reader judge how far to
    /// commit on a belief.
    pub fn provenance(&self, tick: i64) -> (s: String)
        ensures
            s@ == self.provenance_text(tick),
    {
        let age: i128 = tick as i128 - self.last_verified_tick as i128;
        let when = if age < 24 {
            "recently".to_owned()
        } else if age < 168 {
            let mut w = integer((age / 24) as i64);
            w.append(" days ago");
            w
        } else {
            let mut w = integer((age / 168) as i64);
            w.append(" weeks ago");
            w
        };
        if self.is_firsthand() {
            let mut s = "you saw it yourself, ".to_owned();
            s.append(when.as_str());
            s
        } else if self.hops == 1 {
            let mut s = "someone told you, ".to_owned();
            s.append(when.as_str());
            s
        } else {
            let mut s = integer(self.hops as i64);
            s.append(" hops from anyone who saw it, ");
            s.append(when.as_str());
            s
        }
    }
}

/// Confidence never rises with time alone, whatever is believed, where the rate at
/// which it fades is a number of its own.
pub proof fn law_confidence_only_falls(b: Belief, early: i64, late: i64, cfg: &KnowledgeConfig)
    requires
        early <= late,
        b.confidence.finite(),
        (cfg.confidence_decay_per_tick * b.kind.decay_scale()).finite(),
        !(cfg.confidence_decay_per_tick * b.kind.decay_scale()).negative(),
    ensures
        b.confidence_at_spec(late, cfg).le(b.confidence_at_spec(early, cfg)),
        num(NOTHING).le(b.confidence_at_spec(late, cfg)),
        b.confidence_at_spec(late, cfg).le(num(ONE)),
{
    let rate = cfg.confidence_decay_per_tick * b.kind.decay_scale();
    let short = elapsed_between(b.last_verified_tick, early);
    let long = elapsed_between(b.last_verified_tick, late);
    law_counts_keep_their_order(short as nat, long as nat);
    law_more_times_is_no_less(of_int(short), of_int(long), rate);
    law_taking_more_leaves_no_more(b.confidence, of_int(short) * rate, of_int(long) * rate);
}

/// What a creature currently wants. Values are 0..1 where 1 means that this
/// need is the pressing one.
#[derive(Debug, Clone, Copy, PartialEq, Eq, Structural)]
pub struct NeedProfile {
    pub food: Num,
    pub water: Num,
    pub fuel: Num,
    pub shelter: Num,
}

/// 0.8
pub const FLOCK_MATCH: u32 = 0x3F4C_CCCD;

/// 0.7
pub const SOIL_MATCH: u32 = 0x3F33_3333;

/// 0.15
pub const SLIGHT: u32 = 0x3E19_999A;

impl NeedProfile {
    pub open spec fn match_for_spec(&self, kind: BeliefKind) -> Num {
        match kind {
            BeliefKind::Water => self.water,
            BeliefKind::ForageNode => self.food,
            BeliefKind::SheepFlock => self.food * num(FLOCK_MATCH),
            BeliefKind::SoilPatch => self.food * num(SOIL_MATCH),
            BeliefKind::WoodNode => self.fuel,
            BeliefKind::Shelter => self.shelter,
            BeliefKind::Danger => num(NOTHING),
            _ => num(SLIGHT),
        }
    }

    /// How well a belief of this kind serves what the creature wants.
    pub fn match_for(&self, kind: BeliefKind) -> (r: Num)
        ensures
            r == self.match_for_spec(kind),
    {
        match kind {
            BeliefKind::Water => self.water,
            BeliefKind::ForageNode => self.food,
            BeliefKind::SheepFlock => self.food * num(FLOCK_MATCH),
            BeliefKind::SoilPatch => self.food * num(SOIL_MATCH),
            BeliefKind::WoodNode => self.fuel,
            BeliefKind::Shelter => self.shelter,
            BeliefKind::Danger => num(NOTHING),
            _ => num(SLIGHT),
        }
    }
}

/// 24.0: roughly a day's travel there and back.
pub const DAY_TRIP: u32 = 0x41C0_0000;

/// 168.0: a week.
pub const WEEK: u32 = 0x4328_0000;

/// A falling weight: one at nothing, a half at the scale.
pub open spec fn falloff(v: Num, scale: u32) -> Num {
    num(ONE) / (num(ONE) + v / num(scale))
}

pub open spec fn distance_between(ax: u32, ay: u32, bx: u32, by: u32) -> Num {
    let dx = of_int(ax as int) - of_int(bx as int);
    let dy = of_int(ay as int) - of_int(by as int);
    root_of(dx * dx + dy * dy)
}

pub open spec fn worth_of(e: Estimate) -> Num {
    e.expected_value().max(num(WATER_DECAY))
}

pub open spec fn target_quality_spec(b: &Belief, from: (u32, u32), tick: i64, cfg: &KnowledgeConfig) -> Num {
    let confidence = b.confidence_at_spec(tick, cfg);
    if confidence.le(num(NOTHING)) {
        num(NOTHING)
    } else {
        confidence * falloff(distance_between(b.x, b.y, from.0, from.1), DAY_TRIP) * falloff(
            of_int(elapsed_between(b.last_verified_tick, tick)),
            WEEK,
        ) * worth_of(b.estimate)
    }
}

/// How good a target this belief is, independent of what the creature wants:
/// credibility, reachability, freshness and expected yield.
pub fn target_quality(b: &Belief, from: (u32, u32), tick: i64, cfg: &KnowledgeConfig) -> (r: Num)
    ensures
        r == target_quality_spec(b, from, tick, cfg),
{
    let confidence = b.confidence_at(tick, cfg);
    if confidence.le(num(NOTHING)) {
        return num(NOTHING);
    }
    let dx = Num::from_u64(b.x as u64) - Num::from_u64(from.0 as u64);
    let dy = Num::from_u64(b.y as u64) - Num::from_u64(from.1 as u64);
    let dist = (dx * dx + dy * dy).sqrt();
    let distance_term = num(ONE) / (num(ONE) + dist / num(DAY_TRIP));
    let elapsed = elapsed_num(b.last_verified_tick, tick);
    let recency_term = num(ONE) / (num(ONE) + elapsed / num(WEEK));
    confidence * distance_term * recency_term * b.estimate.expected_value().max(num(WATER_DECAY))
}

pub open spec fn relevance_spec(
    b: &Belief,
    from: (u32, u32),
    tick: i64,
    needs: &NeedProfile,
    cfg: &KnowledgeConfig,
) -> Num {
    let need = needs.match_for_spec(b.kind);
    if need.le(num(NOTHING)) {
        num(NOTHING)
    } else {
        target_quality_spec(b, from, tick, cfg) * need
    }
}

/// Relevance of a belief: confidence, distance, recency and current need,
/// multiplied, so any term near zero rules the belief out.
pub fn relevance(b: &Belief, from: (u32, u32), tick: i64, needs: &NeedProfile, cfg: &KnowledgeConfig) -> (r: Num)
    ensures
        r == relevance_spec(b, from, tick, needs, cfg),
{
    let need = needs.match_for(b.kind);
    if need.le(num(NOTHING)) {
        return num(NOTHING);
    }
    target_quality(b, from, tick, cfg) * need
}

/// About the same thing in the same place.
pub open spec fn same_place(a: Belief, b: Belief) -> bool {
    a.kind == b.kind && a.x == b.x && a.y == b.y
}

/// Whether word about a place displaces what is already believed of it. What was
/// seen gives way only to what was seen later; hearsay gives way to what was seen,
/// and to word that is nearer to it or later.
pub open spec fn displaces(incoming: Belief, existing: Belief) -> bool {
    ||| incoming.hops == 0 && (existing.hops > 0 || incoming.last_verified_tick > existing.last_verified_tick)
    ||| incoming.hops > 0 && existing.hops > 0 && (incoming.hops < existing.hops || incoming.last_verified_tick
        > existing.last_verified_tick)
}

pub open spec fn earlier(a: i64, b: i64) -> i64 {
    if b < a {
        b
    } else {
        a
    }
}

/// A refreshed belief: the incoming one, with the credit of the first
/// discovery and the earlier of the dates.
pub open spec fn refreshed(existing: Belief, incoming: Belief) -> Belief {
    Belief {
        origin_creature_id: if existing.origin_creature_id is Some {
            existing.origin_creature_id
        } else {
            incoming.origin_creature_id
        },
        origin_tick: earlier(existing.origin_tick, incoming.origin_tick),
        learned_tick: earlier(existing.learned_tick, incoming.learned_tick),
        ..incoming
    }
}

/// 4.0
pub const SCARCITY: u32 = 0x4080_0000;

/// The largest finite number.
pub const LARGEST: u32 = 0x7F7F_FFFF;

pub open spec fn only_one_of_its_kind(beliefs: Seq<Belief>, i: int) -> bool {
    !exists|j: int| 0 <= j < beliefs.len() && j != i && #[trigger] beliefs[j].kind == beliefs[i].kind
}

/// How much a belief is worth remembering: credible, fresh, not known to be
/// empty, and four times as much for the last of its kind. Distance is no part
/// of it.
pub open spec fn keeping_value(beliefs: Seq<Belief>, i: int, tick: i64, cfg: &KnowledgeConfig) -> Num {
    let b = beliefs[i];
    b.confidence_at_spec(tick, cfg) * falloff(of_int(elapsed_between(b.last_verified_tick, tick)), WEEK) * worth_of(
        b.estimate,
    ) * (if only_one_of_its_kind(beliefs, i) {
        num(SCARCITY)
    } else {
        num(ONE)
    })
}

/// The belief among the first `n` least worth keeping, with its value; the
/// earliest among equals.
pub open spec fn least_worth(beliefs: Seq<Belief>, tick: i64, cfg: &KnowledgeConfig, n: int) -> (int, Num)
    decreases n,
{
    if n <= 0 {
        (0, num(LARGEST))
    } else {
        let before = least_worth(beliefs, tick, cfg, n - 1);
        let v = keeping_value(beliefs, n - 1, tick, cfg);
        if v.lt(before.1) {
            (n - 1, v)
        } else {
            before
        }
    }
}

proof fn lemma_least_worth(beliefs: Seq<Belief>, tick: i64, cfg: &KnowledgeConfig, n: int)
    requires
        0 <= n <= beliefs.len(),
    ensures
        0 <= least_worth(beliefs, tick, cfg, n).0,
        least_worth(beliefs, tick, cfg, n).0 < n || least_worth(beliefs, tick, cfg, n).0 == 0,
    decreases n,
{
    if n > 0 {
        lemma_least_worth(beliefs, tick, cfg, n - 1);
    }
}

/// Which belief to forget when memory is full.
pub fn least_worth_keeping(beliefs: &Vec<Belief>, tick: i64, cfg: &KnowledgeConfig) -> (worst: usize)
    ensures
        worst == least_worth(beliefs@, tick, cfg, beliefs@.len() as int).0,
        worst < beliefs@.len() || worst == 0,
{
    let mut worst: usize = 0;
    let mut worst_score = num(LARGEST);
    for i in 0..beliefs.len()
        invariant
            worst == 0 || worst < i,
            (worst as int, worst_score) == least_worth(beliefs@, tick, cfg, i as int),
    {
        let b = &beliefs[i];
        let elapsed = elapsed_num(b.last_verified_tick, tick);
        let recency = num(ONE) / (num(ONE) + elapsed / num(WEEK));
        let mut alone = true;
        for j in 0..beliefs.len()
            invariant
                i < beliefs@.len(),
                *b == beliefs@[i as int],
                alone <==> !exists|k: int|
                    0 <= k < j && k != i && #[trigger] beliefs@[k].kind == beliefs@[i as int].kind,
        {
            if j != i && beliefs[j].kind == b.kind {
                assert(beliefs@[j as int].kind == beliefs@[i as int].kind);
                alone = false;
            }
        }
        let scarcity = if alone {
            num(SCARCITY)
        } else {
            num(ONE)
        };
        let s = b.confidence_at(tick, cfg) * recency * b.estimate.expected_value().max(num(WATER_DECAY)) * scarcity;
        assert(s == keeping_value(beliefs@, i as int, tick, cfg));
        if s.lt(worst_score) {
            worst_score = s;
            worst = i;
        }
    }
    worst
}

/// The beliefs after word of something, and whether it was new. Word of a known
/// place refreshes or is dropped; anything else is added, and what is then over
/// the limit of memory goes by the least worth keeping.
pub open spec fn with_upsert(
    beliefs: Seq<Belief>,
    incoming: Belief,
    cfg: &KnowledgeConfig,
    max_beliefs: nat,
    tick: i64,
) -> (Seq<Belief>, bool) {
    let i = first_where(beliefs, |b: Belief| same_place(b, incoming));
    if i < beliefs.len() {
        (
            if displaces(incoming, beliefs[i]) {
                beliefs.update(i, refreshed(beliefs[i], incoming))
            } else {
                beliefs
            },
            false,
        )
    } else {
        let more = beliefs.push(incoming);
        (
            if more.len() > max_beliefs {
                more.remove(least_worth(more, tick, cfg, more.len() as int).0)
            } else {
                more
            },
            true,
        )
    }
}

/// Inserts or refreshes a belief, keeping the better of the two. Firsthand
/// observation always wins over hearsay about the same place, which is what makes
/// walking somewhere and looking worth doing.
pub fn upsert(
    beliefs: &mut Vec<Belief>,
    incoming: Belief,
    _at: (u32, u32),
    cfg: &KnowledgeConfig,
    max_beliefs: usize,
    tick: i64,
) -> (new: bool)
    ensures
        (final(beliefs)@, new) == with_upsert(old(beliefs)@, incoming, cfg, max_beliefs as nat, tick),
{
    let mut i: usize = 0;
    while i < beliefs.len() && !(beliefs[i].kind == incoming.kind && beliefs[i].x == incoming.x && beliefs[i].y
        == incoming.y)
        invariant
            i <= beliefs@.len(),
            beliefs@ == old(beliefs)@,
            forall|j: int| 0 <= j < i ==> !same_place(#[trigger] beliefs@[j], incoming),
        decreases beliefs@.len() - i,
    {
        i = i + 1;
    }
    proof {
        lemma_first_where_is(beliefs@, |b: Belief| same_place(b, incoming), i as int);
    }
    if i < beliefs.len() {
        let existing = beliefs[i];
        let later = incoming.last_verified_tick > existing.last_verified_tick;
        let hearsay = incoming.hops > 0 && existing.hops == 0;
        if !hearsay && (incoming.hops < existing.hops || later) {
            let mut b = incoming;
            if existing.origin_creature_id.is_some() {
                b.origin_creature_id = existing.origin_creature_id;
            }
            if existing.origin_tick <= b.origin_tick {
                b.origin_tick = existing.origin_tick;
            }
            if existing.learned_tick <= b.learned_tick {
                b.learned_tick = existing.learned_tick;
            }
            assert(b == refreshed(existing, incoming));
            beliefs[i] = b;
        }
        return false;
    }
    beliefs.push(incoming);
    if beliefs.len() > max_beliefs {
        let worst = least_worth_keeping(beliefs, tick, cfg);
        beliefs.remove(worst);
    }
    true
}

/// Memory is finite: what fits before word of something fits after it.
pub proof fn law_memory_is_capped(
    beliefs: Seq<Belief>,
    incoming: Belief,
    cfg: &KnowledgeConfig,
    max_beliefs: nat,
    tick: i64,
)
    requires
        beliefs.len() <= max_beliefs,
    ensures
        with_upsert(beliefs, incoming, cfg, max_beliefs, tick).0.len() <= max_beliefs,
{
    lemma_first_where(beliefs, |b: Belief| same_place(b, incoming));
    let more = beliefs.push(incoming);
    lemma_least_worth(more, tick, cfg, more.len() as int);
}

/// Taking something in never leaves less behind.
pub proof fn lemma_upsert_keeps_count(
    beliefs: Seq<Belief>,
    incoming: Belief,
    cfg: &KnowledgeConfig,
    max_beliefs: nat,
    tick: i64,
)
    ensures
        beliefs.len() <= with_upsert(beliefs, incoming, cfg, max_beliefs, tick).0.len() <= beliefs.len() + 1,
{
    lemma_first_where(beliefs, |b: Belief| same_place(b, incoming));
    let more = beliefs.push(incoming);
    lemma_least_worth(more, tick, cfg, more.len() as int);
}

pub open spec fn places_are_distinct(beliefs: Seq<Belief>) -> bool {
    forall|i: int, j: int| 0 <= i < j < beliefs.len() ==> !same_place(#[trigger] beliefs[i], #[trigger] beliefs[j])
}

/// The same place is a refresh, never a second belief.
pub proof fn law_one_belief_per_place(
    beliefs: Seq<Belief>,
    incoming: Belief,
    cfg: &KnowledgeConfig,
    max_beliefs: nat,
    tick: i64,
)
    requires
        places_are_distinct(beliefs),
    ensures
        places_are_distinct(with_upsert(beliefs, incoming, cfg, max_beliefs, tick).0),
{
    let p = |b: Belief| same_place(b, incoming);
    lemma_first_where(beliefs, p);
    let i = first_where(beliefs, p);
    let after = with_upsert(beliefs, incoming, cfg, max_beliefs, tick).0;
    if i < beliefs.len() {
        assert(p(beliefs[i]));
        assert forall|a: int, b: int| 0 <= a < b < after.len() implies !same_place(
            #[trigger] after[a],
            #[trigger] after[b],
        ) by {
            assert(!same_place(beliefs[a], beliefs[b]));
        }
    } else {
        let more = beliefs.push(incoming);
        lemma_least_worth(more, tick, cfg, more.len() as int);
        assert forall|a: int, b: int| 0 <= a < b < more.len() implies !same_place(
            #[trigger] more[a],
            #[trigger] more[b],
        ) by {
            if b == beliefs.len() {
                assert(!p(beliefs[a]));
            } else {
                assert(!same_place(beliefs[a], beliefs[b]));
            }
        }
        if more.len() > max_beliefs {
            let w = least_worth(more, tick, cfg, more.len() as int).0;
            assert forall|a: int, b: int| 0 <= a < b < after.len() implies !same_place(
                #[trigger] after[a],
                #[trigger] after[b],
            ) by {
                let a2 = if a < w {
                    a
                } else {
                    a + 1
                };
                let b2 = if b < w {
                    b
                } else {
                    b + 1
                };
                assert(after[a] == more[a2] && after[b] == more[b2]);
                assert(!same_place(more[a2], more[b2]));
            }
        }
    }
}

/// Seeing a place oneself displaces any hearsay about it, and whoever first
/// discovered it keeps the credit.
pub proof fn law_firsthand_displaces_hearsay(existing: Belief, incoming: Belief)
    requires
        same_place(existing, incoming),
        incoming.hops == 0,
        existing.hops > 0,
    ensures
        displaces(incoming, existing),
        refreshed(existing, incoming).hops == 0,
        existing.origin_creature_id is Some ==> refreshed(existing, incoming).origin_creature_id
            == existing.origin_creature_id,
        refreshed(existing, incoming).origin_tick <= existing.origin_tick,
{
}

/// Hearsay never replaces what was seen: whatever word of a place arrives, a belief
/// about it that was held firsthand is held as it was.
pub proof fn law_hearsay_never_replaces_firsthand(
    beliefs: Seq<Belief>,
    incoming: Belief,
    i: int,
    cfg: &KnowledgeConfig,
    max_beliefs: nat,
    tick: i64,
)
    requires
        places_are_distinct(beliefs),
        0 <= i < beliefs.len(),
        same_place(beliefs[i], incoming),
        beliefs[i].hops == 0,
        incoming.hops > 0,
    ensures
        !displaces(incoming, beliefs[i]),
        with_upsert(beliefs, incoming, cfg, max_beliefs, tick) == (beliefs, false),
{
    let p = |b: Belief| same_place(b, incoming);
    assert forall|j: int| 0 <= j < i implies !p(#[trigger] beliefs[j]) by {
        assert(!same_place(beliefs[j], beliefs[i]));
    }
    assert(p(beliefs[i]));
    lemma_first_where_is(beliefs, p, i);
}

/// The three channels knowledge moves over, in increasing cost and fidelity.
#[derive(Debug, Clone, Copy, PartialEq, Eq, Structural)]
pub enum Channel {
    /// Passive, free, always on.
    Observation,
    /// One tick, small fatigue, topic-filtered, to an adjacent creature.
    Share,
    /// Multi-tick, household-only, adult to young. Transmits as though the
    /// recipient had seen it themselves.
    Teach,
}

impl Channel {
    pub open spec fn text(self) -> Seq<char> {
        match self {
            Channel::Observation => "OBSERVATION"@,
            Channel::Share => "SHARE_KNOWLEDGE"@,
            Channel::Teach => "TEACH"@,
        }
    }

    pub fn as_str(self) -> (s: &'static str)
        ensures
            s@ == self.text(),
    {
        match self {
            Channel::Observation => "OBSERVATION",
            Channel::Share => "SHARE_KNOWLEDGE",
            Channel::Teach => "TEACH",
        }
    }
}

pub open spec fn one_hop_more(hops: u8) -> u8 {
    if hops == u8::MAX {
        hops
    } else {
        (hops + 1) as u8
    }
}

pub open spec fn transmit_spec(b: &Belief, from: i64, channel: Channel, cfg: &KnowledgeConfig, tick: i64) -> Belief {
    let current = b.confidence_at_spec(tick, cfg);
    let told = current * (num(ONE) - cfg.per_hop_penalty);
    let confidence = match channel {
        Channel::Teach => current * cfg.teach_fidelity,
        Channel::Share => told,
        Channel::Observation => told.min(cfg.ambient_confidence),
    };
    Belief {
        hops: if channel == Channel::Teach {
            0
        } else {
            one_hop_more(b.hops)
        },
        confidence: confidence.clamp(num(NOTHING), num(ONE)),
        learned_tick: tick,
        source_creature_id: Some(from),
        ..*b
    }
}

/// Turns one creature's belief into the version another creature receives. Each
/// transmission degrades confidence; the origin is copied through unchanged.
pub fn transmit(b: &Belief, from: i64, channel: Channel, cfg: &KnowledgeConfig, tick: i64) -> (r: Belief)
    ensures
        r == transmit_spec(b, from, channel, cfg, tick),
{
    let current = b.confidence_at(tick, cfg);
    let further: u8 = if b.hops == u8::MAX {
        b.hops
    } else {
        b.hops + 1
    };
    let (hops, confidence) = match channel {
        Channel::Teach => (0, current * cfg.teach_fidelity),
        Channel::Share => (further, current * (num(ONE) - cfg.per_hop_penalty)),
        Channel::Observation => (further, (current * (num(ONE) - cfg.per_hop_penalty)).min(cfg.ambient_confidence)),
    };
    let mut r = *b;
    r.hops = hops;
    r.confidence = confidence.clamp(num(NOTHING), num(ONE));
    r.learned_tick = tick;
    r.source_creature_id = Some(from);
    r
}

/// What is taught arrives as though it had been seen; what is told or overheard is
/// further from it than it was, as far as can be counted.
pub proof fn law_only_teaching_brings_firsthand_knowledge(
    b: &Belief,
    from: i64,
    channel: Channel,
    cfg: &KnowledgeConfig,
    tick: i64,
)
    ensures
        channel == Channel::Teach ==> transmit_spec(b, from, channel, cfg, tick).hops == 0,
        channel != Channel::Teach ==> transmit_spec(b, from, channel, cfg, tick).hops == one_hop_more(b.hops),
        channel != Channel::Teach ==> transmit_spec(b, from, channel, cfg, tick).hops > 0,
{
}

/// The discoverer and the date of the discovery survive every retransmission,
/// over any channel; so does the moment the thing was last really seen.
pub proof fn law_the_discoverer_survives(b: &Belief, from: i64, channel: Channel, cfg: &KnowledgeConfig, tick: i64)
    ensures
        ({
            let r = transmit_spec(b, from, channel, cfg, tick);
            &&& r.origin_creature_id == b.origin_creature_id
            &&& r.origin_tick == b.origin_tick
            &&& r.last_verified_tick == b.last_verified_tick
            &&& same_place(r, *b)
            &&& r.hops >= b.hops || channel == Channel::Teach
            &&& channel == Channel::Teach ==> r.hops == 0
        }),
{
}

/// What is overheard is never surer than the ambient level.
pub proof fn law_overhearing_is_faint(b: &Belief, from: i64, cfg: &KnowledgeConfig, tick: i64)
    requires
        num(NOTHING).le(cfg.ambient_confidence),
        cfg.ambient_confidence.le(num(ONE)),
    ensures
        transmit_spec(b, from, Channel::Observation, cfg, tick).confidence.le(cfg.ambient_confidence),
{
}

/// The kinds a creature knows anything credible about.
pub open spec fn known_of(beliefs: Seq<Belief>, tick: i64, cfg: &KnowledgeConfig) -> u16
    decreases beliefs.len(),
{
    if beliefs.len() == 0 {
        0
    } else {
        let before = known_of(beliefs.drop_last(), tick, cfg);
        if beliefs.last().confidence_at_spec(tick, cfg).gt(num(SLIGHT)) {
            before | beliefs.last().kind.bit()
        } else {
            before
        }
    }
}

/// A bitmask of the kinds this creature knows anything credible about.
pub fn known_kinds(beliefs: &Vec<Belief>, tick: i64, cfg: &KnowledgeConfig) -> (mask: u16)
    ensures
        mask == known_of(beliefs@, tick, cfg),
{
    let mut mask: u16 = 0;
    for i in 0..beliefs.len()
        invariant
            mask == known_of(beliefs@.take(i as int), tick, cfg),
    {
        proof {
            assert(beliefs@.take(i + 1).drop_last() == beliefs@.take(i as int));
        }
        if beliefs[i].confidence_at(tick, cfg).gt(num(SLIGHT)) {
            mask = mask | beliefs[i].kind.bit();
        }
    }
    assert(beliefs@.take(beliefs@.len() as int) == beliefs@);
    mask
}

/// A kind is in the mask exactly if some credible belief is of that kind.
pub proof fn law_the_mask_is_what_is_known(beliefs: Seq<Belief>, tick: i64, cfg: &KnowledgeConfig, kind: BeliefKind)
    ensures
        known_of(beliefs, tick, cfg) & kind.bit() != 0 <==> exists|i: int|
            0 <= i < beliefs.len() && #[trigger] beliefs[i].kind == kind && beliefs[i].confidence_at_spec(
                tick,
                cfg,
            ).gt(num(SLIGHT)),
    decreases beliefs.len(),
{
    let bit = kind.bit();
    if beliefs.len() == 0 {
        assert(0u16 & bit == 0) by (bit_vector);
    } else {
        let shorter = beliefs.drop_last();
        law_the_mask_is_what_is_known(shorter, tick, cfg, kind);
        let before = known_of(shorter, tick, cfg);
        let b = beliefs.last();
        let other = b.kind.bit();
        lemma_bits(before, bit, other);
        assert(forall|i: int| 0 <= i < shorter.len() ==> #[trigger] beliefs[i] == shorter[i]);
        assert(beliefs[beliefs.len() - 1] == b);
        if known_of(beliefs, tick, cfg) & bit != 0 {
            if before & bit != 0 {
                let i = choose|i: int|
                    0 <= i < shorter.len() && #[trigger] shorter[i].kind == kind && shorter[i].confidence_at_spec(
                        tick,
                        cfg,
                    ).gt(num(SLIGHT));
                assert(beliefs[i].kind == kind);
            }
        }
    }
}

proof fn lemma_bits(mask: u16, bit: u16, other: u16)
    requires
        bit == 1 || bit == 2 || bit == 4 || bit == 8 || bit == 16 || bit == 32 || bit == 64 || bit == 128 || bit
            == 256,
        other == 1 || other == 2 || other == 4 || other == 8 || other == 16 || other == 32 || other == 64 || other
            == 128 || other == 256,
    ensures
        (mask | other) & bit != 0 <==> mask & bit != 0 || other == bit,
{
    assert((mask | other) & bit != 0 <==> mask & bit != 0 || other == bit) by (bit_vector)
        requires
            bit == 1 || bit == 2 || bit == 4 || bit == 8 || bit == 16 || bit == 32 || bit == 64 || bit == 128 || bit
                == 256,
            other == 1 || other == 2 || other == 4 || other == 8 || other == 16 || other == 32 || other == 64
                || other == 128 || other == 256,
    ;
}

/// Topics in the order of how badly a creature needs one it does not know.
pub open spec fn topics() -> Seq<BeliefKind> {
    seq![
        BeliefKind::Water,
        BeliefKind::ForageNode,
        BeliefKind::SoilPatch,
        BeliefKind::WoodNode,
        BeliefKind::Shelter,
    ]
}

fn topic(i: usize) -> (k: BeliefKind)
    requires
        i < 5,
    ensures
        k == topics()[i as int],
{
    match i {
        0 => BeliefKind::Water,
        1 => BeliefKind::ForageNode,
        2 => BeliefKind::SoilPatch,
        3 => BeliefKind::WoodNode,
        _ => BeliefKind::Shelter,
    }
}

pub open spec fn topic_lacking(mine: u16, theirs: u16, k: BeliefKind) -> bool {
    mine & k.bit() != 0 && theirs & k.bit() == 0
}

/// The first topic that one side has and the other lacks.
pub open spec fn topic_for_spec(mine: u16, theirs: u16) -> Option<BeliefKind> {
    let i = first_where(topics(), |k: BeliefKind| topic_lacking(mine, theirs, k));
    if i < 5 {
        Some(topics()[i])
    } else {
        None
    }
}

/// The kind this creature could usefully tell that one about, if any.
pub fn topic_for(mine: u16, theirs: u16) -> (r: Option<BeliefKind>)
    ensures
        r == topic_for_spec(mine, theirs),
{
    let ghost p = |k: BeliefKind| topic_lacking(mine, theirs, k);
    let mut i: usize = 0;
    while i < 5
        invariant
            i <= 5,
            p == (|k: BeliefKind| topic_lacking(mine, theirs, k)),
            forall|j: int| 0 <= j < i ==> !p(#[trigger] topics()[j]),
        decreases 5 - i,
    {
        let k = topic(i);
        if mine & k.bit() != 0 && theirs & k.bit() == 0 {
            proof {
                assert(p(topics()[i as int]));
                lemma_first_where_is(topics(), p, i as int);
            }
            return Some(k);
        }
        i = i + 1;
    }
    proof {
        lemma_first_where_is(topics(), p, 5);
    }
    None
}

/// The score of a belief offered on a topic, if it is offered at all.
pub open spec fn offer_score(
    b: Belief,
    topic: Option<BeliefKind>,
    from: (u32, u32),
    tick: i64,
    cfg: &KnowledgeConfig,
) -> Option<Num> {
    let q = target_quality_spec(&b, from, tick, cfg);
    if (topic is None || topic == Some(b.kind)) && q.gt(num(FAINT)) {
        Some(q)
    } else {
        None
    }
}

pub open spec fn offered(
    topic: Option<BeliefKind>,
    from: (u32, u32),
    tick: i64,
    cfg: &KnowledgeConfig,
) -> spec_fn(Belief) -> Option<Num> {
    |b: Belief| offer_score(b, topic, from, tick, cfg)
}

/// The places of the beliefs worth offering most.
pub open spec fn picks(
    beliefs: Seq<Belief>,
    topic: Option<BeliefKind>,
    from: (u32, u32),
    tick: i64,
    cfg: &KnowledgeConfig,
    n: nat,
) -> Seq<usize> {
    top_of(ranked_by(beliefs, offered(topic, from, tick, cfg), beliefs.len() as int), n)
}

/// Which beliefs a creature offers on a topic: the best-known ones go first.
pub fn select_for_sharing(
    beliefs: &Vec<Belief>,
    topic: Option<BeliefKind>,
    from: (u32, u32),
    tick: i64,
    cfg: &KnowledgeConfig,
    n: usize,
) -> (r: Vec<usize>)
    ensures
        r@ == picks(beliefs@, topic, from, tick, cfg, n as nat),
        forall|k: int| 0 <= k < r@.len() ==> (#[trigger] r@[k]) < beliefs@.len(),
{
    let ghost f = offered(topic, from, tick, cfg);
    let mut scored: Vec<(usize, Num)> = Vec::new();
    for i in 0..beliefs.len()
        invariant
            f == offered(topic, from, tick, cfg),
            scored@ == ranked_by(beliefs@, f, i as int),
    {
        let b = &beliefs[i];
        let on_topic = match topic {
            Some(t) => b.kind == t,
            None => true,
        };
        if on_topic {
            let q = target_quality(b, from, tick, cfg);
            if q.gt(num(FAINT)) {
                rank_in(&mut scored, (i, q));
            }
        }
    }
    proof {
        assert(beliefs@.len() == beliefs.len());
        crate::lists::law_ranking_is_ordered(beliefs@, f, beliefs@.len() as int);
    }
    top(&scored, n)
}

pub open spec fn knows_of(beliefs: Seq<Belief>, kind: BeliefKind, level: Num, tick: i64, cfg: &KnowledgeConfig) -> bool {
    exists|i: int|
        0 <= i < beliefs.len() && #[trigger] beliefs[i].kind == kind && beliefs[i].confidence_at_spec(tick, cfg).gt(
            level,
        )
}

fn knows(beliefs: &Vec<Belief>, kind: BeliefKind, level: Num, tick: i64, cfg: &KnowledgeConfig) -> (r: bool)
    ensures
        r == knows_of(beliefs@, kind, level, tick, cfg),
{
    for i in 0..beliefs.len()
        invariant
            forall|j: int|
                0 <= j < i ==> !(#[trigger] beliefs@[j].kind == kind && beliefs@[j].confidence_at_spec(tick, cfg).gt(
                    level,
                )),
    {
        if beliefs[i].kind == kind && beliefs[i].confidence_at(tick, cfg).gt(level) {
            assert(beliefs@[i as int].kind == kind);
            return true;
        }
    }
    false
}

/// 0.35
pub const SURE: u32 = 0x3EB3_3333;

pub open spec fn worth_raising(
    mine: Seq<Belief>,
    theirs: Seq<Belief>,
    tick: i64,
    cfg: &KnowledgeConfig,
    k: BeliefKind,
) -> bool {
    knows_of(mine, k, num(SURE), tick, cfg) && !knows_of(theirs, k, num(SLIGHT), tick, cfg)
}

pub open spec fn topic_worth_sharing_spec(
    mine: Seq<Belief>,
    theirs: Seq<Belief>,
    tick: i64,
    cfg: &KnowledgeConfig,
) -> Option<BeliefKind> {
    let i = first_where(topics(), |k: BeliefKind| worth_raising(mine, theirs, tick, cfg, k));
    if i < 5 {
        Some(topics()[i])
    } else {
        None
    }
}

/// What this creature knows that the other one does not, by kind. `None` when
/// there is nothing to add.
pub fn topic_worth_sharing(
    mine: &Vec<Belief>,
    theirs: &Vec<Belief>,
    tick: i64,
    cfg: &KnowledgeConfig,
) -> (r: Option<BeliefKind>)
    ensures
        r == topic_worth_sharing_spec(mine@, theirs@, tick, cfg),
{
    let ghost p = |k: BeliefKind| worth_raising(mine@, theirs@, tick, cfg, k);
    let mut i: usize = 0;
    while i < 5
        invariant
            i <= 5,
            p == (|k: BeliefKind| worth_raising(mine@, theirs@, tick, cfg, k)),
            forall|j: int| 0 <= j < i ==> !p(#[trigger] topics()[j]),
        decreases 5 - i,
    {
        let k = topic(i);
        if knows(mine, k, num(SURE), tick, cfg) && !knows(theirs, k, num(SLIGHT), tick, cfg) {
            proof {
                assert(p(topics()[i as int]));
                lemma_first_where_is(topics(), p, i as int);
            }
            return Some(k);
        }
        i = i + 1;
    }
    proof {
        lemma_first_where_is(topics(), p, 5);
    }
    None
}

pub open spec fn is_remembered(b: Belief, tick: i64, cfg: &KnowledgeConfig) -> bool {
    b.confidence_at_spec(tick, cfg).gt(num(FAINT))
}

/// What has not decayed to nothing, in its order.
pub open spec fn remembered(beliefs: Seq<Belief>, tick: i64, cfg: &KnowledgeConfig) -> Seq<Belief> {
    beliefs.filter(|b: Belief| is_remembered(b, tick, cfg))
}

/// Drops beliefs that have decayed to nothing. Returns how many.
pub fn forget_expired(beliefs: &mut Vec<Belief>, tick: i64, cfg: &KnowledgeConfig) -> (n: usize)
    ensures
        final(beliefs)@ == remembered(old(beliefs)@, tick, cfg),
        n == old(beliefs)@.len() - final(beliefs)@.len(),
{
    let ghost all = beliefs@;
    let ghost keep = |b: Belief| is_remembered(b, tick, cfg);
    let before = beliefs.len();
    let mut kept: Vec<Belief> = Vec::new();
    proof {
        lemma_filter_start(all, keep);
    }
    for i in 0..beliefs.len()
        invariant
            beliefs@ == all,
            keep == (|b: Belief| is_remembered(b, tick, cfg)),
            kept@ == all.take(i as int).filter(keep),
            kept@.len() <= i,
    {
        proof {
            lemma_filter_step(all, keep, i as int);
        }
        let b = beliefs[i];
        if b.confidence_at(tick, cfg).gt(num(FAINT)) {
            kept.push(b);
        }
    }
    let n = before - kept.len();
    *beliefs = kept;
    n
}

pub open spec fn is_of_kinds(b: Belief, kinds: Seq<BeliefKind>) -> bool {
    kinds.contains(b.kind)
}

/// The most relevant belief of some kinds among the first `n`, with its score;
/// the earliest among equals.
pub open spec fn best_among(
    beliefs: Seq<Belief>,
    kinds: Seq<BeliefKind>,
    from: (u32, u32),
    tick: i64,
    needs: &NeedProfile,
    cfg: &KnowledgeConfig,
    n: int,
) -> Option<(int, Num)>
    decreases n,
{
    if n <= 0 {
        None
    } else {
        let before = best_among(beliefs, kinds, from, tick, needs, cfg, n - 1);
        let s = relevance_spec(&beliefs[n - 1], from, tick, needs, cfg);
        if !is_of_kinds(beliefs[n - 1], kinds) || s.le(num(NOTHING)) {
            before
        } else {
            match before {
                Some(b) => if s.gt(b.1) {
                    Some((n - 1, s))
                } else {
                    before
                },
                None => Some((n - 1, s)),
            }
        }
    }
}

fn is_among(kind: BeliefKind, kinds: &[BeliefKind]) -> (r: bool)
    ensures
        r == kinds@.contains(kind),
{
    for i in 0..kinds.len()
        invariant
            forall|j: int| 0 <= j < i ==> #[trigger] kinds@[j] != kind,
    {
        if kinds[i] == kind {
            assert(kinds@[i as int] == kind);
            return true;
        }
    }
    false
}

/// The best belief of the given kinds by relevance.
pub fn best_of(
    beliefs: &Vec<Belief>,
    kinds: &[BeliefKind],
    from: (u32, u32),
    tick: i64,
    needs: &NeedProfile,
    cfg: &KnowledgeConfig,
) -> (r: Option<usize>)
    ensures
        match (r, best_among(beliefs@, kinds@, from, tick, needs, cfg, beliefs@.len() as int)) {
            (Some(i), Some(b)) => i == b.0 && i < beliefs@.len(),
            (None, None) => true,
            _ => false,
        },
{
    let mut best: Option<(usize, Num)> = None;
    for i in 0..beliefs.len()
        invariant
            match (best, best_among(beliefs@, kinds@, from, tick, needs, cfg, i as int)) {
                (Some(a), Some(b)) => a.0 == b.0 && a.1 == b.1 && a.0 < i,
                (None, None) => true,
                _ => false,
            },
    {
        let b = &beliefs[i];
        if is_among(b.kind, kinds) {
            let s = relevance(b, from, tick, needs, cfg);
            if !s.le(num(NOTHING)) {
                let better = match best {
                    Some((_, bs)) => s.gt(bs),
                    None => true,
                };
                if better {
                    best = Some((i, s));
                }
            }
        }
    }
    match best {
        Some((i, _)) => Some(i),
        None => None,
    }
}

pub open spec fn rank_score(
    b: Belief,
    from: (u32, u32),
    tick: i64,
    needs: &NeedProfile,
    cfg: &KnowledgeConfig,
) -> Option<Num> {
    let s = relevance_spec(&b, from, tick, needs, cfg);
    if s.gt(num(NOTHING)) {
        Some(s)
    } else {
        None
    }
}

/// The top `n` beliefs by relevance, the earlier first among equals.
pub fn rank(
    beliefs: &Vec<Belief>,
    from: (u32, u32),
    tick: i64,
    needs: &NeedProfile,
    cfg: &KnowledgeConfig,
    n: usize,
) -> (r: Vec<usize>)
    ensures
        r@ == top_of(
            ranked_by(
                beliefs@,
                |b: Belief| rank_score(b, from, tick, needs, cfg),
                beliefs@.len() as int,
            ),
            n as nat,
        ),
{
    let ghost f = |b: Belief| rank_score(b, from, tick, needs, cfg);
    let mut scored: Vec<(usize, Num)> = Vec::new();
    for i in 0..beliefs.len()
        invariant
            f == (|b: Belief| rank_score(b, from, tick, needs, cfg)),
            scored@ == ranked_by(beliefs@, f, i as int),
    {
        let s = relevance(&beliefs[i], from, tick, needs, cfg);
        if s.gt(num(NOTHING)) {
            rank_in(&mut scored, (i, s));
        }
    }
    top(&scored, n)
}

/// Each kind of belief answers its own need. Two creatures that want as much water
/// find a water belief as relevant, whatever else they want; and so for wood and
/// fuel, for a roof and shelter, and for forage, flocks and soil and food. What is
/// not wanted is not relevant, and danger never is.
pub proof fn law_each_belief_answers_its_own_need(
    b: &Belief,
    from: (u32, u32),
    tick: i64,
    a: &NeedProfile,
    c: &NeedProfile,
    cfg: &KnowledgeConfig,
)
    ensures
        ({
            let (one, other) = (relevance_spec(b, from, tick, a, cfg), relevance_spec(b, from, tick, c, cfg));
            &&& b.kind == BeliefKind::Water && a.water == c.water ==> one == other
            &&& b.kind == BeliefKind::WoodNode && a.fuel == c.fuel ==> one == other
            &&& b.kind == BeliefKind::Shelter && a.shelter == c.shelter ==> one == other
            &&& b.kind == BeliefKind::ForageNode && a.food == c.food ==> one == other
            &&& b.kind == BeliefKind::SheepFlock && a.food == c.food ==> one == other
            &&& b.kind == BeliefKind::SoilPatch && a.food == c.food ==> one == other
            &&& b.kind == BeliefKind::Water && a.water.le(num(0)) ==> one == num(0)
            &&& b.kind == BeliefKind::WoodNode && a.fuel.le(num(0)) ==> one == num(0)
            &&& b.kind == BeliefKind::Shelter && a.shelter.le(num(0)) ==> one == num(0)
            &&& b.kind == BeliefKind::ForageNode && a.food.le(num(0)) ==> one == num(0)
            &&& b.kind == BeliefKind::Danger ==> one == num(0)
        }),
{
}

/// A credible belief is relevant exactly when its need is felt: with a target that
/// is any good at all, and a need that is either absent or not vanishingly small, a
/// wood node has positive relevance if and only if fuel is wanted, a shelter if and
/// only if shelter is, water if and only if water is, and forage if and only if food
/// is.
pub proof fn law_what_is_wanted_is_relevant(
    b: &Belief,
    from: (u32, u32),
    tick: i64,
    needs: &NeedProfile,
    cfg: &KnowledgeConfig,
    need: Num,
)
    requires
        target_quality_spec(b, from, tick, cfg).finite(),
        num(0x1A80_0000).le(target_quality_spec(b, from, tick, cfg)),
        need.finite(),
        need.le(num(0)) || num(0x1A80_0000).le(need),
    ensures
        ({
            let relevant = num(0).lt(relevance_spec(b, from, tick, needs, cfg));
            &&& b.kind == BeliefKind::Water && needs.water == need ==> (relevant <==> num(0).lt(need))
            &&& b.kind == BeliefKind::ForageNode && needs.food == need ==> (relevant <==> num(0).lt(need))
            &&& b.kind == BeliefKind::WoodNode && needs.fuel == need ==> (relevant <==> num(0).lt(need))
            &&& b.kind == BeliefKind::Shelter && needs.shelter == need ==> (relevant <==> num(0).lt(need))
        }),
{
    if num(0x1A80_0000).le(need) {
        law_a_product_does_not_vanish(target_quality_spec(b, from, tick, cfg), need);
    }
}

/// Wanting something more never makes a belief that answers it less relevant, and a
/// place where food grows ready is at least as relevant as a flock, and a flock as
/// soil, to whoever is hungry.
pub proof fn law_more_wanted_is_no_less_relevant(
    b: &Belief,
    from: (u32, u32),
    tick: i64,
    less: &NeedProfile,
    more: &NeedProfile,
    cfg: &KnowledgeConfig,
)
    requires
        target_quality_spec(b, from, tick, cfg).finite(),
        !target_quality_spec(b, from, tick, cfg).negative(),
        less.food.finite() && less.water.finite() && less.fuel.finite() && less.shelter.finite(),
        more.food.finite() && more.water.finite() && more.fuel.finite() && more.shelter.finite(),
        less.food.le(more.food) && less.water.le(more.water) && less.fuel.le(more.fuel) && less.shelter.le(more.shelter),
        !less.food.negative() && !more.food.negative(),
    ensures
        b.kind != BeliefKind::SheepFlock && b.kind != BeliefKind::SoilPatch ==> relevance_spec(
            b,
            from,
            tick,
            less,
            cfg,
        ).le(relevance_spec(b, from, tick, more, cfg)),
        less.match_for_spec(BeliefKind::SheepFlock).le(less.match_for_spec(BeliefKind::ForageNode)),
        less.match_for_spec(BeliefKind::SoilPatch).le(less.match_for_spec(BeliefKind::SheepFlock)),
        less.match_for_spec(BeliefKind::SoilPatch).le(more.match_for_spec(BeliefKind::SoilPatch)),
        less.match_for_spec(BeliefKind::SheepFlock).le(more.match_for_spec(BeliefKind::SheepFlock)),
{
    let q = target_quality_spec(b, from, tick, cfg);
    let (u, v) = (less.match_for_spec(b.kind), more.match_for_spec(b.kind));
    if b.kind != BeliefKind::SheepFlock && b.kind != BeliefKind::SoilPatch && !v.le(num(0)) {
        law_products_commute(q, u);
        law_products_commute(q, v);
        law_no_product_is_negative(q, v);
        if !u.le(num(0)) {
            law_more_times_is_no_less(u, v, q);
        }
    }
    law_a_share_is_no_more(less.food, num(FLOCK_MATCH));
    law_products_commute(less.food, num(SOIL_MATCH));
    law_products_commute(less.food, num(FLOCK_MATCH));
    law_more_times_is_no_less(num(SOIL_MATCH), num(FLOCK_MATCH), less.food);
    law_more_times_is_no_less(less.food, more.food, num(SOIL_MATCH));
    law_more_times_is_no_less(less.food, more.food, num(FLOCK_MATCH));
}

/// How far a distance or an age counts against a target: not at all at nothing, by
/// half at the scale, and never less for more.
pub proof fn law_falloff_falls(near: Num, far: Num, scale: u32)
    requires
        scale == DAY_TRIP || scale == WEEK,
        near.finite(),
        far.finite(),
        !near.negative(),
        !far.negative(),
        near.le(far),
    ensures
        falloff(far, scale).le(falloff(near, scale)),
        falloff(near, scale).le(num(ONE)),
        !falloff(far, scale).negative(),
        !falloff(near, scale).negative(),
        falloff(num(0), scale) == num(ONE),
        num(scale).le(near) ==> falloff(near, scale).le(num(0x3F00_0000)),
{
    let one = num(ONE);
    let k = num(scale);
    law_one_and_one(k);
    law_quotients_keep_their_order(near, far, k, k);
    law_adding_more_makes_no_less(one, near / k, far / k);
    lemma_nothing_of(k);
    law_quotients_keep_their_order(num(0), near, k, k);
    law_adding_more_makes_no_less(one, num(0), near / k);
    law_adding_more_makes_no_less(one, num(0), far / k);
    law_quotients_keep_their_order(one, one, one, one + near / k);
    law_quotients_keep_their_order(one, one, one, one + far / k);
    law_one_and_one(one);
    lemma_fewer_get_more(one, one + near / k, one + far / k);
    if k.le(near) {
        law_quotients_keep_their_order(k, near, k, k);
        law_adding_more_makes_no_less(one, one, near / k);
        law_quotients_keep_their_order(one, one, num(0x4000_0000), one + near / k);
    }
}

proof fn lemma_fewer_get_more(a: Num, few: Num, many: Num)
    requires
        a == num(ONE),
        !few.negative(),
        !many.negative(),
        num(ONE).le(few),
        few.le(many),
    ensures
        (a / many).le(a / few),
{
    if few.finite() {
        law_quotients_keep_their_order(a, a, few, many);
    } else {
        assert(few == many);
        law_quotients_keep_their_order(a, a, num(ONE), many);
    }
}

/// A target is never better than one is sure of it, and much worse if it is far off,
/// long unseen or picked bare: a day trip away, or a week since anybody looked, it is
/// worth at most half, and empty at most a twentieth. Right here, right now and
/// plentiful it is worth exactly as much as one is sure of it.
pub proof fn law_far_stale_or_bare_is_worth_less(b: &Belief, from: (u32, u32), tick: i64, cfg: &KnowledgeConfig)
    requires
        distance_between(b.x, b.y, from.0, from.1).finite(),
        !distance_between(b.x, b.y, from.0, from.1).negative(),
        b.confidence_at_spec(tick, cfg).finite(),
        !b.confidence_at_spec(tick, cfg).negative(),
    ensures
        ({
            let q = target_quality_spec(b, from, tick, cfg);
            let sure = b.confidence_at_spec(tick, cfg);
            let away = distance_between(b.x, b.y, from.0, from.1);
            let age = of_int(elapsed_between(b.last_verified_tick, tick));
            &&& q.le(sure)
            &&& !q.negative()
            &&& num(0x41C0_0000).le(away) ==> q.le(sure * num(0x3F00_0000))
            &&& num(0x4328_0000).le(age) ==> q.le(sure * num(0x3F00_0000))
            &&& b.estimate == Estimate::Empty ==> q.le(sure * num(0x3D4C_CCCD))
            &&& away == num(0) && age == num(0) && b.estimate == Estimate::Plentiful ==> q == sure || q.rank() == sure.rank()
        }),
{
    let sure = b.confidence_at_spec(tick, cfg);
    let away = distance_between(b.x, b.y, from.0, from.1);
    let elapsed = elapsed_between(b.last_verified_tick, tick);
    let age = of_int(elapsed);
    let w = worth_of(b.estimate);
    law_counts_keep_their_order(elapsed as nat, 0x1_0000_0000_0000_0000);
    law_falloff_falls(away, away, DAY_TRIP);
    law_falloff_falls(age, age, WEEK);
    let (f, g) = (falloff(away, DAY_TRIP), falloff(age, WEEK));
    let half = num(0x3F00_0000);
    law_a_share_is_no_more(sure, f);
    law_a_share_is_no_more(sure * f, g);
    law_a_share_is_no_more(sure * f * g, w);
    law_a_share_is_no_more(sure, half);
    law_products_commute(sure, f);
    law_products_commute(sure, half);
    law_products_commute(sure * f, g);
    law_products_commute(sure * f, half);
    law_products_commute(sure, w);
    law_products_commute(sure * f * g, w);
    law_no_product_is_negative(sure, half);
    law_no_product_is_negative(sure, w);
    law_a_share_is_no_more(sure, w);
    if f.le(half) {
        law_more_times_is_no_less(f, half, sure);
    }
    if g.le(half) {
        law_more_times_is_no_less(g, half, sure * f);
        law_more_times_is_no_less(sure * f, sure, half);
    }
    law_more_times_is_no_less(sure * f * g, sure, w);
    law_once_is_itself(sure);
}

/// What moves or is used up is doubted sooner: of two beliefs alike but for their
/// kind, the one about the more lasting thing is held at least as firmly. Water lasts
/// longest, then soil, shelter, wood and forage, and flocks move soonest.
pub proof fn law_what_lasts_is_trusted_longer(lasting: &Belief, fleeting: &Belief, tick: i64, cfg: &KnowledgeConfig)
    requires
        lasting.confidence == fleeting.confidence,
        lasting.last_verified_tick == fleeting.last_verified_tick,
        lasting.confidence.finite(),
        cfg.confidence_decay_per_tick.finite(),
        !cfg.confidence_decay_per_tick.negative(),
        lasting.kind.decay_scale().le(fleeting.kind.decay_scale()),
        (cfg.confidence_decay_per_tick * fleeting.kind.decay_scale()).finite(),
    ensures
        fleeting.confidence_at_spec(tick, cfg).le(lasting.confidence_at_spec(tick, cfg)),
        BeliefKind::Water.decay_scale().lt(BeliefKind::SoilPatch.decay_scale()),
        BeliefKind::SoilPatch.decay_scale().lt(BeliefKind::Shelter.decay_scale()),
        BeliefKind::Shelter.decay_scale().lt(BeliefKind::WoodNode.decay_scale()),
        BeliefKind::WoodNode.decay_scale().lt(BeliefKind::ForageNode.decay_scale()),
        BeliefKind::ForageNode.decay_scale().lt(BeliefKind::SheepFlock.decay_scale()),
        num(0).lt(BeliefKind::Water.decay_scale()),
{
    let d = cfg.confidence_decay_per_tick;
    let (s, t) = (lasting.kind.decay_scale(), fleeting.kind.decay_scale());
    let e = elapsed_between(lasting.last_verified_tick, tick);
    law_counts_keep_their_order(e as nat, 0x1_0000_0000_0000_0000);
    let n = of_int(e);
    law_products_commute(d, s);
    law_products_commute(d, t);
    law_more_times_is_no_less(s, t, d);
    law_product_is_a_number(d, s);
    law_product_is_a_number(d, t);
    law_products_commute(n, d * s);
    law_products_commute(n, d * t);
    law_more_times_is_no_less(d * s, d * t, n);
    law_no_product_is_negative(n, d * t);
    law_no_product_is_negative(n, d * s);
    law_product_is_a_number(n, d * t);
    law_taking_more_leaves_no_more(lasting.confidence, n * (d * s), n * (d * t));
}

/// Doubt ends belief: once the time since anybody looked, at the rate for the kind,
/// has cost all that one was sure, nothing of it is left; and what was seen this
/// moment is believed as it was.
pub proof fn law_doubt_ends_belief(b: &Belief, tick: i64, cfg: &KnowledgeConfig)
    requires
        b.confidence.finite(),
        num(0).lt(b.confidence),
        b.confidence.le(num(ONE)),
        cfg.confidence_decay_per_tick.finite(),
        (cfg.confidence_decay_per_tick * b.kind.decay_scale()).finite(),
    ensures
        ({
            let scale = match b.kind {
                BeliefKind::Water => num(0x3D4C_CCCD),
                BeliefKind::SoilPatch => num(0x3DCC_CCCD),
                BeliefKind::Shelter => num(0x3E80_0000),
                BeliefKind::WoodNode => num(0x3F19_999A),
                BeliefKind::SheepFlock => num(0x4000_0000),
                _ => num(0x3F80_0000),
            };
            let cost = of_int(tick - b.last_verified_tick) * (cfg.confidence_decay_per_tick * scale);
            &&& tick > b.last_verified_tick && b.confidence.le(cost) ==> b.confidence_at_spec(tick, cfg).le(num(0))
            &&& tick <= b.last_verified_tick ==> b.confidence_at_spec(tick, cfg) == b.confidence
        }),
{
    let rate = cfg.confidence_decay_per_tick * b.kind.decay_scale();
    if tick > b.last_verified_tick {
        let cost = of_int(tick - b.last_verified_tick) * rate;
        if b.confidence.le(cost) {
            law_taking_more_leaves_no_more(b.confidence, b.confidence, cost);
            law_what_is_left(b.confidence, b.confidence);
        }
    } else {
        reveal(of_int);
        lemma_nothing_times(rate, num(0));
        law_products_commute(rate, num(0));
        law_nothing_changes_nothing(b.confidence, num(0) * rate);
    }
}

/// What is seen is told in four words, from bare to plentiful: bare up to a fiftieth
/// of what there could be, picked over below a quarter, some below 0.65, plentiful
/// from there. More there never reads as less, and each word stands for more than
/// the one before.
pub proof fn law_more_never_reads_as_less(less: Num, more: Num, max: Num)
    requires
        less.finite(),
        more.finite(),
        max.finite(),
        !less.negative(),
        !more.negative(),
        num(0).lt(max),
        less.le(more),
    ensures
        ({
            let f = less / max;
            let e = Estimate::of(less, max);
            &&& e == Estimate::Empty <==> f.le(num(0x3CA3_D70A))
            &&& e == Estimate::Sparse <==> !f.le(num(0x3CA3_D70A)) && f.lt(num(0x3E80_0000))
            &&& e == Estimate::Moderate <==> !f.lt(num(0x3E80_0000)) && f.lt(num(0x3F26_6666))
            &&& e == Estimate::Plentiful <==> !f.lt(num(0x3F26_6666))
            &&& e.expected_value().le(Estimate::of(more, max).expected_value())
        }),
        Estimate::Empty.expected_value() == num(0),
        Estimate::Empty.expected_value().lt(Estimate::Sparse.expected_value()),
        Estimate::Sparse.expected_value().lt(Estimate::Moderate.expected_value()),
        Estimate::Moderate.expected_value().lt(Estimate::Plentiful.expected_value()),
        Estimate::Plentiful.expected_value() == num(ONE),
{
    law_quotients_keep_their_order(less, more, max, max);
}

/// Nothing told is believed more firmly than the teller believes it: a lesson keeps
/// the fidelity of teaching, word of mouth loses the penalty of a hop, and what is
/// overheard is no firmer than what is told.
pub proof fn law_telling_costs_confidence(b: &Belief, from: i64, cfg: &KnowledgeConfig, tick: i64)
    requires
        !b.confidence_at_spec(tick, cfg).negative(),
        b.confidence_at_spec(tick, cfg).le(num(ONE)),
        !cfg.teach_fidelity.negative(),
        cfg.teach_fidelity.le(num(ONE)),
        !(num(ONE) - cfg.per_hop_penalty).negative(),
        (num(ONE) - cfg.per_hop_penalty).le(num(ONE)),
    ensures
        ({
            let sure = b.confidence_at_spec(tick, cfg);
            let taught = transmit_spec(b, from, Channel::Teach, cfg, tick);
            let shared = transmit_spec(b, from, Channel::Share, cfg, tick);
            let heard = transmit_spec(b, from, Channel::Observation, cfg, tick);
            &&& taught.confidence.le(sure)
            &&& shared.confidence.le(sure)
            &&& heard.confidence.le(shared.confidence)
            &&& taught.confidence == sure * cfg.teach_fidelity
            &&& shared.confidence == sure * (num(ONE) - cfg.per_hop_penalty)
            &&& taught.source_creature_id == Some(from) && taught.learned_tick == tick
            &&& shared.source_creature_id == Some(from) && shared.learned_tick == tick
            &&& taught.estimate == b.estimate && shared.estimate == b.estimate
        }),
{
    let sure = b.confidence_at_spec(tick, cfg);
    law_a_share_is_no_more(sure, cfg.teach_fidelity);
    law_a_share_is_no_more(sure, num(ONE) - cfg.per_hop_penalty);
}

/// Of two firsthand beliefs the later stands, and so of two that are hearsay, unless
/// one has come fewer hops; whatever replaces a belief, who first found it out, and
/// the earliest that it was learned, are kept.
pub proof fn law_the_fresher_word_stands(existing: Belief, incoming: Belief)
    ensures
        incoming.hops == 0 && existing.hops == 0 ==> (displaces(incoming, existing) <==> incoming.last_verified_tick
            > existing.last_verified_tick),
        incoming.hops > 0 && existing.hops > 0 ==> (displaces(incoming, existing) <==> incoming.hops < existing.hops
            || incoming.last_verified_tick > existing.last_verified_tick),
        ({
            let r = refreshed(existing, incoming);
            &&& r.confidence == incoming.confidence && r.estimate == incoming.estimate && r.hops == incoming.hops
            &&& r.last_verified_tick == incoming.last_verified_tick
            &&& r.source_creature_id == incoming.source_creature_id
            &&& r.learned_tick <= existing.learned_tick && r.learned_tick <= incoming.learned_tick
            &&& r.learned_tick == existing.learned_tick || r.learned_tick == incoming.learned_tick
            &&& r.origin_tick <= existing.origin_tick && r.origin_tick <= incoming.origin_tick
            &&& r.origin_tick == existing.origin_tick || r.origin_tick == incoming.origin_tick
            &&& existing.origin_creature_id is None ==> r.origin_creature_id == incoming.origin_creature_id
        }),
{
}

/// What is new is remembered, and what it displaces from a full memory is what was
/// worth least to keep: everything else is still there.
pub proof fn law_the_least_worth_is_forgotten(
    beliefs: Seq<Belief>,
    incoming: Belief,
    cfg: &KnowledgeConfig,
    max_beliefs: nat,
    tick: i64,
)
    requires
        forall|i: int| 0 <= i < beliefs.len() ==> !same_place(#[trigger] beliefs[i], incoming),
    ensures
        ({
            let (after, new) = with_upsert(beliefs, incoming, cfg, max_beliefs, tick);
            let all = beliefs.push(incoming);
            &&& new
            &&& beliefs.len() < max_beliefs ==> after == all
            &&& beliefs.len() >= max_beliefs ==> exists|k: int|
                0 <= k < all.len() && after == #[trigger] all.remove(k) && forall|j: int|
                    0 <= j < all.len() ==> !#[trigger] keeping_value(all, j, tick, cfg).lt(
                        keeping_value(all, k, tick, cfg),
                    ) || !keeping_value(all, k, tick, cfg).lt(num(LARGEST))
        }),
{
    let p = |b: Belief| same_place(b, incoming);
    lemma_first_where_is(beliefs, p, beliefs.len() as int);
    let all = beliefs.push(incoming);
    lemma_least_of_all(all, tick, cfg, all.len() as int);
    let k = least_worth(all, tick, cfg, all.len() as int).0;
    lemma_least_worth(all, tick, cfg, all.len() as int);
    if beliefs.len() >= max_beliefs {
        assert(with_upsert(beliefs, incoming, cfg, max_beliefs, tick).0 == all.remove(k));
    }
}

proof fn lemma_least_of_all(beliefs: Seq<Belief>, tick: i64, cfg: &KnowledgeConfig, n: int)
    requires
        0 <= n <= beliefs.len(),
    ensures
        ({
            let (k, v) = least_worth(beliefs, tick, cfg, n);
            &&& !v.is_nan()
            &&& v == num(LARGEST) && k == 0 || v == keeping_value(beliefs, k, tick, cfg) && v.lt(num(LARGEST))
            &&& forall|j: int| 0 <= j < n ==> !#[trigger] keeping_value(beliefs, j, tick, cfg).lt(v)
        }),
    decreases n,
{
    if n > 0 {
        lemma_least_of_all(beliefs, tick, cfg, n - 1);
        let before = least_worth(beliefs, tick, cfg, n - 1);
        let (k, v) = least_worth(beliefs, tick, cfg, n);
        let last = keeping_value(beliefs, n - 1, tick, cfg);
        assert((k, v) == if last.lt(before.1) {
            (n - 1, last)
        } else {
            before
        });
        assert forall|j: int| 0 <= j < n implies !#[trigger] keeping_value(beliefs, j, tick, cfg).lt(v) by {
            if j < n - 1 {
                assert(!keeping_value(beliefs, j, tick, cfg).lt(before.1));
            }
        }
    }
}

/// Only what is asked about is passed on, only what is any good, and the best first.
pub proof fn law_what_is_passed_on(
    beliefs: Seq<Belief>,
    topic: Option<BeliefKind>,
    from: (u32, u32),
    tick: i64,
    cfg: &KnowledgeConfig,
    n: nat,
    k: int,
)
    requires
        beliefs.len() <= usize::MAX,
        0 <= k < picks(beliefs, topic, from, tick, cfg, n).len(),
    ensures
        ({
            let order = picks(beliefs, topic, from, tick, cfg, n);
            let b = beliefs[order[k] as int];
            &&& order.len() <= n
            &&& order[k] < beliefs.len()
            &&& topic matches Some(about) ==> b.kind == about
            &&& num(0x3CA3_D70A).lt(target_quality_spec(&b, from, tick, cfg))
            &&& forall|l: int|
                k < l < order.len() ==> target_quality_spec(&b, from, tick, cfg).order_key() >= target_quality_spec(
                    &beliefs[#[trigger] order[l] as int],
                    from,
                    tick,
                    cfg,
                ).order_key()
        }),
{
    let f = offered(topic, from, tick, cfg);
    let all = ranked_by(beliefs, f, beliefs.len() as int);
    law_ranking_is_ordered(beliefs, f, beliefs.len() as int);
    let order = picks(beliefs, topic, from, tick, cfg, n);
    assert(order[k] == all[k].0);
    assert(all.contains((all[k].0, all[k].1)));
    assert forall|l: int| k < l < order.len() implies target_quality_spec(
        &beliefs[order[k] as int],
        from,
        tick,
        cfg,
    ).order_key() >= target_quality_spec(&beliefs[#[trigger] order[l] as int], from, tick, cfg).order_key() by {
        assert(order[l] == all[l].0);
        assert(all.contains((all[l].0, all[l].1)));
        assert(outranks(all[k], all[l]));
    }
}

/// The topic raised is one the speaker knows of and the listener does not, and the
/// first such of water, forage, soil, wood and shelter.
pub proof fn law_the_topic_is_news(mine: u16, theirs: u16)
    ensures
        match topic_for_spec(mine, theirs) {
            Some(k) => topic_lacking(mine, theirs, k) && (k == BeliefKind::Water || k == BeliefKind::ForageNode || k
                == BeliefKind::SoilPatch || k == BeliefKind::WoodNode || k == BeliefKind::Shelter),
            None => !topic_lacking(mine, theirs, BeliefKind::Water) && !topic_lacking(mine, theirs, BeliefKind::ForageNode)
                && !topic_lacking(mine, theirs, BeliefKind::SoilPatch) && !topic_lacking(
                mine,
                theirs,
                BeliefKind::WoodNode,
            ) && !topic_lacking(mine, theirs, BeliefKind::Shelter),
        },
        topic_lacking(mine, theirs, BeliefKind::Water) ==> topic_for_spec(mine, theirs) == Some(BeliefKind::Water),
        topic_for_spec(mine, theirs) == Some(BeliefKind::Shelter) ==> !topic_lacking(mine, theirs, BeliefKind::WoodNode),
        forall|k: BeliefKind| #[trigger] topic_lacking(mine, theirs, k) <==> mine & k.bit() != 0 && theirs & k.bit() == 0,
{
    let p = |k: BeliefKind| topic_lacking(mine, theirs, k);
    lemma_first_where(topics(), p);
    let i = first_where(topics(), p);
    assert(topics()[0] == BeliefKind::Water);
    assert(topics()[1] == BeliefKind::ForageNode);
    assert(topics()[2] == BeliefKind::SoilPatch);
    assert(topics()[3] == BeliefKind::WoodNode);
    assert(topics()[4] == BeliefKind::Shelter);
    assert(i < 5 ==> p(topics()[i]));
    assert(p(topics()[0]) == topic_lacking(mine, theirs, BeliefKind::Water));
    assert(p(topics()[3]) == topic_lacking(mine, theirs, BeliefKind::WoodNode));
}

/// The best of the beliefs of some kinds is one of them, relevant, and no other of
/// them is more so; there is none exactly if none of them is relevant.
pub proof fn law_the_best_is_the_best(
    beliefs: Seq<Belief>,
    kinds: Seq<BeliefKind>,
    from: (u32, u32),
    tick: i64,
    needs: &NeedProfile,
    cfg: &KnowledgeConfig,
    n: int,
)
    requires
        0 <= n <= beliefs.len(),
        forall|i: int| 0 <= i < beliefs.len() ==> !relevance_spec(&#[trigger] beliefs[i], from, tick, needs, cfg).is_nan(),
    ensures
        match best_among(beliefs, kinds, from, tick, needs, cfg, n) {
            Some((i, v)) => {
                &&& 0 <= i < n && kinds.contains(beliefs[i].kind)
                &&& v == relevance_spec(&beliefs[i], from, tick, needs, cfg) && num(0).lt(v)
                &&& forall|j: int|
                    0 <= j < n && kinds.contains((#[trigger] beliefs[j]).kind) ==> relevance_spec(
                        &beliefs[j],
                        from,
                        tick,
                        needs,
                        cfg,
                    ).le(v)
            },
            None => forall|j: int|
                0 <= j < n && kinds.contains((#[trigger] beliefs[j]).kind) ==> relevance_spec(
                    &beliefs[j],
                    from,
                    tick,
                    needs,
                    cfg,
                ).le(num(0)),
        },
    decreases n,
{
    if n > 0 {
        law_the_best_is_the_best(beliefs, kinds, from, tick, needs, cfg, n - 1);
        assert(!relevance_spec(&beliefs[n - 1], from, tick, needs, cfg).is_nan());
    }
}

/// Memory keeps what is believed at all, more than a fiftieth, and lets go of the
/// rest.
pub proof fn law_what_is_remembered(beliefs: Seq<Belief>, tick: i64, cfg: &KnowledgeConfig, b: Belief)
    ensures
        remembered(beliefs, tick, cfg).contains(b) <==> beliefs.contains(b) && num(0x3CA3_D70A).lt(
            b.confidence_at_spec(tick, cfg),
        ),
{
    lemma_filtered(beliefs, |b: Belief| is_remembered(b, tick, cfg), b);
}

/// Each kind of node is known as its own kind of place.
pub proof fn law_nodes_are_known_for_what_they_are(kind: NodeKind)
    ensures
        BeliefKind::of_node(NodeKind::Forage) == BeliefKind::ForageNode,
        BeliefKind::of_node(NodeKind::Wood) == BeliefKind::WoodNode,
        BeliefKind::of_node(NodeKind::Wheat) == BeliefKind::SoilPatch,
        BeliefKind::of_node(NodeKind::Sheep) == BeliefKind::SheepFlock,
        forall|other: NodeKind| #[trigger] BeliefKind::of_node(other) == BeliefKind::of_node(kind) ==> other == kind,
{
}

/// What is worth raising is what one is fairly sure of and the other hardly knows, the
/// first such of water, forage, soil, wood and shelter; if there is none, nothing is.
pub proof fn law_what_is_worth_raising(mine: Seq<Belief>, theirs: Seq<Belief>, tick: i64, cfg: &KnowledgeConfig)
    ensures
        match topic_worth_sharing_spec(mine, theirs, tick, cfg) {
            Some(k) => {
                &&& exists|i: int|
                    0 <= i < mine.len() && (#[trigger] mine[i]).kind == k && num(0x3EB3_3333).lt(
                        mine[i].confidence_at_spec(tick, cfg),
                    )
                &&& forall|i: int|
                    0 <= i < theirs.len() && (#[trigger] theirs[i]).kind == k ==> !num(0x3E19_999A).lt(
                        theirs[i].confidence_at_spec(tick, cfg),
                    )
            },
            None => !worth_raising(mine, theirs, tick, cfg, BeliefKind::Water) && !worth_raising(
                mine,
                theirs,
                tick,
                cfg,
                BeliefKind::ForageNode,
            ),
        },
        worth_raising(mine, theirs, tick, cfg, BeliefKind::Water) ==> topic_worth_sharing_spec(mine, theirs, tick, cfg)
            == Some(BeliefKind::Water),
{
    let p = |k: BeliefKind| worth_raising(mine, theirs, tick, cfg, k);
    lemma_first_where(topics(), p);
    let i = first_where(topics(), p);
    assert(topics()[0] == BeliefKind::Water);
    assert(topics()[1] == BeliefKind::ForageNode);
    assert(p(topics()[0]) == worth_raising(mine, theirs, tick, cfg, BeliefKind::Water));
    assert(p(topics()[1]) == worth_raising(mine, theirs, tick, cfg, BeliefKind::ForageNode));
    if i < 5 {
        assert(p(topics()[i]));
    }
}

/// Only what is relevant is ranked, by how relevant it is.
pub proof fn law_only_the_relevant_is_ranked(
    b: Belief,
    from: (u32, u32),
    tick: i64,
    needs: &NeedProfile,
    cfg: &KnowledgeConfig,
)
    ensures
        rank_score(b, from, tick, needs, cfg) == if num(0).lt(relevance_spec(&b, from, tick, needs, cfg)) {
            Some(relevance_spec(&b, from, tick, needs, cfg))
        } else {
            None
        },
        b.is_firsthand() <==> b.hops == 0,
{
}

/// What there is only one belief of is kept four times as dearly.
pub proof fn law_the_last_of_its_kind_is_dear(beliefs: Seq<Belief>, i: int, tick: i64, cfg: &KnowledgeConfig)
    requires
        0 <= i < beliefs.len(),
    ensures
        ({
            let b = beliefs[i];
            let plain = b.confidence_at_spec(tick, cfg) * falloff(
                of_int(elapsed_between(b.last_verified_tick, tick)),
                0x4328_0000,
            ) * b.estimate.expected_value().max(num(0x3D4C_CCCD));
            let alone = forall|j: int| 0 <= j < beliefs.len() && j != i ==> (#[trigger] beliefs[j]).kind != b.kind;
            &&& alone ==> keeping_value(beliefs, i, tick, cfg) == plain * num(0x4080_0000)
            &&& !alone ==> keeping_value(beliefs, i, tick, cfg) == plain * num(0x3F80_0000)
        }),
{
}

/// A way is as long there as back, and as long whichever way it runs: neither the
/// ends nor the two axes can be told apart by it. And there is none to where one is.
pub proof fn law_a_way_is_as_long_there_as_back(ax: u32, ay: u32, bx: u32, by: u32)
    ensures
        distance_between(ax, ay, bx, by) == distance_between(bx, by, ax, ay),
        distance_between(ax, ay, bx, by) == distance_between(ay, ax, by, bx),
        distance_between(ax, ay, ax, ay).mag() == 0,
{
    law_counts_keep_their_order(ax as nat, ax as nat);
    law_counts_keep_their_order(ay as nat, ay as nat);
    law_counts_keep_their_order(bx as nat, bx as nat);
    law_counts_keep_their_order(by as nat, by as nat);
    let (p, q, r, s) = (of_int(ax as int), of_int(bx as int), of_int(ay as int), of_int(by as int));
    lemma_squared_either_way(p, q);
    lemma_squared_either_way(r, s);
    lemma_squared_either_way(p, p);
    lemma_squared_either_way(r, r);
    law_sum_is_a_number(p, q);
    law_sum_is_a_number(r, s);
    law_sum_is_a_number(p, p);
    law_sum_is_a_number(r, r);
    lemma_square_is_not_negative(p - q);
    lemma_square_is_not_negative(r - s);
    lemma_square_is_not_negative(p - p);
    lemma_square_is_not_negative(r - r);
    lemma_summed_either_way((p - q) * (p - q), (r - s) * (r - s));
    let (z, w) = ((p - p) * (p - p), (r - r) * (r - r));
    assert(z.bits == 0 && w.bits == 0);
    reveal(root_of);
    reveal(sum_of);
    lemma_signed(false, 0);
}

} // verus!
