//! Creatures: identity, needs, life stage, lifespan, and what they carry.
//!
//! Creatures live in a `Vec` held in ascending id order and every per-creature
//! loop walks it in that order, so a run is reproducible from its seed.

use crate::actions::{steps_of, Step, StepV};
use crate::chance::Stream;
use crate::config::{LifespanConfig, NeedsConfig, WorldConfig};
use crate::knowledge::Belief;
use crate::lists::lemma_filtered;
use crate::num::{
    law_a_share_is_finite, law_adding_leaves_no_less, law_less_can_be_taken, law_no_product_is_negative,
    law_nothing_changes_nothing, law_what_is_left, lemma_nothing_of, lemma_nothing_times, num, of_int, Num, NOTHING,
    ONE,
};
use crate::text::same_text;
use vstd::prelude::*;
use vstd::string::*;

verus! {

#[derive(Debug, Clone, Copy, PartialEq, Eq, Structural)]
pub enum Sex {
    Female,
    Male,
}

impl Sex {
    pub open spec fn text(self) -> Seq<char> {
        match self {
            Sex::Female => "FEMALE"@,
            Sex::Male => "MALE"@,
        }
    }

    pub fn as_str(self) -> (s: &'static str)
        ensures
            s@ == self.text(),
    {
        match self {
            Sex::Female => "FEMALE",
            Sex::Male => "MALE",
        }
    }

    /// Anything but the male text reads as female.
    pub fn parse(s: &str) -> (r: Self)
        ensures
            r == Sex::Male <==> s@ == Sex::Male.text(),
    {
        if same_text(s, "MALE") {
            Sex::Male
        } else {
            Sex::Female
        }
    }
}

/// The stages that change what a creature can do.
#[derive(Debug, Clone, Copy, PartialEq, Eq, Structural)]
pub enum LifeStage {
    Infant,
    Adult,
    Elder,
}

/// 0.62
pub const ELDER_WORK: u32 = 0x3F1E_B852;

/// 0.25
pub const INFANT_CARRY: u32 = 0x3E80_0000;

/// 0.7
pub const ELDER_CARRY: u32 = 0x3F33_3333;

impl LifeStage {
    pub open spec fn text(self) -> Seq<char> {
        match self {
            LifeStage::Infant => "INFANT"@,
            LifeStage::Adult => "ADULT"@,
            LifeStage::Elder => "ELDER"@,
        }
    }

    pub fn as_str(self) -> (s: &'static str)
        ensures
            s@ == self.text(),
    {
        match self {
            LifeStage::Infant => "INFANT",
            LifeStage::Adult => "ADULT",
            LifeStage::Elder => "ELDER",
        }
    }

    /// Anything unknown reads as an adult.
    pub fn parse(s: &str) -> (r: Self)
        ensures
            r == LifeStage::Infant <==> s@ == LifeStage::Infant.text(),
            r == LifeStage::Elder <==> s@ == LifeStage::Elder.text(),
    {
        proof {
            reveal_strlit("INFANT");
            reveal_strlit("ELDER");
            assert("INFANT"@.len() != "ELDER"@.len());
        }
        if same_text(s, "INFANT") {
            LifeStage::Infant
        } else if same_text(s, "ELDER") {
            LifeStage::Elder
        } else {
            LifeStage::Adult
        }
    }

    pub open spec fn of_spec(age: i64, cfg: &LifespanConfig) -> Self {
        if age < cfg.infant_until_tick {
            LifeStage::Infant
        } else if age >= cfg.elder_from_tick {
            LifeStage::Elder
        } else {
            LifeStage::Adult
        }
    }

    #[verifier::when_used_as_spec(of_spec)]
    pub fn of(age: i64, cfg: &LifespanConfig) -> (r: Self)
        ensures
            r == Self::of_spec(age, cfg),
    {
        if age < cfg.infant_until_tick as i64 {
            LifeStage::Infant
        } else if age >= cfg.elder_from_tick as i64 {
            LifeStage::Elder
        } else {
            LifeStage::Adult
        }
    }

    pub open spec fn can_work_spec(self) -> bool {
        self != LifeStage::Infant
    }

    /// Infants cannot gather or work; they follow a guardian and are fed.
    #[verifier::when_used_as_spec(can_work_spec)]
    pub fn can_work(self) -> (r: bool)
        ensures
            r == self.can_work_spec(),
    {
        !matches!(self, LifeStage::Infant)
    }

    pub open spec fn work_rate_spec(self) -> Num {
        Num {
            bits: match self {
                LifeStage::Infant => NOTHING,
                LifeStage::Adult => ONE,
                LifeStage::Elder => ELDER_WORK,
            },
        }
    }

    /// Elders are slower.
    #[verifier::when_used_as_spec(work_rate_spec)]
    pub fn work_rate(self) -> (r: Num)
        ensures
            r == self.work_rate_spec(),
    {
        let bits = match self {
            LifeStage::Infant => NOTHING,
            LifeStage::Adult => ONE,
            LifeStage::Elder => ELDER_WORK,
        };
        Num { bits }
    }

    pub open spec fn carry_scale_spec(self) -> Num {
        Num {
            bits: match self {
                LifeStage::Infant => INFANT_CARRY,
                LifeStage::Adult => ONE,
                LifeStage::Elder => ELDER_CARRY,
            },
        }
    }

    /// Elders carry less.
    #[verifier::when_used_as_spec(carry_scale_spec)]
    pub fn carry_scale(self) -> (r: Num)
        ensures
            r == self.carry_scale_spec(),
    {
        let bits = match self {
            LifeStage::Infant => INFANT_CARRY,
            LifeStage::Adult => ONE,
            LifeStage::Elder => ELDER_CARRY,
        };
        Num { bits }
    }
}

/// Always recorded.
#[derive(Debug, Clone, Copy, PartialEq, Eq, Structural)]
pub enum DeathCause {
    Starvation,
    Dehydration,
    Exposure,
    OldAge,
    Illness,
    Accident,
    Childbirth,
}

impl DeathCause {
    pub open spec fn text(self) -> Seq<char> {
        match self {
            DeathCause::Starvation => "STARVATION"@,
            DeathCause::Dehydration => "DEHYDRATION"@,
            DeathCause::Exposure => "EXPOSURE"@,
            DeathCause::OldAge => "OLD_AGE"@,
            DeathCause::Illness => "ILLNESS"@,
            DeathCause::Accident => "ACCIDENT"@,
            DeathCause::Childbirth => "CHILDBIRTH"@,
        }
    }

    pub fn as_str(self) -> (s: &'static str)
        ensures
            s@ == self.text(),
    {
        match self {
            DeathCause::Starvation => "STARVATION",
            DeathCause::Dehydration => "DEHYDRATION",
            DeathCause::Exposure => "EXPOSURE",
            DeathCause::OldAge => "OLD_AGE",
            DeathCause::Illness => "ILLNESS",
            DeathCause::Accident => "ACCIDENT",
            DeathCause::Childbirth => "CHILDBIRTH",
        }
    }

    /// The place of a cause in the tallies.
    pub open spec fn slot_spec(self) -> usize {
        match self {
            DeathCause::Starvation => 0,
            DeathCause::Dehydration => 1,
            DeathCause::Exposure => 2,
            DeathCause::OldAge => 3,
            DeathCause::Illness => 4,
            DeathCause::Accident => 5,
            DeathCause::Childbirth => 6,
        }
    }

    #[verifier::when_used_as_spec(slot_spec)]
    pub fn slot(self) -> (i: usize)
        ensures
            i == self.slot_spec(),
            i < 7,
    {
        match self {
            DeathCause::Starvation => 0,
            DeathCause::Dehydration => 1,
            DeathCause::Exposure => 2,
            DeathCause::OldAge => 3,
            DeathCause::Illness => 4,
            DeathCause::Accident => 5,
            DeathCause::Childbirth => 6,
        }
    }
}

/// Heritable personality. It biases what a creature chooses rather than what
/// its choices yield.
#[derive(Debug, Clone, Copy, PartialEq, Eq, Structural)]
pub struct Traits {
    pub boldness: Num,
    pub industry: Num,
    pub sociability: Num,
    pub caution: Num,
}

/// 0.5
pub const HALF: u32 = 0x3F00_0000;

/// 3.0
pub const THREE: u32 = 0x4040_0000;

impl Default for Traits {
    fn default() -> (r: Self)
        ensures
            r == (Traits {
                boldness: num(HALF),
                industry: num(HALF),
                sociability: num(HALF),
                caution: num(HALF),
            }),
    {
        let half = num(HALF);
        Traits { boldness: half, industry: half, sociability: half, caution: half }
    }
}

/// The mean of the next three draws: centred, with tails.
pub open spec fn centred(s: Stream) -> Num {
    (s.unit_here() + s.stepped().unit_here() + s.stepped().stepped().unit_here()) / num(THREE)
}

pub open spec fn three_on(s: Stream) -> Stream {
    s.stepped().stepped().stepped()
}

fn draw_centred(rng: &mut Stream) -> (r: Num)
    ensures
        r == centred(*old(rng)),
        *final(rng) == three_on(*old(rng)),
{
    let a = rng.unit();
    let b = rng.unit();
    let c = rng.unit();
    (a + b + c) / num(THREE)
}

impl Traits {
    pub open spec fn drawn(s: Stream) -> Traits {
        Traits {
            boldness: centred(s),
            industry: centred(three_on(s)),
            sociability: centred(three_on(three_on(s))),
            caution: centred(three_on(three_on(three_on(s)))),
        }
    }

    pub open spec fn after(s: Stream) -> Stream {
        three_on(three_on(three_on(three_on(s))))
    }

    /// Centred rather than uniform: a population of extremists is less
    /// interesting than one with a middle and tails.
    pub fn random(rng: &mut Stream) -> (r: Self)
        ensures
            r == Traits::drawn(*old(rng)),
            *final(rng) == Traits::after(*old(rng)),
    {
        let boldness = draw_centred(rng);
        let industry = draw_centred(rng);
        let sociability = draw_centred(rng);
        let caution = draw_centred(rng);
        Traits { boldness, industry, sociability, caution }
    }
}

#[derive(Debug, Clone, Copy, PartialEq, Eq, Structural)]
pub enum ItemKind {
    Forage,
    Meat,
    Grain,
    Wood,
}

/// 6.0
pub const FORAGE_FOOD: u32 = 0x40C0_0000;

/// 14.0
pub const MEAT_FOOD: u32 = 0x4160_0000;

/// 11.0
pub const GRAIN_FOOD: u32 = 0x4130_0000;

impl ItemKind {
    pub open spec fn text(self) -> Seq<char> {
        match self {
            ItemKind::Forage => "FORAGE"@,
            ItemKind::Meat => "MEAT"@,
            ItemKind::Grain => "GRAIN"@,
            ItemKind::Wood => "WOOD"@,
        }
    }

    pub fn as_str(self) -> (s: &'static str)
        ensures
            s@ == self.text(),
    {
        match self {
            ItemKind::Forage => "FORAGE",
            ItemKind::Meat => "MEAT",
            ItemKind::Grain => "GRAIN",
            ItemKind::Wood => "WOOD",
        }
    }

    pub open spec fn is_food_spec(self) -> bool {
        self != ItemKind::Wood
    }

    #[verifier::when_used_as_spec(is_food_spec)]
    pub fn is_food(self) -> (r: bool)
        ensures
            r == self.is_food_spec(),
    {
        !matches!(self, ItemKind::Wood)
    }

    pub open spec fn nutrition_spec(self) -> Num {
        Num {
            bits: match self {
                ItemKind::Forage => FORAGE_FOOD,
                ItemKind::Meat => MEAT_FOOD,
                ItemKind::Grain => GRAIN_FOOD,
                ItemKind::Wood => NOTHING,
            },
        }
    }

    /// Food value per unit when eaten. Grain is dense; forage is not, which is
    /// half of why foraging is a life and farming is a lineage.
    #[verifier::when_used_as_spec(nutrition_spec)]
    pub fn nutrition(self) -> (r: Num)
        ensures
            r == self.nutrition_spec(),
    {
        let bits = match self {
            ItemKind::Forage => FORAGE_FOOD,
            ItemKind::Meat => MEAT_FOOD,
            ItemKind::Grain => GRAIN_FOOD,
            ItemKind::Wood => NOTHING,
        };
        Num { bits }
    }
}

/// One batch of one item, with the tick it was acquired. Inventories track
/// batches rather than totals so spoilage can expire the oldest first.
#[derive(Debug, Clone, Copy, PartialEq, Eq, Structural)]
pub struct Batch {
    pub kind: ItemKind,
    pub quantity: Num,
    pub harvested_tick: i64,
}

#[derive(Debug, Clone)]
pub struct Inventory {
    pub batches: Vec<Batch>,
}

/// What is held of one kind.
pub open spec fn total_of(batches: Seq<Batch>, kind: ItemKind) -> Num
    decreases batches.len(),
{
    if batches.len() == 0 {
        num(NOTHING)
    } else {
        let before = total_of(batches.drop_last(), kind);
        if batches.last().kind == kind {
            before + batches.last().quantity
        } else {
            before
        }
    }
}

pub open spec fn food_of(batches: Seq<Batch>) -> Num
    decreases batches.len(),
{
    if batches.len() == 0 {
        num(NOTHING)
    } else {
        let before = food_of(batches.drop_last());
        if batches.last().kind.is_food() {
            before + batches.last().quantity
        } else {
            before
        }
    }
}

pub open spec fn food_value_of(batches: Seq<Batch>) -> Num
    decreases batches.len(),
{
    if batches.len() == 0 {
        num(NOTHING)
    } else {
        let before = food_value_of(batches.drop_last());
        if batches.last().kind.is_food() {
            before + batches.last().quantity * batches.last().kind.nutrition()
        } else {
            before
        }
    }
}

pub open spec fn weight_of(batches: Seq<Batch>) -> Num
    decreases batches.len(),
{
    if batches.len() == 0 {
        num(NOTHING)
    } else {
        weight_of(batches.drop_last()) + batches.last().quantity
    }
}

/// The first batch of a kind acquired at a tick, or the length.
pub open spec fn same_batch(batches: Seq<Batch>, kind: ItemKind, tick: i64) -> int
    decreases batches.len(),
{
    if batches.len() == 0 {
        0
    } else {
        let before = same_batch(batches.drop_last(), kind, tick);
        if before < batches.len() - 1 || (batches.last().kind == kind && batches.last().harvested_tick == tick) {
            before
        } else {
            batches.len() as int
        }
    }
}

/// Adding a quantity: into the batch of the same kind and tick if there is one,
/// as a new batch otherwise. Nothing, or less, adds nothing.
pub open spec fn with_added(batches: Seq<Batch>, kind: ItemKind, quantity: Num, tick: i64) -> Seq<Batch> {
    if quantity.le(num(NOTHING)) {
        batches
    } else {
        let i = same_batch(batches, kind, tick);
        if i < batches.len() {
            batches.update(i, Batch { quantity: batches[i].quantity + quantity, ..batches[i] })
        } else {
            batches.push(Batch { kind, quantity, harvested_tick: tick })
        }
    }
}

/// An index put into a list of indices behind all that are no younger.
pub open spec fn insert_by_tick(order: Seq<int>, batches: Seq<Batch>, i: int) -> Seq<int>
    decreases order.len(),
{
    if order.len() == 0 || batches[order.last()].harvested_tick <= batches[i].harvested_tick {
        order.push(i)
    } else {
        insert_by_tick(order.drop_last(), batches, i).push(order.last())
    }
}

/// The batches of a kind among the first `n`, oldest first, by position among
/// those of one tick.
pub open spec fn oldest_first(batches: Seq<Batch>, kind: ItemKind, n: int) -> Seq<int>
    decreases n,
{
    if n <= 0 {
        Seq::empty()
    } else {
        let before = oldest_first(batches, kind, n - 1);
        if batches[n - 1].kind == kind {
            insert_by_tick(before, batches, n - 1)
        } else {
            before
        }
    }
}

/// Drawing an amount out of the listed batches in turn, with what is left of
/// the amount.
pub open spec fn drawn_down(batches: Seq<Batch>, order: Seq<int>, left: Num) -> (Seq<Batch>, Num)
    decreases order.len(),
{
    if order.len() == 0 || left.le(num(NOTHING)) {
        (batches, left)
    } else {
        let i = order.first();
        let part = left.min(batches[i].quantity);
        drawn_down(
            batches.update(i, Batch { quantity: batches[i].quantity - part, ..batches[i] }),
            order.drop_first(),
            left - part,
        )
    }
}

/// 0.0001: less than this is no batch.
pub const CRUMB: u32 = 0x38D1_B717;

pub open spec fn is_batch(b: Batch) -> bool {
    b.quantity.gt(num(CRUMB))
}

/// The batches left after taking up to `want`, and how much was taken.
pub open spec fn with_taken(batches: Seq<Batch>, kind: ItemKind, want: Num) -> (Seq<Batch>, Num) {
    let (drained, left) = drawn_down(batches, oldest_first(batches, kind, batches.len() as int), want);
    (drained.filter(|b: Batch| is_batch(b)), want - left)
}

/// An amount that can be held: finite, and not below nothing.
pub open spec fn is_amount(q: Num) -> bool {
    q.finite() && num(NOTHING).le(q)
}

proof fn lemma_drawn_in_turn(batches: Seq<Batch>, order: Seq<int>, left: Num)
    requires
        forall|k: int| 0 <= k < order.len() ==> 0 <= #[trigger] order[k] < batches.len(),
        forall|k: int, l: int| 0 <= k < l < order.len() ==> #[trigger] order[k] != #[trigger] order[l],
        forall|i: int| 0 <= i < batches.len() ==> is_amount((#[trigger] batches[i]).quantity),
        left.finite(),
    ensures
        ({
            let drained = drawn_down(batches, order, left).0;
            &&& drained.len() == batches.len()
            &&& forall|i: int|
                0 <= i < batches.len() && !order.contains(i) ==> #[trigger] drained[i] == batches[i]
            &&& forall|k: int, l: int|
                0 <= k < l < order.len() && drained[#[trigger] order[l]] != batches[order[l]] ==> !is_batch(
                    drained[#[trigger] order[k]],
                )
        }),
    decreases order.len(),
{
    if order.len() > 0 && !left.le(num(NOTHING)) {
        let i = order.first();
        let held = batches[i].quantity;
        let part = left.min(held);
        let next = batches.update(i, Batch { quantity: held - part, ..batches[i] });
        let rest = order.drop_first();
        let drained = drawn_down(batches, order, left).0;
        law_what_is_left(left, part);
        law_what_is_left(held, part);
        law_what_is_left(held, held);
        assert forall|j: int| 0 <= j < batches.len() && !order.contains(j) implies !rest.contains(j) by {
            if rest.contains(j) {
                let at = rest.index_of(j);
                assert(order[at + 1] == j);
            }
        }
        assert(!rest.contains(i)) by {
            if rest.contains(i) {
                let at = rest.index_of(i);
                assert(order[at + 1] == order[0]);
            }
        }
        if (left - part).le(num(NOTHING)) {
            assert(drawn_down(next, rest, left - part) == (next, left - part));
            assert(drained == next);
            assert forall|k: int, l: int|
                0 <= k < l < order.len() && drained[#[trigger] order[l]] != batches[order[l]] implies !is_batch(
                drained[#[trigger] order[k]],
            ) by {
                assert(order[0] != order[l]);
            }
        } else {
            // More is wanted than this batch held, so nothing of it is left.
            assert(part == held);
            assert forall|j: int| 0 <= j < next.len() implies is_amount((#[trigger] next[j]).quantity) by {
            }
            lemma_drawn_in_turn(next, rest, left - part);
            assert forall|k: int, l: int|
                0 <= k < l < order.len() && drained[#[trigger] order[l]] != batches[order[l]] implies !is_batch(
                drained[#[trigger] order[k]],
            ) by {
                assert(rest[l - 1] == order[l]);
                assert(order[0] != order[l]);
                if k > 0 {
                    assert(rest[k - 1] == order[k]);
                }
            }
        }
    }
}

/// Nothing is taken out of a younger batch while any of an older one of its kind
/// is left.
pub proof fn law_the_oldest_is_spent_first(batches: Seq<Batch>, kind: ItemKind, want: Num, old_one: int, young: int)
    requires
        forall|i: int| 0 <= i < batches.len() ==> is_amount((#[trigger] batches[i]).quantity),
        want.finite(),
        0 <= old_one < batches.len(),
        0 <= young < batches.len(),
        batches[old_one].kind == kind,
        batches[young].kind == kind,
        batches[old_one].harvested_tick < batches[young].harvested_tick,
    ensures
        ({
            let drained = drawn_down(batches, oldest_first(batches, kind, batches.len() as int), want).0;
            drained[young] != batches[young] ==> !is_batch(drained[old_one])
        }),
{
    let order = oldest_first(batches, kind, batches.len() as int);
    lemma_oldest_first(batches, kind, batches.len() as int);
    assert(order.contains(old_one) && order.contains(young));
    let k = order.index_of(old_one);
    let l = order.index_of(young);
    if l <= k {
        assert(l == k || comes_before(batches, order[l], order[k]));
    }
    lemma_drawn_in_turn(batches, order, want);
    assert(order[k] == old_one && order[l] == young);
}

/// The first of the oldest food batches.
pub open spec fn oldest_food_of(batches: Seq<Batch>) -> Option<Batch>
    decreases batches.len(),
{
    if batches.len() == 0 {
        None
    } else {
        let b = batches.last();
        match oldest_food_of(batches.drop_last()) {
            Some(best) => if b.kind.is_food() && b.harvested_tick < best.harvested_tick {
                Some(b)
            } else {
                Some(best)
            },
            None => if b.kind.is_food() {
                Some(b)
            } else {
                None
            },
        }
    }
}

proof fn lemma_same_batch(batches: Seq<Batch>, kind: ItemKind, tick: i64)
    ensures
        0 <= same_batch(batches, kind, tick) <= batches.len(),
        same_batch(batches, kind, tick) < batches.len() ==> batches[same_batch(
            batches,
            kind,
            tick,
        )].kind == kind && batches[same_batch(batches, kind, tick)].harvested_tick == tick,
        forall|j: int|
            0 <= j < same_batch(batches, kind, tick) ==> !(#[trigger] batches[j].kind == kind
                && batches[j].harvested_tick == tick),
    decreases batches.len(),
{
    if batches.len() > 0 {
        let shorter = batches.drop_last();
        lemma_same_batch(shorter, kind, tick);
        let s = same_batch(batches, kind, tick);
        assert forall|j: int| 0 <= j < s implies !(#[trigger] batches[j].kind == kind
            && batches[j].harvested_tick == tick) by {
            if j < shorter.len() {
                assert(batches[j] == shorter[j]);
            }
        }
    }
}

proof fn lemma_same_batch_is(batches: Seq<Batch>, kind: ItemKind, tick: i64, i: int)
    requires
        0 <= i <= batches.len(),
        i < batches.len() ==> batches[i].kind == kind && batches[i].harvested_tick == tick,
        forall|j: int| 0 <= j < i ==> !(#[trigger] batches[j].kind == kind && batches[j].harvested_tick == tick),
    ensures
        same_batch(batches, kind, tick) == i,
{
    lemma_same_batch(batches, kind, tick);
    let s = same_batch(batches, kind, tick);
    if s < i {
        assert(batches[s].kind == kind);
    } else if i < s {
        assert(batches[i].kind == kind);
    }
}

/// The order of spending lists every batch of the kind exactly once, oldest
/// first and by position among those of one tick.
pub proof fn lemma_oldest_first(batches: Seq<Batch>, kind: ItemKind, n: int)
    requires
        0 <= n <= batches.len(),
    ensures
        forall|k: int|
            0 <= k < oldest_first(batches, kind, n).len() ==> 0 <= #[trigger] oldest_first(batches, kind, n)[k]
                < n && batches[oldest_first(batches, kind, n)[k]].kind == kind,
        forall|i: int|
            0 <= i < n && #[trigger] batches[i].kind == kind ==> oldest_first(batches, kind, n).contains(i),
        forall|k: int, l: int|
            0 <= k < l < oldest_first(batches, kind, n).len() ==> comes_before(
                batches,
                #[trigger] oldest_first(batches, kind, n)[k],
                #[trigger] oldest_first(batches, kind, n)[l],
            ),
    decreases n,
{
    if n > 0 {
        lemma_oldest_first(batches, kind, n - 1);
        let before = oldest_first(batches, kind, n - 1);
        if batches[n - 1].kind == kind {
            lemma_insert_by_tick(before, batches, n - 1);
            let o = insert_by_tick(before, batches, n - 1);
            assert forall|i: int| 0 <= i < n && #[trigger] batches[i].kind == kind implies o.contains(i) by {
                if i < n - 1 {
                    assert(before.contains(i));
                }
            }
            assert forall|k: int| 0 <= k < o.len() implies 0 <= #[trigger] o[k] < n && batches[o[k]].kind
                == kind by {
                assert(o.contains(o[k]));
                if o[k] != n - 1 {
                    assert(before.contains(o[k]));
                }
            }
        } else {
            assert forall|i: int| 0 <= i < n && #[trigger] batches[i].kind == kind implies before.contains(i) by {
                assert(i < n - 1);
            }
        }
    }
}

/// Spent earlier: older, or of the same tick and earlier in the list.
pub open spec fn comes_before(batches: Seq<Batch>, a: int, b: int) -> bool {
    batches[a].harvested_tick < batches[b].harvested_tick || (batches[a].harvested_tick
        == batches[b].harvested_tick && a < b)
}

proof fn lemma_insert_by_tick(order: Seq<int>, batches: Seq<Batch>, i: int)
    requires
        forall|k: int| 0 <= k < order.len() ==> 0 <= #[trigger] order[k] < i,
        forall|k: int, l: int|
            0 <= k < l < order.len() ==> comes_before(batches, #[trigger] order[k], #[trigger] order[l]),
    ensures
        insert_by_tick(order, batches, i).len() == order.len() + 1,
        forall|j: int| #[trigger] insert_by_tick(order, batches, i).contains(j) <==> order.contains(j) || j == i,
        forall|k: int, l: int|
            0 <= k < l <= order.len() ==> comes_before(
                batches,
                #[trigger] insert_by_tick(order, batches, i)[k],
                #[trigger] insert_by_tick(order, batches, i)[l],
            ),
    decreases order.len(),
{
    let r = insert_by_tick(order, batches, i);
    if order.len() == 0 || batches[order.last()].harvested_tick <= batches[i].harvested_tick {
        assert(r == order.push(i));
        assert forall|j: int| r.contains(j) <==> order.contains(j) || j == i by {
            if order.contains(j) {
                let k = order.index_of(j);
                assert(r[k] == j);
            }
            assert(r[order.len() as int] == i);
            if r.contains(j) && j != i {
                let k = r.index_of(j);
                assert(order[k] == j);
            }
        }
        assert forall|k: int, l: int| 0 <= k < l <= order.len() implies comes_before(
            batches,
            #[trigger] r[k],
            #[trigger] r[l],
        ) by {
            if l == order.len() {
                if k < order.len() - 1 {
                    assert(comes_before(batches, order[k], order[order.len() - 1]));
                }
            } else {
                assert(comes_before(batches, order[k], order[l]));
            }
        }
    } else {
        let shorter = order.drop_last();
        let rest = insert_by_tick(shorter, batches, i);
        assert forall|k: int, l: int| 0 <= k < l < shorter.len() implies comes_before(
            batches,
            #[trigger] shorter[k],
            #[trigger] shorter[l],
        ) by {
            assert(comes_before(batches, order[k], order[l]));
        }
        lemma_insert_by_tick(shorter, batches, i);
        assert(r == rest.push(order.last()));
        assert forall|j: int| r.contains(j) <==> order.contains(j) || j == i by {
            if order.contains(j) {
                let k = order.index_of(j);
                if k < shorter.len() {
                    assert(shorter[k] == j);
                    assert(shorter.contains(j));
                    assert(rest.contains(j));
                    let m = rest.index_of(j);
                    assert(r[m] == j);
                } else {
                    assert(r[rest.len() as int] == j);
                }
            }
            assert(rest.contains(i));
            let m = rest.index_of(i);
            assert(r[m] == i);
            if r.contains(j) && j != i {
                let k = r.index_of(j);
                if k < rest.len() {
                    assert(rest[k] == j);
                    assert(rest.contains(j));
                    assert(shorter.contains(j));
                    let q = shorter.index_of(j);
                    assert(order[q] == j);
                } else {
                    assert(order[order.len() - 1] == j);
                }
            }
        }
        assert forall|k: int, l: int| 0 <= k < l <= order.len() implies comes_before(
            batches,
            #[trigger] r[k],
            #[trigger] r[l],
        ) by {
            if l == order.len() {
                assert(rest.contains(rest[k]));
                if rest[k] != i {
                    assert(shorter.contains(rest[k]));
                    let q = shorter.index_of(rest[k]);
                    assert(comes_before(batches, order[q], order[order.len() - 1]));
                }
            } else {
                assert(comes_before(batches, rest[k], rest[l]));
            }
        }
    }
}

impl Inventory {
    pub fn new() -> (r: Self)
        ensures
            r.batches@ == Seq::<Batch>::empty(),
    {
        Inventory { batches: Vec::new() }
    }

    pub fn total(&self, kind: ItemKind) -> (r: Num)
        ensures
            r == total_of(self.batches@, kind),
    {
        let mut sum = num(NOTHING);
        for i in 0..self.batches.len()
            invariant
                sum == total_of(self.batches@.take(i as int), kind),
        {
            proof {
                assert(self.batches@.take(i + 1).drop_last() == self.batches@.take(i as int));
            }
            if self.batches[i].kind == kind {
                sum = sum + self.batches[i].quantity;
            }
        }
        assert(self.batches@.take(self.batches@.len() as int) == self.batches@);
        sum
    }

    pub fn total_food(&self) -> (r: Num)
        ensures
            r == food_of(self.batches@),
    {
        let mut sum = num(NOTHING);
        for i in 0..self.batches.len()
            invariant
                sum == food_of(self.batches@.take(i as int)),
        {
            proof {
                assert(self.batches@.take(i + 1).drop_last() == self.batches@.take(i as int));
            }
            if self.batches[i].kind.is_food() {
                sum = sum + self.batches[i].quantity;
            }
        }
        assert(self.batches@.take(self.batches@.len() as int) == self.batches@);
        sum
    }

    /// Nutrition currently carried, which is what matters to a hungry creature:
    /// 4 grain and 4 forage are not the same meal.
    pub fn food_value(&self) -> (r: Num)
        ensures
            r == food_value_of(self.batches@),
    {
        let mut sum = num(NOTHING);
        for i in 0..self.batches.len()
            invariant
                sum == food_value_of(self.batches@.take(i as int)),
        {
            proof {
                assert(self.batches@.take(i + 1).drop_last() == self.batches@.take(i as int));
            }
            if self.batches[i].kind.is_food() {
                sum = sum + self.batches[i].quantity * self.batches[i].kind.nutrition();
            }
        }
        assert(self.batches@.take(self.batches@.len() as int) == self.batches@);
        sum
    }

    pub fn weight(&self) -> (r: Num)
        ensures
            r == weight_of(self.batches@),
    {
        let mut sum = num(NOTHING);
        for i in 0..self.batches.len()
            invariant
                sum == weight_of(self.batches@.take(i as int)),
        {
            proof {
                assert(self.batches@.take(i + 1).drop_last() == self.batches@.take(i as int));
            }
            sum = sum + self.batches[i].quantity;
        }
        assert(self.batches@.take(self.batches@.len() as int) == self.batches@);
        sum
    }

    /// Merges into a batch acquired the same tick, so a creature gathering for
    /// six consecutive ticks does not end with a batch per call.
    pub fn add(&mut self, kind: ItemKind, quantity: Num, tick: i64)
        ensures
            final(self).batches@ == with_added(old(self).batches@, kind, quantity, tick),
    {
        if quantity.le(num(NOTHING)) {
            return;
        }
        let mut i: usize = 0;
        while i < self.batches.len() && !(self.batches[i].kind == kind && self.batches[i].harvested_tick == tick)
            invariant
                i <= self.batches@.len(),
                self.batches@ == old(self).batches@,
                forall|j: int|
                    0 <= j < i ==> !(#[trigger] self.batches@[j].kind == kind && self.batches@[j].harvested_tick
                        == tick),
            decreases self.batches@.len() - i,
        {
            i = i + 1;
        }
        proof {
            lemma_same_batch_is(self.batches@, kind, tick, i as int);
        }
        if i < self.batches.len() {
            let b = self.batches[i];
            self.batches[i] = Batch { kind: b.kind, quantity: b.quantity + quantity, harvested_tick: b.harvested_tick };
        } else {
            self.batches.push(Batch { kind, quantity, harvested_tick: tick });
        }
    }

    /// The order in which batches of a kind are spent.
    fn spending_order(&self, kind: ItemKind) -> (order: Vec<usize>)
        ensures
            order@.map_values(|i: usize| i as int) == oldest_first(
                self.batches@,
                kind,
                self.batches@.len() as int,
            ),
    {
        let mut order: Vec<usize> = Vec::new();
        for n in 0..self.batches.len()
            invariant
                order@.map_values(|i: usize| i as int) == oldest_first(self.batches@, kind, n as int),
        {
            proof {
                lemma_oldest_first(self.batches@, kind, n as int);
            }
            let ghost before = order@.map_values(|i: usize| i as int);
            if self.batches[n].kind == kind {
                let mut at: usize = order.len();
                let ghost mut tail: Seq<int> = Seq::empty();
                assert(before.take(at as int) == before);
                assert(insert_by_tick(before.take(at as int), self.batches@, n as int) + tail == insert_by_tick(
                    before,
                    self.batches@,
                    n as int,
                ));
                while at > 0 && self.batches[order[at - 1]].harvested_tick > self.batches[n].harvested_tick
                    invariant
                        n < self.batches@.len(),
                        at <= order@.len(),
                        before == order@.map_values(|i: usize| i as int),
                        forall|k: int| 0 <= k < before.len() ==> 0 <= #[trigger] before[k] < n,
                        tail == before.skip(at as int),
                        insert_by_tick(before.take(at as int), self.batches@, n as int) + tail == insert_by_tick(
                            before,
                            self.batches@,
                            n as int,
                        ),
                    decreases at,
                {
                    proof {
                        assert(before[at - 1] == order@[at - 1]);
                        let head = before.take(at as int);
                        assert(head.last() == before[at - 1]);
                        assert(head.drop_last() == before.take(at - 1));
                        let shorter = insert_by_tick(head.drop_last(), self.batches@, n as int);
                        assert(shorter.push(head.last()) + tail == shorter + before.skip(at - 1));
                        tail = before.skip(at - 1);
                    }
                    at = at - 1;
                }
                proof {
                    let head = before.take(at as int);
                    if at > 0 {
                        assert(before[at - 1] == order@[at - 1]);
                        assert(head.last() == before[at - 1]);
                    }
                    assert(insert_by_tick(head, self.batches@, n as int) == head.push(n as int));
                    assert(before.insert(at as int, n as int) == head.push(n as int) + tail);
                }
                order.insert(at, n);
                assert(order@.map_values(|i: usize| i as int) == before.insert(at as int, n as int));
            }
        }
        order
    }

    /// Removes up to `want`, oldest batch first, and returns how much was taken.
    /// Oldest-first is what makes carrying perishables a real cost: the food
    /// about to rot is the food you eat.
    pub fn take(&mut self, kind: ItemKind, want: Num) -> (r: Num)
        ensures
            (final(self).batches@, r) == with_taken(old(self).batches@, kind, want),
    {
        let order = self.spending_order(kind);
        let ghost o = order@.map_values(|i: usize| i as int);
        let ghost start = self.batches@;
        proof {
            lemma_oldest_first(start, kind, start.len() as int);
        }
        let mut left = want;
        let mut k: usize = 0;
        assert(o.skip(0) == o);
        while k < order.len() && !left.le(num(NOTHING))
            invariant
                k <= order@.len(),
                o == order@.map_values(|i: usize| i as int),
                self.batches@.len() == start.len(),
                forall|j: int| 0 <= j < o.len() ==> 0 <= #[trigger] o[j] < start.len(),
                drawn_down(self.batches@, o.skip(k as int), left) == drawn_down(start, o, want),
            decreases order@.len() - k,
        {
            let i = order[k];
            proof {
                assert(o[k as int] == i);
                assert(o.skip(k as int).first() == i);
                assert(o.skip(k as int).drop_first() == o.skip(k + 1));
            }
            let b = self.batches[i];
            let part = left.min(b.quantity);
            self.batches[i] = Batch { kind: b.kind, quantity: b.quantity - part, harvested_tick: b.harvested_tick };
            left = left - part;
            k = k + 1;
        }
        let ghost drained = self.batches@;
        assert(drawn_down(start, o, want) == (drained, left));
        let mut kept: Vec<Batch> = Vec::new();
        let ghost keep = |b: Batch| is_batch(b);
        assert(drained.take(0).filter(keep) == Seq::<Batch>::empty());
        for i in 0..self.batches.len()
            invariant
                self.batches@ == drained,
                keep == (|b: Batch| is_batch(b)),
                kept@ == drained.take(i as int).filter(keep),
        {
            proof {
                assert(drained.take(i + 1).drop_last() == drained.take(i as int));
                reveal(Seq::filter);
            }
            let b = self.batches[i];
            if b.quantity.gt(num(CRUMB)) {
                kept.push(b);
            }
        }
        assert(drained.take(drained.len() as int) == drained);
        self.batches = kept;
        want - left
    }

    /// The oldest food batch.
    pub fn oldest_food(&self) -> (r: Option<&Batch>)
        ensures
            match r {
                Some(b) => oldest_food_of(self.batches@) == Some(*b),
                None => oldest_food_of(self.batches@) is None,
            },
    {
        let mut best: Option<usize> = None;
        for i in 0..self.batches.len()
            invariant
                match best {
                    Some(j) => j < self.batches@.len() && oldest_food_of(self.batches@.take(i as int)) == Some(
                        self.batches@[j as int],
                    ),
                    None => oldest_food_of(self.batches@.take(i as int)) is None,
                },
        {
            proof {
                assert(self.batches@.take(i + 1).drop_last() == self.batches@.take(i as int));
            }
            if self.batches[i].kind.is_food() {
                match best {
                    Some(j) => {
                        if self.batches[i].harvested_tick < self.batches[j].harvested_tick {
                            best = Some(i);
                        }
                    },
                    None => {
                        best = Some(i);
                    },
                }
            }
        }
        assert(self.batches@.take(self.batches@.len() as int) == self.batches@);
        match best {
            Some(j) => Some(&self.batches[j]),
            None => None,
        }
    }
}

/// What a plan is for. A crisis interrupts a plan unless the plan is already
/// the response to it.
#[derive(Debug, Clone, Copy, PartialEq, Eq, Structural)]
pub enum Addresses {
    Food,
    Water,
    Warmth,
    Rest,
    Fuel,
    Knowledge,
    /// Anything to do with other creatures. Never a crisis, so it is always
    /// interruptible by one.
    Kinship,
    Nothing,
}

/// A creature's committed plan.
#[derive(Debug, Clone)]
pub struct Plan {
    pub steps: Vec<Step>,
    pub step_index: usize,
    pub horizon: u32,
    pub ticks_remaining: u32,
    pub set_tick: i64,
    pub rationale: String,
    pub tier: u8,
    /// The need this plan exists to satisfy, so a crisis does not cancel the
    /// journey that was on its way to end it.
    pub addresses: Addresses,
}

impl Plan {
    pub fn current(&self) -> (r: Option<&Step>)
        ensures
            r == if self.step_index < self.steps@.len() {
                Some(&self.steps@[self.step_index as int])
            } else {
                None
            },
    {
        if self.step_index < self.steps.len() {
            Some(&self.steps[self.step_index])
        } else {
            None
        }
    }

    pub fn current_mut(&mut self) -> (r: Option<&mut Step>)
        ensures
            match r {
                Some(s) => old(self).step_index < old(self).steps@.len() && *s == old(
                    self,
                ).steps@[old(self).step_index as int] && final(self).steps@ == old(self).steps@.update(
                    old(self).step_index as int,
                    *final(s),
                ) && *final(self) == (Plan { steps: final(self).steps, ..*old(self) }),
                None => old(self).step_index >= old(self).steps@.len() && *final(self) == *old(self),
            },
    {
        if self.step_index < self.steps.len() {
            Some(&mut self.steps[self.step_index])
        } else {
            None
        }
    }

    pub open spec fn is_done_spec(&self) -> bool {
        self.step_index >= self.steps@.len()
    }

    #[verifier::when_used_as_spec(is_done_spec)]
    pub fn is_done(&self) -> (r: bool)
        ensures
            r == self.is_done_spec(),
    {
        self.step_index >= self.steps.len()
    }
}

#[derive(Debug, Clone)]
pub struct Creature {
    pub id: i64,
    pub name: String,
    pub sex: Sex,
    pub generation: i32,
    pub mother_id: Option<i64>,
    pub father_id: Option<i64>,
    pub household_id: Option<i64>,
    pub birth_tick: i64,
    pub death_tick: Option<i64>,
    pub death_cause: Option<DeathCause>,
    pub x: u32,
    pub y: u32,
    pub life_stage: LifeStage,
    pub hunger: Num,
    pub thirst: Num,
    pub fatigue: Num,
    pub warmth: Num,
    pub health: Num,
    /// Expected lifespan in ticks, shaved by hard nights and extended by good
    /// ones.
    pub lifespan_ticks: Num,
    /// Extra ageing accumulated through sustained malnutrition.
    pub wear: Num,
    pub traits: Traits,
    pub inventory: Inventory,
    pub plan: Option<Plan>,
    pub beliefs: Vec<Belief>,
    pub last_deliberation_tick: Option<i64>,
    pub deliberation_pressure: Num,
    pub lifetime_deliberations: i64,
    pub lifetime_think_fatigue: Num,
    /// Shelter the creature is currently inside, if any.
    pub in_shelter: Option<i64>,
    /// Ticks spent this night without shelter or fire, for the lifespan penalty.
    pub exposed_ticks: u32,
    /// True while the creature is at a lit fire, for rendering and warmth.
    pub at_fire: bool,
    /// A recent injury or illness and the tick it happened. If health runs out
    /// soon afterwards, that is what killed the creature rather than whichever
    /// need happened to be lowest.
    pub trauma: Option<(DeathCause, i64)>,
    /// The other half of a mutual pairing. Set on both sides or on neither.
    pub mate_id: Option<i64>,
    pub paired_tick: Option<i64>,
    /// Who fathered the child, and the tick it is due.
    pub pregnancy: Option<Pregnancy>,
    pub last_birth_tick: Option<i64>,
    pub children_born: i32,
    /// An infant follows this creature and is fed by it. Without a living
    /// guardian an infant cannot feed itself and dies.
    pub guardian_id: Option<i64>,
    pub taught_count: i32,
    pub shared_count: i32,
    /// Set when the row differs from what is stored.
    pub dirty: bool,
}

/// A plan with its steps and words as sequences.
#[verifier::ext_equal]
pub struct PlanV {
    pub steps: Seq<StepV>,
    pub step_index: nat,
    pub horizon: u32,
    pub ticks_remaining: u32,
    pub set_tick: i64,
    pub rationale: Seq<char>,
    pub tier: u8,
    pub addresses: Addresses,
}

impl View for Plan {
    type V = PlanV;

    open spec fn view(&self) -> PlanV {
        PlanV {
            steps: steps_of(self.steps@),
            step_index: self.step_index as nat,
            horizon: self.horizon,
            ticks_remaining: self.ticks_remaining,
            set_tick: self.set_tick,
            rationale: self.rationale@,
            tier: self.tier,
            addresses: self.addresses,
        }
    }
}

pub open spec fn plan_of(p: Option<Plan>) -> Option<PlanV> {
    match p {
        Some(plan) => Some(plan@),
        None => None,
    }
}

/// A creature with everything it holds, knows and intends as sequences.
#[verifier::ext_equal]
pub struct CreatureV {
    pub id: i64,
    pub name: Seq<char>,
    pub sex: Sex,
    pub generation: i32,
    pub mother_id: Option<i64>,
    pub father_id: Option<i64>,
    pub household_id: Option<i64>,
    pub birth_tick: i64,
    pub death_tick: Option<i64>,
    pub death_cause: Option<DeathCause>,
    pub x: u32,
    pub y: u32,
    pub life_stage: LifeStage,
    pub hunger: Num,
    pub thirst: Num,
    pub fatigue: Num,
    pub warmth: Num,
    pub health: Num,
    pub lifespan_ticks: Num,
    pub wear: Num,
    pub traits: Traits,
    pub pack: Seq<Batch>,
    pub plan: Option<PlanV>,
    pub beliefs: Seq<Belief>,
    pub last_deliberation_tick: Option<i64>,
    pub deliberation_pressure: Num,
    pub lifetime_deliberations: i64,
    pub lifetime_think_fatigue: Num,
    pub in_shelter: Option<i64>,
    pub exposed_ticks: u32,
    pub at_fire: bool,
    pub trauma: Option<(DeathCause, i64)>,
    pub mate_id: Option<i64>,
    pub paired_tick: Option<i64>,
    pub pregnancy: Option<Pregnancy>,
    pub last_birth_tick: Option<i64>,
    pub children_born: i32,
    pub guardian_id: Option<i64>,
    pub taught_count: i32,
    pub shared_count: i32,
    pub dirty: bool,
}

impl View for Creature {
    type V = CreatureV;

    open spec fn view(&self) -> CreatureV {
        CreatureV {
            id: self.id,
            name: self.name@,
            sex: self.sex,
            generation: self.generation,
            mother_id: self.mother_id,
            father_id: self.father_id,
            household_id: self.household_id,
            birth_tick: self.birth_tick,
            death_tick: self.death_tick,
            death_cause: self.death_cause,
            x: self.x,
            y: self.y,
            life_stage: self.life_stage,
            hunger: self.hunger,
            thirst: self.thirst,
            fatigue: self.fatigue,
            warmth: self.warmth,
            health: self.health,
            lifespan_ticks: self.lifespan_ticks,
            wear: self.wear,
            traits: self.traits,
            pack: self.inventory.batches@,
            plan: plan_of(self.plan),
            beliefs: self.beliefs@,
            last_deliberation_tick: self.last_deliberation_tick,
            deliberation_pressure: self.deliberation_pressure,
            lifetime_deliberations: self.lifetime_deliberations,
            lifetime_think_fatigue: self.lifetime_think_fatigue,
            in_shelter: self.in_shelter,
            exposed_ticks: self.exposed_ticks,
            at_fire: self.at_fire,
            trauma: self.trauma,
            mate_id: self.mate_id,
            paired_tick: self.paired_tick,
            pregnancy: self.pregnancy,
            last_birth_tick: self.last_birth_tick,
            children_born: self.children_born,
            guardian_id: self.guardian_id,
            taught_count: self.taught_count,
            shared_count: self.shared_count,
            dirty: self.dirty,
        }
    }
}

/// A population, each creature by its view.
pub open spec fn people_of(creatures: Seq<Creature>) -> Seq<CreatureV> {
    Seq::new(creatures.len(), |i: int| creatures[i]@)
}

impl CreatureV {
    pub open spec fn age(self, tick: i64) -> int {
        tick - self.birth_tick
    }

    pub open spec fn carry_capacity(self, cfg: &WorldConfig) -> Num {
        cfg.actions.carry_capacity * self.life_stage.carry_scale()
    }

    pub open spec fn fatigue_factor(self, cfg: &WorldConfig) -> Num {
        if self.fatigue.lt(cfg.needs.deficit_threshold) {
            num(TIRED_FLOOR) + num(TIRED_SPAN) * (self.fatigue
                / cfg.needs.deficit_threshold).clamp(num(NOTHING), num(ONE))
        } else {
            num(ONE)
        }
    }

    pub open spec fn biological_age(self, tick: i64) -> Num {
        of_int(self.age(tick)) + self.wear
    }

    pub open spec fn worst_need_cause(self) -> DeathCause {
        let first = if self.thirst.lt(self.hunger) {
            (self.thirst, DeathCause::Dehydration)
        } else {
            (self.hunger, DeathCause::Starvation)
        };
        if self.warmth.lt(first.0) {
            DeathCause::Exposure
        } else {
            first.1
        }
    }

    pub open spec fn speed(self, cfg: &WorldConfig) -> Num {
        cfg.actions.move_speed * self.life_stage.work_rate().max(num(SLOWEST)) * self.fatigue_factor(cfg)
    }
}

/// A pregnancy in progress.
#[derive(Debug, Clone, Copy, PartialEq, Eq, Structural)]
pub struct Pregnancy {
    pub father_id: i64,
    pub due_tick: i64,
}

/// 0.55
pub const TIRED_FLOOR: u32 = 0x3F0C_CCCD;

/// 0.45
pub const TIRED_SPAN: u32 = 0x3EE6_6666;

/// 0.35
pub const SLOWEST: u32 = 0x3EB3_3333;

/// 60.0
pub const WEAK_HEALTH: u32 = 0x4270_0000;

/// 40.0
pub const COURTABLE_HEALTH: u32 = 0x4220_0000;

/// The more pressing of two needs; the first where neither is.
pub open spec fn worse(a: (Num, nat), b: (Num, nat)) -> (Num, nat) {
    if b.0.order_key() < a.0.order_key() {
        b
    } else {
        a
    }
}

impl Creature {
    pub open spec fn age_spec(&self, tick: i64) -> int {
        tick - self.birth_tick
    }

    pub fn age(&self, tick: i64) -> (r: i64)
        requires
            i64::MIN <= self.age_spec(tick) <= i64::MAX,
        ensures
            r == self.age_spec(tick),
    {
        tick - self.birth_tick
    }

    pub open spec fn is_alive_spec(&self) -> bool {
        self.death_tick is None
    }

    #[verifier::when_used_as_spec(is_alive_spec)]
    pub fn is_alive(&self) -> (r: bool)
        ensures
            r == self.is_alive_spec(),
    {
        self.death_tick.is_none()
    }

    pub open spec fn biological_age_spec(&self, tick: i64) -> Num {
        of_int(self.age_spec(tick)) + self.wear
    }

    /// Chronological age plus the wear malnutrition added. Life stage uses
    /// chronological age; death by old age uses this.
    pub fn biological_age(&self, tick: i64) -> (r: Num)
        requires
            i64::MIN <= self.age_spec(tick) <= i64::MAX,
        ensures
            r == self.biological_age_spec(tick),
    {
        Num::from_i64(self.age(tick)) + self.wear
    }

    /// Expected lifespan as a multiple of the baseline.
    pub fn lifespan_modifier(&self, cfg: &LifespanConfig) -> (r: Num)
        ensures
            r == self.lifespan_ticks / of_int(cfg.baseline_ticks as int),
    {
        self.lifespan_ticks / Num::from_u64(cfg.baseline_ticks as u64)
    }

    pub open spec fn carry_capacity_spec(&self, cfg: &WorldConfig) -> Num {
        cfg.actions.carry_capacity * self.life_stage.carry_scale()
    }

    /// How much this creature can carry. Elders carry less.
    pub fn carry_capacity(&self, cfg: &WorldConfig) -> (r: Num)
        ensures
            r == self.carry_capacity_spec(cfg),
    {
        cfg.actions.carry_capacity * self.life_stage.carry_scale()
    }

    pub open spec fn fatigue_factor(&self, cfg: &WorldConfig) -> Num {
        if self.fatigue.lt(cfg.needs.deficit_threshold) {
            num(TIRED_FLOOR) + num(TIRED_SPAN) * (self.fatigue
                / cfg.needs.deficit_threshold).clamp(num(NOTHING), num(ONE))
        } else {
            num(ONE)
        }
    }

    pub open spec fn speed_spec(&self, cfg: &WorldConfig) -> Num {
        cfg.actions.move_speed * self.life_stage.work_rate().max(num(SLOWEST)) * self.fatigue_factor(cfg)
    }

    /// Movement speed in path cost per tick. High fatigue slows movement, which
    /// is what makes rest worth taking.
    pub fn speed(&self, cfg: &WorldConfig) -> (r: Num)
        ensures
            r == self.speed_spec(cfg),
    {
        let factor = if self.fatigue.lt(cfg.needs.deficit_threshold) {
            let share = (self.fatigue / cfg.needs.deficit_threshold).clamp(num(NOTHING), num(ONE));
            num(TIRED_FLOOR) + num(TIRED_SPAN) * share
        } else {
            num(ONE)
        };
        cfg.actions.move_speed * self.life_stage.work_rate().max(num(SLOWEST)) * factor
    }

    /// The need with the lowest value, the earlier one among equals: hunger,
    /// thirst, fatigue, warmth, in that order.
    pub open spec fn worst_need(&self) -> (Num, nat) {
        worse(worse(worse((self.hunger, 0), (self.thirst, 1)), (self.fatigue, 2)), (self.warmth, 3))
    }

    pub open spec fn felt_text(&self, cfg: &NeedsConfig) -> Seq<char> {
        let (value, need) = self.worst_need();
        if value.lt(cfg.critical_threshold) {
            if need == 0 {
                "starving"@
            } else if need == 1 {
                "parched"@
            } else if need == 2 {
                "spent"@
            } else {
                "freezing"@
            }
        } else if value.lt(cfg.deficit_threshold) {
            if need == 0 {
                "hungry"@
            } else if need == 1 {
                "thirsty"@
            } else if need == 2 {
                "exhausted"@
            } else {
                "freezing"@
            }
        } else if self.health.lt(num(WEAK_HEALTH)) {
            "weak"@
        } else {
            "well"@
        }
    }

    /// Qualitative description of the worst need. Health is never shown to the
    /// creature as a number.
    pub fn felt_state(&self, cfg: &NeedsConfig) -> (s: &'static str)
        ensures
            s@ == self.felt_text(cfg),
    {
        let mut value = self.hunger;
        let mut need: u8 = 0;
        if self.thirst.order_key() < value.order_key() {
            value = self.thirst;
            need = 1;
        }
        if self.fatigue.order_key() < value.order_key() {
            value = self.fatigue;
            need = 2;
        }
        if self.warmth.order_key() < value.order_key() {
            value = self.warmth;
            need = 3;
        }
        if value.lt(cfg.critical_threshold) {
            match need {
                0 => "starving",
                1 => "parched",
                2 => "spent",
                _ => "freezing",
            }
        } else if value.lt(cfg.deficit_threshold) {
            match need {
                0 => "hungry",
                1 => "thirsty",
                2 => "exhausted",
                _ => "freezing",
            }
        } else if self.health.lt(num(WEAK_HEALTH)) {
            "weak"
        } else {
            "well"
        }
    }

    pub open spec fn is_paired_spec(&self) -> bool {
        self.mate_id is Some
    }

    #[verifier::when_used_as_spec(is_paired_spec)]
    pub fn is_paired(&self) -> (r: bool)
        ensures
            r == self.is_paired_spec(),
    {
        self.mate_id.is_some()
    }

    pub open spec fn courtable(&self) -> bool {
        self.life_stage == LifeStage::Adult && self.mate_id is None && self.health.gt(
            num(COURTABLE_HEALTH),
        )
    }

    /// Eligible to be courted or to court: an unattached adult in reasonable
    /// health. Neither the configuration nor the hour comes into it.
    pub fn is_courtable(&self, _cfg: &LifespanConfig, _tick: i64) -> (r: bool)
        ensures
            r == self.courtable(),
    {
        self.life_stage == LifeStage::Adult && self.mate_id.is_none() && self.health.gt(
            num(COURTABLE_HEALTH),
        )
    }

    pub open spec fn worst_need_cause_spec(&self) -> DeathCause {
        let first = if self.thirst.lt(self.hunger) {
            (self.thirst, DeathCause::Dehydration)
        } else {
            (self.hunger, DeathCause::Starvation)
        };
        if self.warmth.lt(first.0) {
            DeathCause::Exposure
        } else {
            first.1
        }
    }

    /// The need in the deepest deficit, which is what decides the cause when
    /// health finally runs out. Fatigue alone does not kill.
    pub fn worst_need_cause(&self) -> (r: DeathCause)
        ensures
            r == self.worst_need_cause_spec(),
    {
        let mut worst = (self.hunger, DeathCause::Starvation);
        if self.thirst.lt(worst.0) {
            worst = (self.thirst, DeathCause::Dehydration);
        }
        if self.warmth.lt(worst.0) {
            worst = (self.warmth, DeathCause::Exposure);
        }
        worst.1
    }
}

pub open spec fn head_text(i: u64) -> Seq<char> {
    match i {
        0 => "An"@,
        1 => "Bre"@,
        2 => "Cor"@,
        3 => "Da"@,
        4 => "Es"@,
        5 => "Fal"@,
        6 => "Gar"@,
        7 => "Hal"@,
        8 => "Is"@,
        9 => "Jor"@,
        10 => "Kel"@,
        11 => "Lo"@,
        12 => "Mi"@,
        13 => "Na"@,
        14 => "Ot"@,
        15 => "Pel"@,
        16 => "Ru"@,
        17 => "Sev"@,
        18 => "Tol"@,
        19 => "Ur"@,
        20 => "Ve"@,
        21 => "Wre"@,
        22 => "Ys"@,
        _ => "Zan"@,
    }
}

pub open spec fn tail_text(i: u64) -> Seq<char> {
    match i {
        0 => "sa"@,
        1 => "n"@,
        2 => "el"@,
        3 => "ra"@,
        4 => "ka"@,
        5 => "th"@,
        6 => "ven"@,
        7 => "lin"@,
        8 => "mar"@,
        9 => "ok"@,
        10 => "is"@,
        11 => "en"@,
        12 => "wyn"@,
        13 => "da"@,
        14 => "ric"@,
        _ => "ul"@,
    }
}

fn name_head(i: usize) -> (s: &'static str)
    ensures
        s@ == head_text(i as u64),
{
    match i {
        0 => "An",
        1 => "Bre",
        2 => "Cor",
        3 => "Da",
        4 => "Es",
        5 => "Fal",
        6 => "Gar",
        7 => "Hal",
        8 => "Is",
        9 => "Jor",
        10 => "Kel",
        11 => "Lo",
        12 => "Mi",
        13 => "Na",
        14 => "Ot",
        15 => "Pel",
        16 => "Ru",
        17 => "Sev",
        18 => "Tol",
        19 => "Ur",
        20 => "Ve",
        21 => "Wre",
        22 => "Ys",
        _ => "Zan",
    }
}

fn name_tail(i: usize) -> (s: &'static str)
    ensures
        s@ == tail_text(i as u64),
{
    match i {
        0 => "sa",
        1 => "n",
        2 => "el",
        3 => "ra",
        4 => "ka",
        5 => "th",
        6 => "ven",
        7 => "lin",
        8 => "mar",
        9 => "ok",
        10 => "is",
        11 => "en",
        12 => "wyn",
        13 => "da",
        14 => "ric",
        _ => "ul",
    }
}

/// The name two draws give.
pub open spec fn name_at(s: Stream) -> Seq<char> {
    head_text(s.index_here(24) as u64) + tail_text(s.indexed(24).index_here(16) as u64)
}

pub open spec fn named(s: Stream) -> Stream {
    s.indexed(24).indexed(16)
}

/// Deterministic name generation: the same position in the stream gives the
/// same name.
pub fn name_for(rng: &mut Stream) -> (name: String)
    ensures
        name@ == name_at(*old(rng)),
        *final(rng) == named(*old(rng)),
{
    let h = rng.index(24);
    let t = rng.index(16);
    let mut name = name_head(h).to_owned();
    name.append(name_tail(t));
    name
}

/// What is put in is held: it joins the first batch of its kind and tick, or makes
/// one. Every other batch is as it was, and less than something adds nothing.
pub proof fn law_what_is_added_is_held(batches: Seq<Batch>, kind: ItemKind, quantity: Num, tick: i64)
    ensures
        ({
            let after = with_added(batches, kind, quantity, tick);
            &&& quantity.le(num(0)) ==> after == batches
            &&& !quantity.le(num(0)) && (forall|l: int|
                0 <= l < batches.len() ==> !((#[trigger] batches[l]).kind == kind && batches[l].harvested_tick == tick))
                ==> after == batches.push(Batch { kind, quantity, harvested_tick: tick })
            &&& forall|l: int|
                #![trigger batches[l]]
                !quantity.le(num(0)) && 0 <= l < batches.len() && batches[l].kind == kind && batches[l].harvested_tick
                    == tick && (forall|m: int|
                    0 <= m < l ==> !((#[trigger] batches[m]).kind == kind && batches[m].harvested_tick == tick))
                    ==> after == batches.update(
                    l,
                    Batch { quantity: batches[l].quantity + quantity, ..batches[l] },
                )
        }),
{
    if !quantity.le(num(0)) {
        if forall|l: int|
            0 <= l < batches.len() ==> !((#[trigger] batches[l]).kind == kind && batches[l].harvested_tick == tick) {
            lemma_same_batch_is(batches, kind, tick, batches.len() as int);
        }
        assert forall|l: int|
            #![trigger batches[l]]
            0 <= l < batches.len() && batches[l].kind == kind && batches[l].harvested_tick == tick && (forall|m: int|
                0 <= m < l ==> !((#[trigger] batches[m]).kind == kind && batches[m].harvested_tick == tick)) implies {
            let after = with_added(batches, kind, quantity, tick);
            after == batches.update(l, Batch { quantity: batches[l].quantity + quantity, ..batches[l] })
        } by {
            lemma_same_batch_is(batches, kind, tick, l);
        }
    }
}

/// Food is eaten and given oldest first: the batch picked is food, none of the food
/// is older, and of those as old it is the first. Wood is never picked.
pub proof fn law_the_oldest_food_is_picked(batches: Seq<Batch>)
    ensures
        match oldest_food_of(batches) {
            Some(b) => b.kind != ItemKind::Wood && exists|k: int|
                0 <= k < batches.len() && #[trigger] batches[k] == b && forall|l: int|
                    0 <= l < batches.len() && (#[trigger] batches[l]).kind != ItemKind::Wood ==> b.harvested_tick
                        < batches[l].harvested_tick || (b.harvested_tick == batches[l].harvested_tick && k <= l),
            None => forall|l: int| 0 <= l < batches.len() ==> (#[trigger] batches[l]).kind == ItemKind::Wood,
        },
    decreases batches.len(),
{
    if batches.len() > 0 {
        let shorter = batches.drop_last();
        law_the_oldest_food_is_picked(shorter);
        let n = batches.len() - 1;
        assert(forall|l: int| 0 <= l < n ==> #[trigger] batches[l] == shorter[l]);
        match oldest_food_of(shorter) {
            Some(best) => {
                let k = choose|k: int|
                    0 <= k < shorter.len() && #[trigger] shorter[k] == best && forall|l: int|
                        0 <= l < shorter.len() && (#[trigger] shorter[l]).kind != ItemKind::Wood
                            ==> best.harvested_tick < shorter[l].harvested_tick || (best.harvested_tick
                            == shorter[l].harvested_tick && k <= l);
                assert(batches[k] == best);
                assert(batches[n] == batches.last());
            },
            None => {
                assert(batches[n] == batches.last());
            },
        }
    }
}

/// What is taken from the first and oldest batch of a kind, where it suffices, is
/// what was wanted, comes out of that batch, and comes out of no other. What then
/// holds no more than a crumb is thrown out.
pub proof fn law_what_is_taken_is_gone(batches: Seq<Batch>, kind: ItemKind, want: Num, k: int)
    requires
        forall|i: int| 0 <= i < batches.len() ==> is_amount((#[trigger] batches[i]).quantity),
        0 <= k < batches.len(),
        batches[k].kind == kind,
        forall|l: int|
            0 <= l < batches.len() && (#[trigger] batches[l]).kind == kind ==> batches[k].harvested_tick
                < batches[l].harvested_tick || (batches[k].harvested_tick == batches[l].harvested_tick && k <= l),
        num(0).lt(want),
        want.le(batches[k].quantity),
    ensures
        ({
            let (rest, got) = with_taken(batches, kind, want);
            let drained = batches.update(k, Batch { quantity: batches[k].quantity - want, ..batches[k] });
            &&& got == want
            &&& forall|b: Batch| #[trigger]
                rest.contains(b) <==> drained.contains(b) && num(0x38D1_B717).lt(b.quantity)
        }),
{
    let n = batches.len() as int;
    let order = oldest_first(batches, kind, n);
    lemma_oldest_first(batches, kind, n);
    assert(order.contains(k));
    let at = order.index_of(k);
    if at > 0 {
        assert(comes_before(batches, order[0], order[at]));
    }
    assert(order.first() == k);
    assert(want.min(batches[k].quantity) == want);
    law_what_is_left(want, want);
    let drained = batches.update(k, Batch { quantity: batches[k].quantity - want, ..batches[k] });
    assert(drawn_down(drained, order.drop_first(), want - want) == (drained, want - want));
    assert(drawn_down(batches, order, want) == (drained, want - want));
    law_nothing_changes_nothing(want, want - want);
    let p = |b: Batch| is_batch(b);
    assert forall|b: Batch| #[trigger]
        with_taken(batches, kind, want).0.contains(b) <==> drained.contains(b) && num(0x38D1_B717).lt(b.quantity) by {
        lemma_filtered(drained, p, b);
    }
}

/// The stages of life follow from age alone: an infant until the age for it, an
/// elder from the age for that, an adult between. Nobody grows younger.
pub proof fn law_stages_follow_age(age: i64, later: i64, cfg: &LifespanConfig)
    requires
        age <= later,
    ensures
        LifeStage::of(age, cfg) == LifeStage::Infant <==> age < cfg.infant_until_tick,
        LifeStage::of(age, cfg) == LifeStage::Elder <==> cfg.infant_until_tick <= age && cfg.elder_from_tick <= age,
        LifeStage::of(later, cfg) == LifeStage::Infant ==> LifeStage::of(age, cfg) == LifeStage::Infant,
        LifeStage::of(age, cfg) == LifeStage::Elder ==> LifeStage::of(later, cfg) == LifeStage::Elder,
{
}

/// Adults do a full share of work and carry a full load; elders do less of both, but
/// some, and infants do not work and carry least.
pub proof fn law_adults_do_most()
    ensures
        LifeStage::Adult.work_rate() == num(0x3F80_0000),
        LifeStage::Adult.carry_scale() == num(0x3F80_0000),
        LifeStage::Elder.work_rate().lt(LifeStage::Adult.work_rate()),
        num(0).lt(LifeStage::Elder.work_rate()),
        LifeStage::Infant.work_rate() == num(0),
        LifeStage::Elder.carry_scale().lt(LifeStage::Adult.carry_scale()),
        LifeStage::Infant.carry_scale().lt(LifeStage::Elder.carry_scale()),
        num(0).lt(LifeStage::Infant.carry_scale()),
        !LifeStage::Infant.can_work(),
        LifeStage::Adult.can_work() && LifeStage::Elder.can_work(),
{
}

/// Meat is worth more than grain to whoever eats it, and grain more than forage; wood
/// is worth nothing and is the one thing that is not food.
pub proof fn law_what_is_food(kind: ItemKind)
    ensures
        kind.is_food() <==> kind != ItemKind::Wood,
        kind.is_food() <==> num(0).lt(kind.nutrition()),
        ItemKind::Forage.nutrition().lt(ItemKind::Grain.nutrition()),
        ItemKind::Grain.nutrition().lt(ItemKind::Meat.nutrition()),
        ItemKind::Wood.nutrition() == num(0),
{
}

/// Tiredness slows: whoever is above the threshold goes at full speed for their age,
/// whoever is below it no slower than a little over half of that, and at nothing the
/// factor is that floor.
pub proof fn law_the_tired_are_slow(c: CreatureV, cfg: &WorldConfig)
    requires
        num(0).le(c.fatigue),
        c.fatigue.finite(),
        cfg.needs.deficit_threshold.finite(),
    ensures
        !c.fatigue.lt(cfg.needs.deficit_threshold) ==> c.fatigue_factor(cfg) == num(0x3F80_0000),
        num(0x3F0C_CCCD).le(c.fatigue_factor(cfg)),
        c.fatigue == num(0) && c.fatigue.lt(cfg.needs.deficit_threshold) ==> c.fatigue_factor(cfg) == num(0x3F0C_CCCD),
        c.speed(cfg) == cfg.actions.move_speed * c.life_stage.work_rate().max(num(0x3EB3_3333)) * c.fatigue_factor(cfg),
{
    let t = cfg.needs.deficit_threshold;
    if c.fatigue.lt(t) {
        law_a_share_is_finite(c.fatigue, t);
        let share = (c.fatigue / t).clamp(num(NOTHING), num(ONE));
        law_no_product_is_negative(num(TIRED_SPAN), share);
        law_adding_leaves_no_less(num(TIRED_FLOOR), num(TIRED_SPAN) * share);
        if c.fatigue == num(0) {
            lemma_nothing_of(t);
            lemma_nothing_times(num(TIRED_SPAN), share);
            law_nothing_changes_nothing(num(TIRED_FLOOR), num(TIRED_SPAN) * share);
        }
    }
}

/// What kills is what was lowest: warmth only if it was below both hunger and
/// thirst, thirst only if it was below hunger and warmth was not below it, hunger
/// only if neither of the others was below it.
pub proof fn law_the_worst_need_is_blamed(c: CreatureV)
    ensures
        c.worst_need_cause() == DeathCause::Exposure ==> c.warmth.lt(c.hunger) || c.warmth.lt(c.thirst),
        c.worst_need_cause() == DeathCause::Exposure && !c.hunger.is_nan() && !c.thirst.is_nan() ==> c.warmth.lt(
            c.hunger,
        ) && c.warmth.lt(c.thirst),
        c.worst_need_cause() == DeathCause::Dehydration ==> c.thirst.lt(c.hunger) && !c.warmth.lt(c.thirst),
        c.worst_need_cause() == DeathCause::Starvation ==> !c.thirst.lt(c.hunger) && !c.warmth.lt(c.hunger),
        c.worst_need_cause() == DeathCause::Exposure || c.worst_need_cause() == DeathCause::Dehydration
            || c.worst_need_cause() == DeathCause::Starvation,
{
}

/// Taking never yields more than is wanted, touches nothing of another kind but to
/// throw out crumbs, and yields less than is wanted only when nothing of the kind is
/// left.
pub proof fn law_taking_spends_one_kind(batches: Seq<Batch>, kind: ItemKind, want: Num, b: Batch)
    requires
        forall|i: int| 0 <= i < batches.len() ==> is_amount((#[trigger] batches[i]).quantity),
        want.finite(),
        num(0).le(want),
    ensures
        ({
            let (rest, got) = with_taken(batches, kind, want);
            &&& got.le(want)
            &&& b.kind != kind ==> (rest.contains(b) <==> batches.contains(b) && num(0x38D1_B717).lt(b.quantity))
            &&& b.kind == kind && got.lt(want) ==> !rest.contains(b)
        }),
{
    let n = batches.len() as int;
    let order = oldest_first(batches, kind, n);
    lemma_oldest_first(batches, kind, n);
    assert forall|k: int, l: int| 0 <= k < l < order.len() implies #[trigger] order[k] != #[trigger] order[l] by {
        assert(comes_before(batches, order[k], order[l]));
    }
    let (drained, left) = drawn_down(batches, order, want);
    lemma_drawn_in_turn(batches, order, want);
    lemma_drawn_out(batches, order, want);
    law_what_is_left(want, left);
    let p = |b: Batch| is_batch(b);
    lemma_filtered(drained, p, b);
    if b.kind != kind {
        if drained.contains(b) {
            let i = drained.index_of(b);
            assert(drained[i].kind == batches[i].kind);
            if order.contains(i) {
                let k = order.index_of(i);
                assert(batches[order[k]].kind == kind);
            }
            assert(batches[i] == b);
        }
        if batches.contains(b) {
            let i = batches.index_of(b);
            if order.contains(i) {
                let k = order.index_of(i);
                assert(batches[order[k]].kind == kind);
            }
            assert(drained[i] == b);
        }
    } else if (want - left).lt(want) {
        if left.le(num(NOTHING)) && want.mag() > 0 {
            law_nothing_changes_nothing(want, left);
        }
        if drained.contains(b) {
            let i = drained.index_of(b);
            assert(batches[i].kind == kind);
            assert(order.contains(i));
            let k = order.index_of(i);
            assert(drained[order[k]].quantity.rank() == 0);
        }
    }
}

/// What drawing in turn leaves: a finite rest of the want that is not below nothing,
/// kinds as they were, and, if any of the want is left, nothing in the batches
/// listed.
proof fn lemma_drawn_out(batches: Seq<Batch>, order: Seq<int>, left: Num)
    requires
        forall|k: int| 0 <= k < order.len() ==> 0 <= #[trigger] order[k] < batches.len(),
        forall|k: int, l: int| 0 <= k < l < order.len() ==> #[trigger] order[k] != #[trigger] order[l],
        forall|i: int| 0 <= i < batches.len() ==> is_amount((#[trigger] batches[i]).quantity),
        is_amount(left),
    ensures
        ({
            let (drained, rest) = drawn_down(batches, order, left);
            &&& is_amount(rest)
            &&& drained.len() == batches.len()
            &&& forall|i: int|
                0 <= i < batches.len() ==> (#[trigger] drained[i]).kind == batches[i].kind && drained[i].harvested_tick
                    == batches[i].harvested_tick
            &&& forall|k: int|
                0 <= k < order.len() && num(NOTHING).lt(rest) ==> drained[#[trigger] order[k]].quantity.rank() == 0
        }),
    decreases order.len(),
{
    if order.len() > 0 && !left.le(num(NOTHING)) {
        let i = order.first();
        let held = batches[i].quantity;
        let part = left.min(held);
        let next = batches.update(i, Batch { quantity: held - part, ..batches[i] });
        let rest = order.drop_first();
        law_what_is_left(left, part);
        law_what_is_left(held, part);
        law_what_is_left(held, held);
        law_what_is_left(left, left);
        law_less_can_be_taken(left, part);
        law_less_can_be_taken(held, part);
        assert(forall|k: int| 0 <= k < rest.len() ==> #[trigger] rest[k] == order[k + 1]);
        assert forall|j: int| 0 <= j < next.len() implies is_amount((#[trigger] next[j]).quantity) by {
        }
        lemma_drawn_out(next, rest, left - part);
        lemma_drawn_in_turn(next, rest, left - part);
        let (drained, over) = drawn_down(batches, order, left);
        assert(drawn_down(next, rest, left - part) == (drained, over));
        if num(NOTHING).lt(over) {
            assert(!rest.contains(i)) by {
                if rest.contains(i) {
                    let at = rest.index_of(i);
                    assert(order[at + 1] == order[0]);
                }
            }
            assert(drained[i] == next[i]);
            if (left - part).le(num(NOTHING)) {
                assert(over == left - part);
            }
            assert(part == held);
            assert forall|k: int| 0 <= k < order.len() implies drained[#[trigger] order[k]].quantity.rank() == 0 by {
                if k > 0 {
                    assert(rest[k - 1] == order[k]);
                }
            }
        }
    }
}

/// What is carried adds up batch by batch: everything to the weight, what is food to
/// the food and, times what it is worth, to its worth, and each thing to its own kind.
pub proof fn law_what_is_carried_adds_up(batches: Seq<Batch>, b: Batch, kind: ItemKind)
    ensures
        weight_of(batches.push(b)) == weight_of(batches) + b.quantity,
        food_of(batches.push(b)) == if b.kind != ItemKind::Wood {
            food_of(batches) + b.quantity
        } else {
            food_of(batches)
        },
        food_value_of(batches.push(b)) == if b.kind != ItemKind::Wood {
            food_value_of(batches) + b.quantity * b.kind.nutrition()
        } else {
            food_value_of(batches)
        },
        total_of(batches.push(b), kind) == if b.kind == kind {
            total_of(batches, kind) + b.quantity
        } else {
            total_of(batches, kind)
        },
        weight_of(Seq::empty()) == num(0) && food_of(Seq::empty()) == num(0) && total_of(Seq::empty(), kind) == num(0)
            && food_value_of(Seq::empty()) == num(0),
{
    assert(batches.push(b).drop_last() =~= batches);
    assert(batches.push(b).last() == b);
}

/// How one feels goes by what is lowest, the first named of those as low: hunger,
/// thirst, fatigue, warmth. Below the critical level it is said in the strong word,
/// below the threshold in the mild one; with nothing wanting it is health that counts,
/// weak below sixty and well from there.
pub proof fn law_how_one_feels(c: &Creature, cfg: &NeedsConfig)
    ensures
        ({
            let (v, need) = c.worst_need();
            let low = |a: Num, b: Num| a.order_key() <= b.order_key();
            &&& low(v, c.hunger) && low(v, c.thirst) && low(v, c.fatigue) && low(v, c.warmth)
            &&& need == 0 ==> v == c.hunger
            &&& need == 1 ==> v == c.thirst && !low(c.hunger, v)
            &&& need == 2 ==> v == c.fatigue && !low(c.hunger, v) && !low(c.thirst, v)
            &&& need == 3 ==> v == c.warmth && !low(c.hunger, v) && !low(c.thirst, v) && !low(c.fatigue, v)
            &&& need <= 3
            &&& v.lt(cfg.critical_threshold) && need == 0 ==> c.felt_text(cfg) == "starving"@
            &&& v.lt(cfg.critical_threshold) && need == 1 ==> c.felt_text(cfg) == "parched"@
            &&& v.lt(cfg.critical_threshold) && need == 2 ==> c.felt_text(cfg) == "spent"@
            &&& v.lt(cfg.critical_threshold) && need == 3 ==> c.felt_text(cfg) == "freezing"@
            &&& !v.lt(cfg.critical_threshold) && v.lt(cfg.deficit_threshold) && need == 0 ==> c.felt_text(cfg)
                == "hungry"@
            &&& !v.lt(cfg.critical_threshold) && v.lt(cfg.deficit_threshold) && need == 1 ==> c.felt_text(cfg)
                == "thirsty"@
            &&& !v.lt(cfg.critical_threshold) && v.lt(cfg.deficit_threshold) && need == 2 ==> c.felt_text(cfg)
                == "exhausted"@
            &&& !v.lt(cfg.critical_threshold) && !v.lt(cfg.deficit_threshold) ==> c.felt_text(cfg) == if c.health.lt(
                num(0x4270_0000),
            ) {
                "weak"@
            } else {
                "well"@
            }
        }),
{
}

/// Who may be courted: an adult, unpaired, in more than fair health.
pub proof fn law_who_may_be_courted(c: &Creature)
    ensures
        c.courtable() <==> c.life_stage == LifeStage::Adult && c.mate_id is None && num(0x4220_0000).lt(c.health),
{
}

/// One is as old as the ticks since birth and what has worn one besides.
pub proof fn law_wear_adds_to_age(c: CreatureV, tick: i64)
    ensures
        c.biological_age(tick) == of_int(tick - c.birth_tick) + c.wear,
{
}

} // verus!
