//! What people do to and for one another, and what comes of it: gifts, offers,
//! pairing, households, word of mouth, birth and bereavement.

use crate::birth::{cradled, delivered, drawn_on, fed_from, is_due, laboured, Cradle, Deviates, Labour};
use crate::chance::{chacha_word, law_draws_are_below_one, Stream};
use crate::config::{KnowledgeConfig, WorldConfig};
use crate::courting::{ambient, cooled, home_named, let_down, overhearing, prospect, tried};
use crate::creature::{
    food_of, is_amount, law_the_oldest_food_is_picked, law_what_is_taken_is_gone, oldest_food_of, with_taken, Batch,
    CreatureV, DeathCause, ItemKind, LifeStage, Sex,
};
use crate::estates::{can_tend, survived, tender_in, widowed};
use crate::event::EventKind;
use crate::knowledge::{picks, Belief, BeliefKind, Channel};
use crate::lists::{count_where, first_where, lemma_filtered, lemma_first_where, lemma_first_where_is};
use crate::num::{
    law_a_mean_of_two_alike, law_adding_leaves_no_less, law_adding_more_makes_no_less, law_no_product_is_negative,
    law_nothing_changes_nothing, law_one_and_one, law_quotients_keep_their_order, lemma_nothing_times,
    lemma_parts_of_one, num, sum_of, Num,
};
use crate::nursery::{
    after_name, need_at, scattered_near, settled_by, spawned, Brood, Place, LEAST_NEED, NEED_SPAN, SCATTER_TRIES,
};
use crate::records::{more_by, one_more, TickReport};
use crate::social::{
    blocker_of, bonded, bonded_both, clear_of, company, home_at, inherited, lapsed_by, not_between, open_at, with_offer,
    Blocker, CrowdV, Edge, HouseholdV, Offer, RelKind, SocialIntent,
};
use crate::terrain::Terrain;
use crate::town::{
    handed_over, has_id, heard, intent_applied, is_here, lemma_place, lives_in, passed_on, place_of, portion, shared,
    Affair, TownV,
};
use crate::world::{Founder, Ground};
use crate::worldgen::tile_at;
use vstd::prelude::*;

verus! {

/// What somebody is to somebody else, or a stranger.
pub open spec fn regard(bonds: Map<(i64, i64), Edge>, from: i64, to: i64) -> Num {
    if bonds.contains_key((from, to)) {
        bonds[(from, to)].affinity
    } else {
        num(0)
    }
}

/// A nudge moves one's regard for another by what it is, between minus one and one,
/// and moves nobody else's; a stranger starts from nothing. What they are to one
/// another changes only if it is said.
pub proof fn law_a_nudge_moves_one_regard(
    bonds: Map<(i64, i64), Edge>,
    from: i64,
    to: i64,
    delta: Num,
    kind: Option<RelKind>,
    tick: i64,
)
    ensures
        ({
            let after = bonded(bonds, from, to, delta, kind, tick);
            &&& regard(after, from, to) == (regard(bonds, from, to) + delta).clamp(num(0xBF80_0000), num(0x3F80_0000))
            &&& after.contains_key((from, to)) && after[(from, to)].updated_tick == tick
            &&& kind is Some ==> after[(from, to)].kind == kind
            &&& kind is None && bonds.contains_key((from, to)) ==> after[(from, to)].kind == bonds[(from, to)].kind
            &&& kind is None && !bonds.contains_key((from, to)) ==> after[(from, to)].kind is None
            &&& forall|a: i64, b: i64| #![trigger after[(a, b)]]
                (a, b) != (from, to) ==> (after.contains_key((a, b)) <==> bonds.contains_key((a, b))) && (
                bonds.contains_key((a, b)) ==> after[(a, b)] == bonds[(a, b)])
        }),
{
}

/// What two share they share both ways.
pub proof fn law_a_bond_goes_both_ways(
    bonds: Map<(i64, i64), Edge>,
    a: i64,
    b: i64,
    delta: Num,
    kind: Option<RelKind>,
    tick: i64,
)
    requires
        a != b,
    ensures
        ({
            let after = bonded_both(bonds, a, b, delta, kind, tick);
            &&& regard(after, a, b) == (regard(bonds, a, b) + delta).clamp(num(0xBF80_0000), num(0x3F80_0000))
            &&& regard(after, b, a) == (regard(bonds, b, a) + delta).clamp(num(0xBF80_0000), num(0x3F80_0000))
            &&& kind is Some ==> after[(a, b)].kind == kind && after[(b, a)].kind == kind
            &&& forall|c: i64, d: i64| #![trigger after[(c, d)]]
                (c, d) != (a, b) && (c, d) != (b, a) && bonds.contains_key((c, d)) ==> after[(c, d)] == bonds[(c, d)]
        }),
{
}

/// An offer stands once: after it is made there is one from that suitor to that
/// person, of that tick, and every other offer is as it was.
pub proof fn law_an_offer_stands_once(offers: Seq<Offer>, from: i64, to: i64, tick: i64, o: Offer)
    requires
        forall|i: int, j: int|
            0 <= i < j < offers.len() ==> (#[trigger] offers[i]).from != (#[trigger] offers[j]).from || offers[i].to
                != offers[j].to,
    ensures
        ({
            let after = with_offer(offers, from, to, tick);
            &&& o.from == from && o.to == to ==> (after.contains(o) <==> o.tick == tick)
            &&& !(o.from == from && o.to == to) ==> (after.contains(o) <==> offers.contains(o))
        }),
{
    let p = |o: Offer| o.from == from && o.to == to;
    lemma_first_where(offers, p);
    let i = first_where(offers, p);
    let after = with_offer(offers, from, to, tick);
    let new = Offer { from, to, tick };
    if i < offers.len() {
        assert(p(offers[i]));
        assert(after[i] == new);
        if after.contains(o) && o != new {
            let k = after.index_of(o);
            assert(offers[k] == o);
        }
        if offers.contains(o) {
            let k = offers.index_of(o);
            if k != i {
                assert(after[k] == o);
            }
        }
    } else {
        assert(after[offers.len() as int] == new);
        if after.contains(o) && o != new {
            let k = after.index_of(o);
            assert(offers[k] == o);
        }
        if offers.contains(o) {
            let k = offers.index_of(o);
            assert(after[k] == o);
            assert(!p(offers[k]));
        }
    }
}

/// Courting is an offer made, and asking is itself a small kindness: the one who is
/// asked thinks a twentieth better of the one who asks. Nothing else changes.
pub proof fn law_courting_is_an_offer(a: Affair, from: i64, to: i64, k: &KnowledgeConfig, tick: i64)
    ensures
        ({
            let after = intent_applied(a, SocialIntent::Court { from, to }, k, tick);
            &&& after.town.offers == with_offer(a.town.offers, from, to, tick)
            &&& regard(after.town.bonds, to, from) == (regard(a.town.bonds, to, from) + num(0x3D4C_CCCD)).clamp(
                num(0xBF80_0000),
                num(0x3F80_0000),
            )
            &&& from != to ==> regard(after.town.bonds, from, to) == regard(a.town.bonds, from, to)
            &&& after.town.people == a.town.people && after.town.homes == a.town.homes
            &&& after.report == a.report && after.log == a.log
        }),
{
}

/// A rejection withdraws the offers between the two, is counted and told, and costs
/// regard: three tenths with the one who says no, a tenth with the one who asked.
pub proof fn law_a_rejection_costs_regard(a: Affair, from: i64, to: i64, k: &KnowledgeConfig, tick: i64, o: Offer)
    requires
        from != to,
    ensures
        ({
            let after = intent_applied(a, SocialIntent::Reject { from, to }, k, tick);
            let (low, high) = (num(0xBF80_0000), num(0x3F80_0000));
            &&& after.town.offers.contains(o) <==> a.town.offers.contains(o) && !(o.from == from && o.to == to) && !(o.from
                == to && o.to == from)
            &&& regard(after.town.bonds, from, to) == (regard(a.town.bonds, from, to) + num(0xBE99_999A)).clamp(low, high)
            &&& regard(after.town.bonds, to, from) == (regard(a.town.bonds, to, from) + num(0xBDCC_CCCD)).clamp(low, high)
            &&& after.town.people == a.town.people && after.town.homes == a.town.homes
            &&& after.report == (TickReport { rejections: one_more(a.report.rejections), ..a.report })
            &&& after.log.len() == a.log.len() + 1
            &&& after.log.last().kind == EventKind::Rejected && after.log.last().actor_id == Some(from)
                && after.log.last().target_id == Some(to)
        }),
{
    lemma_filtered(a.town.offers, not_between(from, to), o);
}

/// Accepting pairs the two, if both are there and neither is paired: each is the
/// other's mate from that tick, they think the better of each other as mates, no
/// offer from or to either stands, and the one without a household joins the other's
/// if there is room. It is counted and told. Otherwise nothing happens.
pub proof fn law_accepting_pairs_the_two(a: Affair, x: i64, y: i64, k: &KnowledgeConfig, tick: i64, o: Offer)
    requires
        x != y,
    ensures
        ({
            let after = intent_applied(a, SocialIntent::Accept { from: x, to: y }, k, tick);
            let people = a.town.people;
            let (i, j) = (place_of(people, x), place_of(people, y));
            let free = is_here(people, x) && is_here(people, y) && people[i].mate_id is None && people[j].mate_id is None;
            &&& !free ==> after == a
            &&& free ==> {
                &&& after.town.people.len() == people.len()
                &&& after.town.people[i].mate_id == Some(y) && after.town.people[j].mate_id == Some(x)
                &&& after.town.people[i].paired_tick == Some(tick) && after.town.people[j].paired_tick == Some(tick)
                &&& forall|l: int| 0 <= l < people.len() && l != i && l != j ==> #[trigger] after.town.people[l] == people[l]
                &&& after.town.offers.contains(o) <==> a.town.offers.contains(o) && o.from != x && o.to != x && o.from != y
                    && o.to != y
                &&& after.town.bonds == bonded_both(a.town.bonds, x, y, num(0x3F19_999A), Some(RelKind::Mate), tick)
                &&& after.report == (TickReport { pairings: one_more(a.report.pairings), ..a.report })
                &&& after.log.last().kind == EventKind::Paired
                &&& people[i].household_id == people[j].household_id ==> after.town.people[i].household_id
                    == people[i].household_id && after.town.people[j].household_id == people[j].household_id
            }
        }),
{
    let people = a.town.people;
    lemma_place(people, x);
    lemma_place(people, y);
    let (i, j) = (place_of(people, x), place_of(people, y));
    if is_here(people, x) && is_here(people, y) && people[i].mate_id is None && people[j].mate_id is None {
        lemma_filtered(a.town.offers, clear_of(x), o);
        lemma_filtered(a.town.offers.filter(clear_of(x)), clear_of(y), o);
        let b = a.with(i, CreatureV { mate_id: Some(y), paired_tick: Some(tick), dirty: true, ..people[i] });
        let c = b.with(j, CreatureV { mate_id: Some(x), paired_tick: Some(tick), dirty: true, ..b.town.people[j] });
        lemma_same_places(people, c.town.people, x);
        lemma_same_places(people, c.town.people, y);
    }
}

/// Who stands where depends on nothing but who they are.
proof fn lemma_same_places(before: Seq<CreatureV>, after: Seq<CreatureV>, id: i64)
    requires
        before.len() == after.len(),
        forall|k: int| 0 <= k < before.len() ==> (#[trigger] before[k]).id == after[k].id,
    ensures
        place_of(before, id) == place_of(after, id),
{
    let p = has_id(id);
    lemma_first_where(before, p);
    let i = first_where(before, p);
    if i < before.len() {
        assert(before[i].id == after[i].id);
    }
    assert forall|k: int| 0 <= k < i implies !p(#[trigger] after[k]) by {
        assert(!p(before[k]));
    }
    lemma_first_where_is(after, p, i);
}

/// Joining a household makes one a member of it, if one is there and not a member
/// already, the household stands, and it has fewer members than it takes. Otherwise
/// nothing happens. Nobody else is moved.
pub proof fn law_joining_makes_a_member(a: Affair, creature: i64, home: i64, k: &KnowledgeConfig, tick: i64)
    ensures
        ({
            let after = intent_applied(a, SocialIntent::JoinHousehold { creature, household: home }, k, tick);
            let people = a.town.people;
            let i = place_of(people, creature);
            let h = home_at(a.town.homes, home);
            let may = is_here(people, creature) && people[i].household_id != Some(home) && h < a.town.homes.len()
                && count_where(people, lives_in(home)) < a.town.homes[h].size_cap;
            &&& !may ==> after == a
            &&& may ==> {
                &&& after.town == (TownV { people: after.town.people, ..a.town })
                &&& after.town.people == people.update(
                    i,
                    CreatureV { household_id: Some(home), dirty: true, ..people[i] },
                )
                &&& after.log.last().kind == EventKind::HouseholdJoined && after.log.last().actor_id == Some(creature)
                    && after.log.last().target_id == Some(home)
            }
        }),
{
}

/// Leaving a household leaves one without; it is told which was left.
pub proof fn law_leaving_leaves_one_without(a: Affair, creature: i64, k: &KnowledgeConfig, tick: i64)
    ensures
        ({
            let after = intent_applied(a, SocialIntent::LeaveHousehold { creature }, k, tick);
            let people = a.town.people;
            let i = place_of(people, creature);
            let member = is_here(people, creature) && people[i].household_id is Some;
            &&& !member ==> after == a
            &&& member ==> {
                &&& after.town == (TownV { people: after.town.people, ..a.town })
                &&& after.town.people == people.update(i, CreatureV { household_id: None, dirty: true, ..people[i] })
                &&& after.log.last().kind == EventKind::HouseholdLeft && after.log.last().target_id
                    == people[i].household_id
            }
        }),
{
}

/// An infant is fed, not laden: what the giver's oldest batch loses stills the
/// infant's hunger by that much times its worth, up to a hundred, and the infant's
/// own pack does not change.
pub proof fn law_an_infant_is_fed(a: Affair, from: i64, to: i64, quantity: Num, kn: &KnowledgeConfig, tick: i64, k: int)
    requires
        ({
            let people = a.town.people;
            let pack = people[place_of(people, from)].pack;
            &&& is_here(people, from) && is_here(people, to) && from != to
            &&& forall|i: int| 0 <= i < pack.len() ==> is_amount((#[trigger] pack[i]).quantity)
            &&& 0 <= k < pack.len() && pack[k].kind != ItemKind::Wood
            &&& forall|l: int|
                0 <= l < pack.len() && (#[trigger] pack[l]).kind != ItemKind::Wood ==> pack[k].harvested_tick
                    < pack[l].harvested_tick || (pack[k].harvested_tick == pack[l].harvested_tick && k <= l)
            &&& num(0).lt(quantity) && num(0).lt(pack[k].quantity)
        }),
    ensures
        ({
            let people = a.town.people;
            let after = intent_applied(a, SocialIntent::FeedInfant { from, to, quantity }, kn, tick);
            let (i, j) = (place_of(people, from), place_of(people, to));
            let batch = people[i].pack[k];
            let given = quantity.min(batch.quantity);
            let worth = num(
                if batch.kind == ItemKind::Forage {
                    0x40C0_0000
                } else if batch.kind == ItemKind::Meat {
                    0x4160_0000
                } else {
                    0x4130_0000
                },
            );
            let drained = people[i].pack.update(k, Batch { quantity: batch.quantity - given, ..batch });
            &&& forall|b: Batch| #[trigger]
                after.town.people[i].pack.contains(b) <==> drained.contains(b) && num(0x38D1_B717).lt(b.quantity)
            &&& after.town.people[j] == (CreatureV {
                hunger: (people[j].hunger + given * worth).min(num(0x42C8_0000)),
                dirty: true,
                ..people[j]
            })
            &&& after.log.last().kind == EventKind::FedInfant
        }),
{
    let people = a.town.people;
    let (i, j) = (place_of(people, from), place_of(people, to));
    lemma_place(people, from);
    lemma_place(people, to);
    let pack = people[i].pack;
    let batch = pack[k];
    law_the_oldest_food_is_picked(pack);
    let o = oldest_food_of(pack)->0;
    let k2 = choose|k2: int|
        0 <= k2 < pack.len() && #[trigger] pack[k2] == o && forall|l: int|
            0 <= l < pack.len() && (#[trigger] pack[l]).kind != ItemKind::Wood ==> o.harvested_tick
                < pack[l].harvested_tick || (o.harvested_tick == pack[l].harvested_tick && k2 <= l);
    assert(pack[k2] == o && pack[k] == batch);
    assert(k2 == k);
    law_what_is_taken_is_gone(pack, batch.kind, quantity.min(batch.quantity), k);
    let after = handed_over(a, from, to, quantity, true, tick).town.people;
    assert(after[i].pack == with_taken(pack, batch.kind, quantity.min(batch.quantity)).0);
}

/// A gift is remembered: whoever was given food thinks a fifth better of the giver,
/// the giver a twentieth better of them, and it is told as what it was. Whoever has
/// no food gives none, and nothing changes.
pub proof fn law_a_gift_is_remembered(a: Affair, from: i64, to: i64, quantity: Num, infant: bool, tick: i64)
    requires
        from != to,
    ensures
        ({
            let after = handed_over(a, from, to, quantity, infant, tick);
            let (low, high) = (num(0xBF80_0000), num(0x3F80_0000));
            let pack = a.town.people[place_of(a.town.people, from)].pack;
            &&& after.log != a.log ==> {
                &&& regard(after.town.bonds, to, from) == (regard(a.town.bonds, to, from) + num(0x3E4C_CCCD)).clamp(
                    low,
                    high,
                )
                &&& regard(after.town.bonds, from, to) == (regard(a.town.bonds, from, to) + num(0x3D4C_CCCD)).clamp(
                    low,
                    high,
                )
                &&& after.log.len() == a.log.len() + 1
                &&& after.log.last().kind == if infant {
                    EventKind::FedInfant
                } else {
                    EventKind::GaveFood
                }
                &&& after.log.last().actor_id == Some(from) && after.log.last().target_id == Some(to)
            }
            &&& after.log == a.log ==> after.town.bonds == a.town.bonds
            &&& (forall|l: int| 0 <= l < pack.len() ==> (#[trigger] pack[l]).kind == ItemKind::Wood) ==> after == a
            &&& !is_here(a.town.people, from) || !is_here(a.town.people, to) ==> after == a
            &&& after.town.homes == a.town.homes && after.town.offers == a.town.offers && after.report == a.report
        }),
{
    let people = a.town.people;
    lemma_place(people, from);
    lemma_place(people, to);
    law_the_oldest_food_is_picked(people[place_of(people, from)].pack);
    let after = handed_over(a, from, to, quantity, infant, tick);
    assert(after.log == a.log || after.log.len() == a.log.len() + 1);
}

/// Word of mouth changes what the listener believes and nothing else about anybody.
pub proof fn law_only_the_listener_learns(
    people: Seq<CreatureV>,
    from: i64,
    to: i64,
    channel: Channel,
    topic: Option<BeliefKind>,
    k: &KnowledgeConfig,
    tick: i64,
)
    ensures
        ({
            let (after, moved) = passed_on(people, from, to, channel, topic, k, tick);
            let j = place_of(people, to);
            &&& after.len() == people.len()
            &&& !is_here(people, from) || !is_here(people, to) ==> after == people && moved == 0
            &&& forall|l: int| 0 <= l < people.len() && l != j ==> #[trigger] after[l] == people[l]
            &&& 0 <= j < people.len() ==> after[j] == (CreatureV {
                beliefs: after[j].beliefs,
                dirty: after[j].dirty,
                ..people[j]
            })
            &&& 0 <= j < people.len() && moved == 0 ==> after[j].beliefs == people[j].beliefs
        }),
{
    lemma_place(people, to);
    if is_here(people, from) && is_here(people, to) {
        let (i, j) = (place_of(people, from), place_of(people, to));
        let teller = people[i];
        let picked = picks(
            teller.beliefs,
            topic,
            (teller.x, teller.y),
            tick,
            k,
            portion(channel, k) as nat,
        );
        lemma_nothing_heard(
            teller.beliefs,
            people[j].beliefs,
            i == j,
            picked,
            picked.len(),
            from,
            channel,
            k,
            tick,
        );
    }
}

proof fn lemma_nothing_heard(
    teller: Seq<Belief>,
    listener: Seq<Belief>,
    oneself: bool,
    picked: Seq<usize>,
    n: nat,
    from: i64,
    channel: Channel,
    k: &KnowledgeConfig,
    tick: i64,
)
    ensures
        heard(teller, listener, oneself, picked, n, from, channel, k, tick).1 == 0 ==> heard(
            teller,
            listener,
            oneself,
            picked,
            n,
            from,
            channel,
            k,
            tick,
        ).0 == listener,
        heard(teller, listener, oneself, picked, n, from, channel, k, tick).1 <= n,
    decreases n,
{
    if n > 0 {
        lemma_nothing_heard(teller, listener, oneself, picked, (n - 1) as nat, from, channel, k, tick);
    }
}

/// A lesson holds as many beliefs as lessons hold, a talk as many as are shared, and
/// what is overheard is one.
pub proof fn law_how_much_is_told(k: &KnowledgeConfig)
    ensures
        portion(Channel::Teach, k) == k.teach_belief_count,
        portion(Channel::Share, k) == k.share_belief_count,
        portion(Channel::Observation, k) == 1,
{
}

/// Sharing what one knows, if any of it is news, makes the listener think 0.08 better
/// of the teller, counts once more for the teller and, belief by belief, for the
/// tick, and is told and recorded; if none is, nothing of that happens.
pub proof fn law_sharing_is_a_kindness(
    a: Affair,
    from: i64,
    to: i64,
    topic: Option<BeliefKind>,
    k: &KnowledgeConfig,
    tick: i64,
)
    requires
        from != to,
    ensures
        ({
            let after = intent_applied(a, SocialIntent::Share { from, to, topic }, k, tick);
            let (people, moved) = passed_on(a.town.people, from, to, Channel::Share, topic, k, tick);
            let i = place_of(a.town.people, from);
            &&& moved == 0 ==> after.town.bonds == a.town.bonds && after.report == a.report && after.log == a.log
                && after.town.sent == a.town.sent
            &&& moved > 0 ==> {
                &&& regard(after.town.bonds, to, from) == (regard(a.town.bonds, to, from) + num(0x3DA3_D70A)).clamp(
                    num(0xBF80_0000),
                    num(0x3F80_0000),
                )
                &&& regard(after.town.bonds, from, to) == regard(a.town.bonds, from, to)
                &&& a.town.people[i].shared_count < i32::MAX ==> after.town.people[i].shared_count
                    == a.town.people[i].shared_count + 1
                &&& after.town.people[i].taught_count == a.town.people[i].taught_count
                &&& after.town.sent.len() == a.town.sent.len() + 1
                &&& after.town.sent.last().channel == Channel::Share
                &&& after.town.sent.last().from == from && after.town.sent.last().to == to
                &&& moved <= u32::MAX ==> after.report == (TickReport {
                    beliefs_shared: more_by(a.report.beliefs_shared, moved),
                    ..a.report
                })
                &&& after.log.last().kind == EventKind::Shared
            }
        }),
{
    let people = passed_on(a.town.people, from, to, Channel::Share, topic, k, tick).0;
    law_only_the_listener_learns(a.town.people, from, to, Channel::Share, topic, k, tick);
    lemma_place(a.town.people, from);
    lemma_place(a.town.people, to);
    lemma_same_places(a.town.people, people, from);
}

/// Teaching, if anything of it is news, makes the two think 0.15 better of each
/// other, counts once more for the teacher and, belief by belief, for the tick, and
/// is told and recorded.
pub proof fn law_teaching_binds_the_two(a: Affair, from: i64, to: i64, k: &KnowledgeConfig, tick: i64)
    requires
        from != to,
    ensures
        ({
            let after = intent_applied(a, SocialIntent::Teach { from, to }, k, tick);
            let (people, moved) = passed_on(a.town.people, from, to, Channel::Teach, None, k, tick);
            let i = place_of(a.town.people, from);
            &&& moved == 0 ==> after.town.bonds == a.town.bonds && after.report == a.report && after.log == a.log
                && after.town.sent == a.town.sent
            &&& moved > 0 ==> {
                &&& after.town.bonds == bonded_both(a.town.bonds, from, to, num(0x3E19_999A), None, tick)
                &&& a.town.people[i].taught_count < i32::MAX ==> after.town.people[i].taught_count
                    == a.town.people[i].taught_count + 1
                &&& after.town.people[i].shared_count == a.town.people[i].shared_count
                &&& after.town.sent.len() == a.town.sent.len() + 1
                &&& after.town.sent.last().channel == Channel::Teach
                &&& moved <= u32::MAX ==> after.report == (TickReport {
                    beliefs_taught: more_by(a.report.beliefs_taught, moved),
                    ..a.report
                })
                &&& after.log.last().kind == EventKind::Taught
            }
        }),
{
    let people = passed_on(a.town.people, from, to, Channel::Teach, None, k, tick).0;
    law_only_the_listener_learns(a.town.people, from, to, Channel::Teach, None, k, tick);
    lemma_place(a.town.people, from);
    lemma_place(a.town.people, to);
    lemma_same_places(a.town.people, people, from);
}

/// An offer left standing longer than it may lapses, and the suitor cools by a
/// twentieth towards the one who let it; offers still open stand.
pub proof fn law_an_ignored_suitor_cools(town: TownV, ttl: u32, tick: i64, o: Offer)
    ensures
        cooled(town, ttl, tick).offers.contains(o) <==> town.offers.contains(o) && tick - o.tick <= ttl,
        cooled(town, ttl, tick).people == town.people,
        cooled(town, ttl, tick).homes == town.homes,
        town.offers.len() == 1 && town.offers[0] == o && tick - o.tick > ttl ==> regard(
            cooled(town, ttl, tick).bonds,
            o.from,
            o.to,
        ) == (regard(town.bonds, o.from, o.to) + num(0xBD4C_CCCD)).clamp(num(0xBF80_0000), num(0x3F80_0000)),
{
    let lapsed = town.offers.filter(lapsed_by(tick, ttl));
    lemma_filtered(town.offers, open_at(tick, ttl), o);
    if town.offers.len() == 1 && town.offers[0] == o && tick - o.tick > ttl {
        reveal(Seq::filter);
        assert(town.offers.drop_last().len() == 0);
        assert(town.offers.drop_last().filter(lapsed_by(tick, ttl)).len() == 0);
        assert(town.offers.last() == o);
        assert(lapsed =~= seq![o]);
        reveal_with_fuel(let_down, 2);
    }
}

/// Nothing is overheard where people do not share what they know.
pub proof fn law_closed_mouths_teach_nobody(
    a: Affair,
    crowd: CrowdV,
    cfg: &WorldConfig,
    tick: i64,
    rng: Stream,
)
    requires
        !cfg.features.knowledge_sharing || cfg.knowledge.ambient_share_chance.le(num(0)),
    ensures
        ambient(a, crowd, cfg, tick, rng) == (a, rng),
{
}

/// Every obstacle to a child is named for what it is.
pub proof fn law_each_obstacle_is_real(
    mother: CreatureV,
    father: CreatureV,
    household: Option<HouseholdV>,
    cfg: &WorldConfig,
    tick: i64,
)
    ensures
        ({
            let floor = cfg.reproduction.health_floor;
            match blocker_of(mother, father, household, cfg, tick) {
                Some(Blocker::NotPaired) => mother.sex != Sex::Female || father.sex != Sex::Male || mother.mate_id != Some(
                    father.id,
                ) || father.mate_id != Some(mother.id),
                Some(Blocker::AlreadyExpecting) => mother.pregnancy is Some,
                Some(Blocker::NotAdult) => mother.life_stage != LifeStage::Adult || father.life_stage != LifeStage::Adult,
                Some(Blocker::Unwell) => mother.health.lt(floor) || father.health.lt(floor),
                Some(Blocker::TooSoon) => mother.last_birth_tick matches Some(last) && tick - last
                    < cfg.reproduction.birth_spacing_ticks,
                Some(Blocker::NoHousehold) => household is None || (household->0).shelter_id is None,
                Some(Blocker::StoreShort) => household is Some && food_of((household->0).store).lt(
                    cfg.reproduction.store_reserve,
                ),
                None => mother.sex == Sex::Female && father.sex == Sex::Male && mother.mate_id == Some(father.id)
                    && father.mate_id == Some(mother.id) && mother.pregnancy is None && household is Some,
            }
        }),
{
}

/// A couple that nothing stands in the way of conceives: the mother expects the
/// father's child, due when its time is up, and it is counted and told. Where
/// something does, that is counted, under its own name, and nothing else happens.
pub proof fn law_conceiving_takes_its_time(a: Affair, p: (usize, usize, i64), cfg: &WorldConfig, tick: i64)
    requires
        p.0 < a.town.people.len(),
        p.1 < a.town.people.len(),
        i64::MIN <= tick + cfg.reproduction.gestation_ticks <= i64::MAX,
    ensures
        ({
            let after = tried(a, p, cfg, tick);
            let (m, f) = (a.town.people[p.0 as int], a.town.people[p.1 as int]);
            let home = home_named(a.town.homes, p.2);
            match blocker_of(m, f, home, cfg, tick) {
                None => {
                    let c = after.town.people[p.0 as int];
                    &&& c.pregnancy matches Some(x) && x.father_id == f.id && x.due_tick == tick
                        + cfg.reproduction.gestation_ticks
                    &&& c == (CreatureV { pregnancy: c.pregnancy, dirty: true, ..m })
                    &&& after.town.people == a.town.people.update(p.0 as int, c)
                    &&& after.report == (TickReport { conceptions: one_more(a.report.conceptions), ..a.report })
                    &&& after.log.last().kind == EventKind::Conceived
                },
                Some(b) => {
                    &&& after.town == a.town && after.log == a.log
                    &&& after.report == (TickReport { conception_blocked: after.report.conception_blocked, ..a.report })
                    &&& forall|c: Blocker|
                        #![trigger after.report.conception_blocked.at(c.slot() as int)]
                        after.report.conception_blocked.at(c.slot() as int) == if c == b {
                            one_more(a.report.conception_blocked.at(c.slot() as int))
                        } else {
                            a.report.conception_blocked.at(c.slot() as int)
                        }
                },
            }
        }),
{
}

/// Only a woman with a mate who is there, a household and no child on the way is
/// asked about, and always together with that mate.
pub proof fn law_who_may_conceive(people: Seq<CreatureV>, i: int)
    requires
        0 <= i < people.len() <= usize::MAX,
    ensures
        ({
            let c = people[i];
            match prospect(people, i) {
                Some(p) => p.0 == i && c.sex == Sex::Female && c.pregnancy is None && c.household_id == Some(p.2) && (
                c.mate_id matches Some(mate) && p.1 < people.len() && people[p.1 as int].id == mate),
                None => c.sex != Sex::Female || c.pregnancy is Some || c.household_id is None || c.mate_id is None
                    || !is_here(people, c.mate_id->0),
            }
        }),
{
    if let Some(mate) = people[i].mate_id {
        lemma_place(people, mate);
    }
}

/// A child is due when its time has come, and not before.
pub proof fn law_a_child_comes_when_due(c: CreatureV, tick: i64, later: i64)
    requires
        tick <= later,
    ensures
        is_due(c, tick) <==> (c.pregnancy matches Some(p) && p.due_tick <= tick),
        is_due(c, tick) ==> is_due(c, later),
{
}

/// A birth ends the pregnancy, in that tick, and costs the mother's household what
/// births cost, taken from grain, or else meat, or else forage. The one born has the
/// mother's place, household and next generation, and both parents' temper to go by.
pub proof fn law_labour_ends_a_pregnancy(k: Cradle, i: int, cfg: &WorldConfig, tick: i64)
    requires
        0 <= i < k.town.people.len() <= usize::MAX,
    ensures
        ({
            let (after, labour) = laboured(k, i, cfg, tick);
            let m = k.town.people[i];
            &&& m.pregnancy is None ==> after == k && labour is None
            &&& m.pregnancy is Some ==> {
                let l = labour->0;
                let father = (m.pregnancy->0).father_id;
                &&& labour is Some
                &&& after.town.people == k.town.people.update(
                    i,
                    CreatureV { pregnancy: None, last_birth_tick: Some(tick), dirty: true, ..m },
                )
                &&& after.town.homes == fed_from(k.town.homes, m.household_id, cfg.reproduction.birth_store_cost)
                &&& l.place == i && l.mother_id == m.id && l.father_id == father
                &&& l.x == m.x && l.y == m.y && l.household == m.household_id && l.generation == m.generation
                &&& l.mother == m.traits
                &&& forall|j: int|
                    0 <= j < k.town.people.len() && j != i && place_of(k.town.people, father) == j ==> l.father == (
                    #[trigger] k.town.people[j]).traits
            }
        }),
{
    if let Some(p) = k.town.people[i].pregnancy {
        let a = k.town.people.update(
            i,
            CreatureV { pregnancy: None, last_birth_tick: Some(tick), dirty: true, ..k.town.people[i] },
        );
        lemma_same_places(k.town.people, a, p.father_id);
    }
}

/// A household's store is drawn on for grain first; only where there is none for
/// meat; and only where there is neither for forage.
pub proof fn law_grain_is_drawn_on_first(store: Seq<Batch>, want: Num)
    ensures
        ({
            let (grain, meat) = (with_taken(store, ItemKind::Grain, want), with_taken(
                with_taken(store, ItemKind::Grain, want).0,
                ItemKind::Meat,
                want,
            ));
            &&& num(0).lt(grain.1) ==> drawn_on(store, want) == grain.0
            &&& !num(0).lt(grain.1) && num(0).lt(meat.1) ==> drawn_on(store, want) == meat.0
            &&& !num(0).lt(grain.1) && !num(0).lt(meat.1) ==> drawn_on(store, want) == with_taken(
                meat.0,
                ItemKind::Forage,
                want,
            ).0
        }),
{
}

/// A child is its parents': it is born where its mother is, into her household and
/// the generation after hers, of her and the father, in her care, knowing nothing,
/// with each trait drawn from the same trait of both. Both are kin to it and it to
/// them. The birth is counted, for the mother and for the tick.
pub proof fn law_a_child_is_its_parents(k: Cradle, p: Place, l: Labour, z: Deviates)
    requires
        l.place < k.town.people.len(),
        l.mother_id != l.father_id,
        l.mother_id != k.next_id,
        l.father_id != k.next_id,
    ensures
        ({
            let after = delivered(k, p, l, z);
            let child = after.town.people.last();
            let sigma = p.cfg.reproduction.mutation_sigma;
            let m = after.town.people[l.place as int];
            &&& child.id == k.next_id
            &&& child.mother_id == Some(l.mother_id) && child.father_id == Some(l.father_id)
            &&& child.guardian_id == Some(l.mother_id)
            &&& child.household_id == l.household
            &&& child.x == l.x && child.y == l.y
            &&& l.generation < i32::MAX ==> child.generation == l.generation + 1
            &&& child.birth_tick == p.tick
            &&& child.traits.boldness == inherited(l.mother.boldness, l.father.boldness, sigma, z.boldness)
            &&& child.traits.industry == inherited(l.mother.industry, l.father.industry, sigma, z.industry)
            &&& child.traits.sociability == inherited(l.mother.sociability, l.father.sociability, sigma, z.sociability)
            &&& child.traits.caution == inherited(l.mother.caution, l.father.caution, sigma, z.caution)
            &&& k.town.people[l.place as int].children_born < i32::MAX ==> m.children_born
                == k.town.people[l.place as int].children_born + 1
            &&& after.report == (TickReport { births: one_more(k.report.births), ..k.report })
            &&& after.town.bonds[(l.mother_id, child.id)].kind == Some(RelKind::Kin)
            &&& after.town.bonds[(child.id, l.mother_id)].kind == Some(RelKind::Kin)
            &&& after.town.bonds[(l.father_id, child.id)].kind == Some(RelKind::Kin)
            &&& after.town.bonds[(child.id, l.father_id)].kind == Some(RelKind::Kin)
            &&& regard(after.town.bonds, child.id, l.mother_id) == (regard(k.town.bonds, child.id, l.mother_id) + num(
                0x3F4C_CCCD,
            )).clamp(num(0xBF80_0000), num(0x3F80_0000))
            &&& regard(after.town.bonds, child.id, l.father_id) == (regard(k.town.bonds, child.id, l.father_id) + num(
                0x3F33_3333,
            )).clamp(num(0xBF80_0000), num(0x3F80_0000))
        }),
{
}

/// A mother may die of it: exactly if the draw falls below the risk of childbirth,
/// her health is gone and it is remembered as childbirth of that tick; otherwise it
/// costs her nothing.
pub proof fn law_childbirth_is_a_risk(k: Cradle, p: Place, l: Labour, z: Deviates)
    requires
        l.place < k.town.people.len(),
    ensures
        ({
            let m = k.town.people[l.place as int];
            let n = delivered(k, p, l, z).town.people[l.place as int];
            let drawn = cradled(k, p, l, z).rng.unit_here();
            &&& drawn.lt(p.cfg.reproduction.childbirth_mortality) ==> n.health == num(0) && n.trauma == Some(
                (DeathCause::Childbirth, p.tick),
            )
            &&& !drawn.lt(p.cfg.reproduction.childbirth_mortality) ==> n.health == m.health && n.trauma == m.trauma
        }),
{
}

/// Mother and father count the same: which is which makes no difference to a trait.
pub proof fn law_both_parents_count_the_same(a: Num, b: Num, sigma: Num, z: Num)
    requires
        a.finite(),
        b.finite(),
    ensures
        inherited(a, b, sigma, z) == inherited(b, a, sigma, z),
{
    reveal(sum_of);
}

/// Nobody stays bound to the dead: a mate is widowed, and only a mate; whoever was in
/// their care is taken in by the grown member of their own household of least number,
/// if there is one, and by nobody otherwise.
pub proof fn law_a_ward_is_taken_in(a: Affair, i: int, id: i64, tick: i64)
    requires
        0 <= i < a.town.people.len(),
    ensures
        ({
            let c = a.town.people[i];
            let d = survived(a, i, id, tick).town.people[i];
            &&& c.mate_id == Some(id) ==> d.mate_id is None
            &&& c.mate_id != Some(id) ==> d.mate_id == c.mate_id
            &&& c.guardian_id != Some(id) ==> d.guardian_id == c.guardian_id
            &&& c.guardian_id == Some(id) ==> {
                let fit = |p: CreatureV|
                    p.household_id == c.household_id && p.life_stage != LifeStage::Infant && p.id != c.id;
                &&& c.household_id is None ==> d.guardian_id is None
                &&& d.guardian_id matches Some(g) ==> exists|k: int|
                    0 <= k < a.town.people.len() && fit(#[trigger] a.town.people[k]) && a.town.people[k].id == g
                &&& c.household_id is Some ==> forall|k: int|
                    0 <= k < a.town.people.len() && fit(#[trigger] a.town.people[k]) ==> (d.guardian_id matches Some(g)
                        && g <= a.town.people[k].id)
            }
            &&& d == (CreatureV { mate_id: d.mate_id, guardian_id: d.guardian_id, dirty: d.dirty, ..c })
            &&& forall|k: int| 0 <= k < a.town.people.len() && k != i ==> #[trigger] survived(a, i, id, tick).town.people[k]
                == a.town.people[k]
        }),
{
    let c = a.town.people[i];
    let people = a.town.people.update(i, widowed(c, id));
    if let Some(home) = c.household_id {
        lemma_tender(people, people.len(), home, c.id);
        let fit = |p: CreatureV| p.household_id == c.household_id && p.life_stage != LifeStage::Infant && p.id != c.id;
        assert forall|k: int| 0 <= k < people.len() implies can_tend(people[k], home, c.id) == fit(
            #[trigger] a.town.people[k],
        ) && people[k].id == a.town.people[k].id by {
        }
        let d = survived(a, i, id, tick).town.people[i];
        if c.guardian_id == Some(id) {
            assert(d.guardian_id == tender_in(people, people.len(), home, c.id));
            if let Some(g) = d.guardian_id {
                let k = choose|k: int|
                    0 <= k < people.len() && can_tend(#[trigger] people[k], home, c.id) && people[k].id == g;
                assert(fit(a.town.people[k]) && a.town.people[k].id == g);
            }
            assert forall|k: int| 0 <= k < people.len() && fit(#[trigger] a.town.people[k]) implies (
            d.guardian_id matches Some(g) && g <= a.town.people[k].id) by {
                assert(can_tend(people[k], home, c.id));
            }
        }
    }
}

proof fn lemma_tender(people: Seq<CreatureV>, n: nat, home: i64, ward: i64)
    requires
        n <= people.len(),
    ensures
        match tender_in(people, n, home, ward) {
            Some(g) => {
                &&& exists|k: int| 0 <= k < n && can_tend(#[trigger] people[k], home, ward) && people[k].id == g
                &&& forall|k: int| 0 <= k < n && can_tend(#[trigger] people[k], home, ward) ==> g <= people[k].id
            },
            None => forall|k: int| 0 <= k < n ==> !can_tend(#[trigger] people[k], home, ward),
        },
    decreases n,
{
    if n > 0 {
        lemma_tender(people, (n - 1) as nat, home, ward);
        assert(people[n - 1].id == people[n - 1].id);
    }
}

/// Newcomers are well: in full health, unworn, unladen, unplanned, of the age they
/// were given, and with no need below seventy.
pub proof fn law_newcomers_are_well(b: Brood, p: Place, x: u32, y: u32, sex: Sex, age: i64, generation: i32)
    ensures
        ({
            let c = spawned(b, p, x, y, sex, age, generation).people.last();
            &&& c.health == num(0x42C8_0000)
            &&& c.wear == num(0) && c.pack.len() == 0 && c.plan is None && c.trauma is None && c.pregnancy is None
            &&& num(0x428C_0000).le(c.hunger) && num(0x428C_0000).le(c.thirst) && num(0x428C_0000).le(c.fatigue) && num(
                0x428C_0000,
            ).le(c.warmth)
            &&& c.exposed_ticks == 0 && c.in_shelter is None && c.children_born == 0
        }),
{
    let s = after_name(b.rng).stepped();
    lemma_need_at(s);
    lemma_need_at(s.stepped());
    lemma_need_at(s.stepped().stepped());
    lemma_need_at(s.stepped().stepped().stepped());
}

proof fn lemma_need_at(s: Stream)
    ensures
        num(0x428C_0000).le(need_at(s)),
{
    law_draws_are_below_one(chacha_word(s.seed, s.pos));
    law_no_product_is_negative(s.unit_here(), num(NEED_SPAN));
    law_adding_leaves_no_less(num(LEAST_NEED), s.unit_here() * num(NEED_SPAN));
}

/// Like parents have like children: where both have as much of a trait, and chance
/// adds nothing, so has the child. A draw that adds a whole or more fills it, one that
/// takes as much as there can be empties it.
pub proof fn law_like_parents_have_like_children(a: Num, b: Num, sigma: Num, z: Num)
    requires
        !a.negative() && a.le(num(0x3F80_0000)) && a.mag() > 0,
        !b.negative() && b.le(num(0x3F80_0000)),
        z.finite(),
    ensures
        inherited(a, a, num(0), z) == a,
        num(0x3F80_0000).le(z * sigma) ==> inherited(a, b, sigma, z) == num(0x3F80_0000),
{
    law_a_mean_of_two_alike(a);
    lemma_nothing_times(z, num(0));
    law_nothing_changes_nothing(a, z * num(0));
    if num(0x3F80_0000).le(z * sigma) {
        lemma_parts_of_one(a, b);
        let two = num(0x4000_0000);
        law_quotients_keep_their_order(a + b, a + b, two, two);
        lemma_half_finite(a, b);
        let mean = (a + b) / two;
        law_adding_more_makes_no_less(mean, num(0x3F80_0000), z * sigma);
        law_adding_leaves_no_less(num(0x3F80_0000), mean);
        lemma_sum_either_way(mean, num(0x3F80_0000));
    }
}

proof fn lemma_half_finite(a: Num, b: Num)
    requires
        !a.negative() && a.le(num(0x3F80_0000)),
        !b.negative() && b.le(num(0x3F80_0000)),
    ensures
        ((a + b) / num(0x4000_0000)).finite(),
{
    let (one, two) = (num(0x3F80_0000), num(0x4000_0000));
    lemma_parts_of_one(a, b);
    law_adding_more_makes_no_less(a, b, one);
    lemma_sum_either_way(a, one);
    law_adding_more_makes_no_less(one, a, one);
    law_one_and_one(one);
    law_quotients_keep_their_order(a + b, two, two, two);
    law_one_and_one(two);
}

proof fn lemma_sum_either_way(a: Num, b: Num)
    requires
        a.finite(),
        b.finite(),
    ensures
        a + b == b + a,
{
    reveal(sum_of);
}

/// Only somebody near is overheard: whoever is heard is in company with whoever
/// hears, and each hears one at most.
pub proof fn law_only_the_near_are_overheard(
    people: Seq<CreatureV>,
    n: nat,
    crowd: CrowdV,
    chance: Num,
    radius: u32,
    rng: Stream,
)
    ensures
        overhearing(people, 0, crowd, chance, radius, rng) == (Seq::<(i64, i64)>::empty(), rng),
        n < people.len() ==> {
            let (before, s) = overhearing(people, n, crowd, chance, radius, rng);
            let after = overhearing(people, n + 1, crowd, chance, radius, rng).0;
            let c = people[n as int];
            let around = company(crowd, c.x, c.y, radius, c.id);
            let mute = chance.le(s.unit_here()) || around.len() == 0;
            &&& mute ==> after == before
            &&& !mute ==> after.len() == before.len() + 1 && after.drop_last() == before && after.last().1 == c.id
                && after.last().0 == around[s.stepped().index_here(around.len()) as int].id
        },
{
    if n < people.len() {
        let (before, s) = overhearing(people, n, crowd, chance, radius, rng);
        let after = overhearing(people, n + 1, crowd, chance, radius, rng).0;
        let c = people[n as int];
        let around = company(crowd, c.x, c.y, radius, c.id);
        if !(chance.le(s.unit_here()) || around.len() == 0) {
            assert(after.drop_last() =~= before);
        }
    }
}

/// Founders and the first of a people come at the age they are drawn: the founders
/// grown, all of the first generation, each of the sex they were placed as.
pub proof fn law_founders_come_grown(b: Brood, p: Place, founders: Seq<Founder>, n: nat)
    requires
        n < founders.len(),
        180 <= settled_by(b, p, founders, n).rng.range_here(180, 319) <= 319,
        i64::MIN + 319 <= p.tick,
    ensures
        ({
            let (before, after) = (settled_by(b, p, founders, n), settled_by(b, p, founders, n + 1));
            let c = after.people.last();
            let f = founders[n as int];
            &&& after.people == before.people.push(c)
            &&& c.x == f.x && c.y == f.y && c.generation == 1
            &&& c.sex == if f.female {
                Sex::Female
            } else {
                Sex::Male
            }
            &&& 180 <= p.tick - c.birth_tick <= 319
        }),
{
}

/// People are scattered on dry ground about the hearth, and where none is found they
/// stand at the hearth itself.
pub proof fn law_people_are_put_on_dry_ground(g: Ground, hx: u32, hy: u32, radius: int, tried: nat, rng: Stream)
    ensures
        ({
            let at = scattered_near(g, hx, hy, radius, tried, rng).0;
            at == (hx, hy) || (tile_at(g.width, g.height, g.tiles, at.0 as int, at.1 as int) matches Some(t) && t
                != Terrain::DeepWater && t != Terrain::ShallowWater)
        }),
    decreases SCATTER_TRIES - tried,
{
    if tried < SCATTER_TRIES {
        let s = rng.ranged(-radius, radius);
        law_people_are_put_on_dry_ground(g, hx, hy, radius, tried + 1, s.ranged(-radius, radius));
    }
}

} // verus!
