//! Everything that takes two creatures to settle: courtship, food given, word
//! passed on, homes shared.
//!
//! Acts are recorded while acting and applied here, where there is access to
//! everybody, so nothing is ever taken from a giver whose recipient has since
//! died.

use crate::config::KnowledgeConfig;
use crate::creature::{
    is_amount, law_the_oldest_food_is_picked, law_what_is_added_is_held, law_what_is_taken_is_gone, oldest_food_of,
    people_of, with_added, with_taken, Batch, Creature, CreatureV, ItemKind,
};
use crate::event::{event_of, log_of, Event, EventKind, EventV};
use crate::knowledge::{
    lemma_upsert_keeps_count, picks, select_for_sharing, transmit, transmit_spec, upsert, with_upsert, Belief,
    BeliefKind, Channel,
};
use crate::lists::{count_where, first_where, lemma_first_where, lemma_first_where_is};
use crate::needs::lemma_people_update;
use crate::num::{num, Num, FULL, NOTHING};
use crate::perception::{belief_capacity, capacity_of};
use crate::records::{count_by, count_one, more_by, one_more, TickReport, TransmissionRecord};
use crate::social::{
    bonded, bonded_both, clear_of, home_at, homes_of, lemma_home_at, not_between, with_offer, Courtships, Edge,
    HouseholdV, Households, Offer, RelKind, Relationships, SocialIntent,
};
use vstd::prelude::*;

verus! {

/// 0.05: asking is itself a small social act, and so is giving.
pub const SLIGHT: u32 = 0x3D4C_CCCD;

/// -0.3
pub const TURNED_DOWN: u32 = 0xBE99_999A;

/// -0.1
pub const TURNED_AWAY: u32 = 0xBDCC_CCCD;

/// 0.08: being told something one needed is a kindness.
pub const TOLD: u32 = 0x3DA3_D70A;

/// 0.15
pub const TAUGHT: u32 = 0x3E19_999A;

/// 0.6
pub const PAIRED: u32 = 0x3F19_999A;

/// 0.2
pub const FED: u32 = 0x3E4C_CCCD;

/// 0.02
pub const TOO_FAINT: u32 = 0x3CA3_D70A;

/// The people and what binds them.
pub struct Town {
    pub creatures: Vec<Creature>,
    pub households: Households,
    pub relationships: Relationships,
    pub courtships: Courtships,
    pub transmissions: Vec<TransmissionRecord>,
}

/// A town with everything in it as sequences and maps.
#[verifier::ext_equal]
pub struct TownV {
    pub people: Seq<CreatureV>,
    pub homes: Seq<HouseholdV>,
    pub next_home: i64,
    pub bonds: Map<(i64, i64), Edge>,
    pub offers: Seq<Offer>,
    pub sent: Seq<TransmissionRecord>,
}

impl View for Town {
    type V = TownV;

    open spec fn view(&self) -> TownV {
        TownV {
            people: people_of(self.creatures@),
            homes: homes_of(self.households.items@),
            next_home: self.households.next_id,
            bonds: self.relationships@,
            offers: self.courtships.offers@,
            sent: self.transmissions@,
        }
    }
}

impl Town {
    pub open spec fn wf(&self) -> bool {
        self.relationships.wf() && self.creatures@.len() <= u32::MAX
    }
}

/// A town, what has been said of it, and the report so far.
#[verifier::ext_equal]
pub struct Affair {
    pub town: TownV,
    pub log: Seq<EventV>,
    pub report: TickReport,
}

impl Affair {
    pub open spec fn noted(self, e: EventV) -> Affair {
        Affair { log: self.log.push(e), ..self }
    }

    /// One direction of a relationship nudged.
    pub open spec fn nudged(self, from: i64, to: i64, by: u32, tick: i64) -> Affair {
        Affair { town: TownV { bonds: bonded(self.town.bonds, from, to, num(by), None, tick), ..self.town }, ..self }
    }

    /// One creature changed.
    pub open spec fn with(self, i: int, c: CreatureV) -> Affair {
        Affair { town: TownV { people: self.town.people.update(i, c), ..self.town }, ..self }
    }
}

pub open spec fn affair_of(town: &Town, events: &Vec<Event>, report: &TickReport) -> Affair {
    Affair { town: town@, log: log_of(events@), report: *report }
}

pub open spec fn has_id(id: i64) -> spec_fn(CreatureV) -> bool {
    |c: CreatureV| c.id == id
}

/// The place of the creature with an id, or the length.
pub open spec fn place_of(people: Seq<CreatureV>, id: i64) -> int {
    first_where(people, has_id(id))
}

pub open spec fn is_here(people: Seq<CreatureV>, id: i64) -> bool {
    place_of(people, id) < people.len()
}

pub proof fn lemma_place(people: Seq<CreatureV>, id: i64)
    ensures
        0 <= place_of(people, id) <= people.len(),
        is_here(people, id) ==> people[place_of(people, id)].id == id,
{
    lemma_first_where(people, has_id(id));
}

/// Where a creature stands in the list.
pub fn index_of(creatures: &Vec<Creature>, id: i64) -> (r: Option<usize>)
    ensures
        match r {
            Some(i) => i == place_of(people_of(creatures@), id) && i < creatures@.len() && creatures@[i as int].id
                == id,
            None => !is_here(people_of(creatures@), id),
        },
{
    let ghost people = people_of(creatures@);
    let ghost p = has_id(id);
    for i in 0..creatures.len()
        invariant
            people == people_of(creatures@),
            p == has_id(id),
            forall|j: int| 0 <= j < i ==> !p(#[trigger] people[j]),
    {
        if creatures[i].id == id {
            proof {
                assert(p(people[i as int]));
                lemma_first_where_is(people, p, i as int);
            }
            return Some(i);
        }
        assert(people[i as int] == creatures@[i as int]@);
    }
    proof {
        lemma_first_where_is(people, p, people.len() as int);
    }
    None
}

pub fn say(events: &mut Vec<Event>, e: Event)
    ensures
        log_of(final(events)@) == log_of(old(events)@).push(e@),
{
    events.push(e);
    assert(log_of(events@) == log_of(old(events)@).push(e@));
}

pub open spec fn lives_in(home: i64) -> spec_fn(CreatureV) -> bool {
    |c: CreatureV| c.household_id == Some(home)
}

/// How many live somewhere.
pub fn household_size(creatures: &Vec<Creature>, id: i64) -> (n: u32)
    requires
        creatures@.len() <= u32::MAX,
    ensures
        n == count_where(people_of(creatures@), lives_in(id)),
{
    let ghost people = people_of(creatures@);
    let ghost p = lives_in(id);
    let mut n: u32 = 0;
    for i in 0..creatures.len()
        invariant
            creatures@.len() <= u32::MAX,
            people == people_of(creatures@),
            p == lives_in(id),
            n == count_where(people.take(i as int), p),
            n <= i,
    {
        proof {
            assert(people.take(i + 1).drop_last() == people.take(i as int));
            assert(people.take(i + 1).last() == creatures@[i as int]@);
        }
        let lives = match creatures[i].household_id {
            Some(h) => h == id,
            None => false,
        };
        if lives {
            n = n + 1;
        }
    }
    assert(people.take(people.len() as int) == people);
    n
}

/// Moving into a home with room, if it is not home already.
pub open spec fn joined(a: Affair, creature: i64, home: i64, tick: i64) -> Affair {
    let i = place_of(a.town.people, creature);
    let h = home_at(a.town.homes, home);
    if !is_here(a.town.people, creature) || a.town.people[i].household_id == Some(home) || h >= a.town.homes.len()
        || count_where(a.town.people, lives_in(home)) >= a.town.homes[h].size_cap {
        a
    } else {
        a.with(i, CreatureV { household_id: Some(home), dirty: true, ..a.town.people[i] }).noted(
            event_of(tick, EventKind::HouseholdJoined, creature).target(home),
        )
    }
}

fn join_household(
    town: &mut Town,
    events: &mut Vec<Event>,
    report: &mut TickReport,
    creature: i64,
    home: i64,
    tick: i64,
)
    requires
        old(town).wf(),
    ensures
        affair_of(final(town), final(events), final(report)) == joined(
            affair_of(old(town), old(events), old(report)),
            creature,
            home,
            tick,
        ),
        final(town).wf(),
        final(town).creatures@.len() == old(town).creatures@.len(),
{
    let Some(i) = index_of(&town.creatures, creature) else {
        return ;
    };
    let already = match town.creatures[i].household_id {
        Some(h) => h == home,
        None => false,
    };
    if already {
        return ;
    }
    let members = household_size(&town.creatures, home);
    proof {
        lemma_home_at(town.households.items@, home);
    }
    let room = match town.households.get(home) {
        Some(h) => members < h.size_cap,
        None => false,
    };
    if !room {
        return ;
    }
    let ghost before = town.creatures@;
    let c = &mut town.creatures[i];
    c.household_id = Some(home);
    c.dirty = true;
    proof {
        lemma_people_update(before, i as int, town.creatures@[i as int]);
        assert(town.creatures@ == before.update(i as int, town.creatures@[i as int]));
    }
    say(events, Event::new(tick, EventKind::HouseholdJoined, creature).target(home));
}

/// Two creatures accept each other, unless somebody was quicker. A couple shares
/// one home: if only one of them has one, the other joins it.
pub open spec fn wed(a: Affair, x: i64, y: i64, tick: i64) -> Affair {
    let people = a.town.people;
    let (i, j) = (place_of(people, x), place_of(people, y));
    if !is_here(people, x) || !is_here(people, y) || people[i].mate_id is Some || people[j].mate_id is Some {
        a
    } else {
        let b = a.with(i, CreatureV { mate_id: Some(y), paired_tick: Some(tick), dirty: true, ..people[i] });
        let c = b.with(j, CreatureV { mate_id: Some(x), paired_tick: Some(tick), dirty: true, ..b.town.people[j] });
        let d = Affair {
            town: TownV {
                offers: c.town.offers.filter(clear_of(x)).filter(clear_of(y)),
                bonds: bonded_both(c.town.bonds, x, y, num(PAIRED), Some(RelKind::Mate), tick),
                ..c.town
            },
            ..c
        };
        let e = match (d.town.people[i].household_id, d.town.people[j].household_id) {
            (Some(h), None) => joined(d, y, h, tick),
            (None, Some(h)) => joined(d, x, h, tick),
            _ => d,
        };
        Affair { report: TickReport { pairings: one_more(e.report.pairings), ..e.report }, ..e }.noted(
            event_of(tick, EventKind::Paired, x).at(e.town.people[i].x, e.town.people[i].y).target(y),
        )
    }
}

fn pair_up(town: &mut Town, events: &mut Vec<Event>, report: &mut TickReport, x: i64, y: i64, tick: i64)
    requires
        old(town).wf(),
    ensures
        affair_of(final(town), final(events), final(report)) == wed(
            affair_of(old(town), old(events), old(report)),
            x,
            y,
            tick,
        ),
        final(town).wf(),
{
    let Some(i) = index_of(&town.creatures, x) else {
        return ;
    };
    let Some(j) = index_of(&town.creatures, y) else {
        return ;
    };
    if town.creatures[i].mate_id.is_some() || town.creatures[j].mate_id.is_some() {
        return ;
    }
    let ghost before = town.creatures@;
    {
        let c = &mut town.creatures[i];
        c.mate_id = Some(y);
        c.paired_tick = Some(tick);
        c.dirty = true;
    }
    proof {
        lemma_people_update(before, i as int, town.creatures@[i as int]);
        assert(town.creatures@ == before.update(i as int, town.creatures@[i as int]));
    }
    let ghost middle = town.creatures@;
    {
        let c = &mut town.creatures[j];
        c.mate_id = Some(x);
        c.paired_tick = Some(tick);
        c.dirty = true;
    }
    proof {
        lemma_people_update(middle, j as int, town.creatures@[j as int]);
        assert(town.creatures@ == middle.update(j as int, town.creatures@[j as int]));
    }
    town.courtships.remove_all_for(x);
    town.courtships.remove_all_for(y);
    town.relationships.adjust_both(x, y, num(PAIRED), Some(RelKind::Mate), tick);
    let hx = town.creatures[i].household_id;
    let hy = town.creatures[j].household_id;
    match (hx, hy) {
        (Some(h), None) => join_household(town, events, report, y, h, tick),
        (None, Some(h)) => join_household(town, events, report, x, h, tick),
        _ => {},
    }
    report.pairings = count_one(report.pairings);
    let (px, py) = (town.creatures[i].x, town.creatures[i].y);
    say(events, Event::new(tick, EventKind::Paired, x).at(px, py).target(y));
}

/// Food changing hands, from the giver's oldest batch, so what changes hands is
/// what was about to spoil. An infant cannot carry a pack around; it is fed
/// directly.
pub open spec fn handed_over(a: Affair, from: i64, to: i64, quantity: Num, to_infant: bool, tick: i64) -> Affair {
    let people = a.town.people;
    let (i, j) = (place_of(people, from), place_of(people, to));
    match oldest_food_of(people[i].pack) {
        Some(oldest) if is_here(people, from) && is_here(people, to) => {
            let (pack, got) = with_taken(people[i].pack, oldest.kind, quantity.min(oldest.quantity));
            let b = a.with(i, CreatureV { pack, ..people[i] });
            if got.le(num(NOTHING)) {
                b
            } else {
                let c = b.with(i, CreatureV { dirty: true, ..b.town.people[i] });
                let r = c.town.people[j];
                let d = if to_infant {
                    c.with(
                        j,
                        CreatureV {
                            hunger: (r.hunger + got * oldest.kind.nutrition()).min(num(FULL)),
                            dirty: true,
                            ..r
                        },
                    )
                } else {
                    c.with(
                        j,
                        CreatureV {
                            pack: with_added(r.pack, oldest.kind, got, oldest.harvested_tick),
                            dirty: true,
                            ..r
                        },
                    )
                };
                let kind = if to_infant {
                    EventKind::FedInfant
                } else {
                    EventKind::GaveFood
                };
                d.nudged(to, from, FED, tick).nudged(from, to, SLIGHT, tick).noted(
                    event_of(tick, kind, from).at(d.town.people[i].x, d.town.people[i].y).target(to).with(
                        "kind"@,
                        oldest.kind.text(),
                    ).with_num("qty"@, got),
                )
            }
        },
        _ => a,
    }
}

fn transfer_food(
    town: &mut Town,
    events: &mut Vec<Event>,
    report: &TickReport,
    from: i64,
    to: i64,
    quantity: Num,
    to_infant: bool,
    tick: i64,
)
    requires
        old(town).wf(),
    ensures
        affair_of(final(town), final(events), report) == handed_over(
            affair_of(old(town), old(events), report),
            from,
            to,
            quantity,
            to_infant,
            tick,
        ),
        final(town).wf(),
{
    let Some(i) = index_of(&town.creatures, from) else {
        return ;
    };
    let Some(j) = index_of(&town.creatures, to) else {
        return ;
    };
    let ghost start = town.creatures@;
    assert(people_of(start)[i as int] == start[i as int]@);
    let oldest = match town.creatures[i].inventory.oldest_food() {
        Some(b) => *b,
        None => {
            return ;
        },
    };
    let want = quantity.min(oldest.quantity);
    let got = town.creatures[i].inventory.take(oldest.kind, want);
    proof {
        lemma_people_update(start, i as int, town.creatures@[i as int]);
        assert(town.creatures@ == start.update(i as int, town.creatures@[i as int]));
    }
    if got.le(num(NOTHING)) {
        return ;
    }
    let ghost taken = town.creatures@;
    town.creatures[i].dirty = true;
    proof {
        lemma_people_update(taken, i as int, town.creatures@[i as int]);
        assert(town.creatures@ == taken.update(i as int, town.creatures@[i as int]));
    }
    let ghost marked = town.creatures@;
    {
        let r = &mut town.creatures[j];
        if to_infant {
            r.hunger = (r.hunger + got * oldest.kind.nutrition()).min(num(FULL));
        } else {
            r.inventory.add(oldest.kind, got, oldest.harvested_tick);
        }
        r.dirty = true;
    }
    proof {
        lemma_people_update(marked, j as int, town.creatures@[j as int]);
        assert(town.creatures@ == marked.update(j as int, town.creatures@[j as int]));
    }
    town.relationships.adjust(to, from, num(FED), None, tick);
    town.relationships.adjust(from, to, num(SLIGHT), None, tick);
    let (x, y) = (town.creatures[i].x, town.creatures[i].y);
    let kind = if to_infant {
        EventKind::FedInfant
    } else {
        EventKind::GaveFood
    };
    let e = Event::new(tick, kind, from).at(x, y).target(to).with("kind", oldest.kind.as_str()).with_num("qty", got);
    say(events, e);
}

/// How much is passed on over a channel.
pub open spec fn portion_spec(channel: Channel, k: &KnowledgeConfig) -> u32 {
    match channel {
        Channel::Teach => k.teach_belief_count,
        Channel::Share => k.share_belief_count,
        Channel::Observation => 1,
    }
}

#[verifier::when_used_as_spec(portion_spec)]
pub fn portion(channel: Channel, k: &KnowledgeConfig) -> (n: u32)
    ensures
        n == portion_spec(channel, k),
{
    match channel {
        Channel::Teach => k.teach_belief_count,
        Channel::Share => k.share_belief_count,
        Channel::Observation => 1,
    }
}

/// What a listener believes after the first `n` of the beliefs picked, and how
/// many were clear enough to take in. Talking to oneself is listening, too: what
/// has been taken in is there to be told.
pub open spec fn heard(
    teller: Seq<Belief>,
    listener: Seq<Belief>,
    oneself: bool,
    picked: Seq<usize>,
    n: nat,
    from: i64,
    channel: Channel,
    k: &KnowledgeConfig,
    tick: i64,
) -> (Seq<Belief>, nat)
    decreases n,
{
    if n == 0 {
        (listener, 0)
    } else {
        let (so_far, moved) = heard(teller, listener, oneself, picked, (n - 1) as nat, from, channel, k, tick);
        let source = if oneself {
            so_far
        } else {
            teller
        };
        let incoming = transmit_spec(&source[picked[n - 1] as int], from, channel, k, tick);
        if incoming.confidence.le(num(TOO_FAINT)) {
            (so_far, moved)
        } else {
            (with_upsert(so_far, incoming, k, capacity_of(k), tick).0, moved + 1)
        }
    }
}

/// Beliefs copied from one creature to another: the people after, and how many
/// were taken in.
pub open spec fn passed_on(
    people: Seq<CreatureV>,
    from: i64,
    to: i64,
    channel: Channel,
    topic: Option<BeliefKind>,
    k: &KnowledgeConfig,
    tick: i64,
) -> (Seq<CreatureV>, nat) {
    let (i, j) = (place_of(people, from), place_of(people, to));
    if !is_here(people, from) || !is_here(people, to) {
        (people, 0)
    } else {
        let teller = people[i];
        let picked = picks(teller.beliefs, topic, (teller.x, teller.y), tick, k, portion(channel, k) as nat);
        let (beliefs, moved) = heard(
            teller.beliefs,
            people[j].beliefs,
            i == j,
            picked,
            picked.len(),
            from,
            channel,
            k,
            tick,
        );
        let after = CreatureV { beliefs, ..people[j] };
        if moved > 0 {
            (people.update(j, CreatureV { dirty: true, ..after }), moved)
        } else {
            (people.update(j, after), moved)
        }
    }
}

/// Copies beliefs from one creature to another over a channel.
pub fn transfer_beliefs(
    creatures: &mut Vec<Creature>,
    from: i64,
    to: i64,
    channel: Channel,
    topic: Option<BeliefKind>,
    k: &KnowledgeConfig,
    tick: i64,
) -> (moved: usize)
    ensures
        (people_of(final(creatures)@), moved as nat) == passed_on(
            people_of(old(creatures)@),
            from,
            to,
            channel,
            topic,
            k,
            tick,
        ),
        final(creatures)@.len() == old(creatures)@.len(),
        moved <= u32::MAX,
{
    let Some(i) = index_of(creatures, from) else {
        return 0;
    };
    let Some(j) = index_of(creatures, to) else {
        return 0;
    };
    let ghost start = creatures@;
    let ghost people = people_of(start);
    let ghost teller = people[i as int];
    let n = portion(channel, k) as usize;
    let (x, y) = (creatures[i].x, creatures[i].y);
    let picked = select_for_sharing(&creatures[i].beliefs, topic, (x, y), tick, k, n);
    let cap = belief_capacity(k);
    let mut moved: usize = 0;
    proof {
        assert(people[j as int] == start[j as int]@);
        assert(start.update(j as int, start[j as int]) == start);
    }
    for m in 0..picked.len()
        invariant
            i < start.len(),
            j < start.len(),
            people == people_of(start),
            teller == people[i as int],
            cap == capacity_of(k),
            creatures@.len() == start.len(),
            creatures@ == start.update(j as int, creatures@[j as int]),
            creatures@[j as int]@ == (CreatureV { beliefs: creatures@[j as int].beliefs@, ..people[j as int] }),
            creatures@[j as int].beliefs@.len() >= start[j as int].beliefs@.len(),
            forall|q: int| 0 <= q < picked@.len() ==> (#[trigger] picked@[q]) < teller.beliefs.len(),
            (creatures@[j as int].beliefs@, moved as nat) == heard(
                teller.beliefs,
                people[j as int].beliefs,
                i == j,
                picked@,
                m as nat,
                from,
                channel,
                k,
                tick,
            ),
            moved <= m,
    {
        let at = picked[m];
        let ghost before = creatures@[j as int].beliefs@;
        let incoming = transmit(&creatures[i].beliefs[at], from, channel, k, tick);
        if !incoming.confidence.le(num(TOO_FAINT)) {
            let ghost row = creatures@;
            proof {
                lemma_upsert_keeps_count(before, incoming, k, cap as nat, tick);
            }
            let (tx, ty) = (creatures[j].x, creatures[j].y);
            upsert(&mut creatures[j].beliefs, incoming, (tx, ty), k, cap, tick);
            moved = moved + 1;
            proof {
                assert(creatures@ == row.update(j as int, creatures@[j as int]));
                assert(creatures@ == start.update(j as int, creatures@[j as int]));
            }
        }
    }
    let ghost told = creatures@;
    if moved > 0 {
        creatures[j].dirty = true;
    }
    proof {
        assert(creatures@ == start.update(j as int, creatures@[j as int]));
        lemma_people_update(start, j as int, creatures@[j as int]);
    }
    moved
}

/// What an act does to the town.
pub open spec fn intent_applied(a: Affair, intent: SocialIntent, k: &KnowledgeConfig, tick: i64) -> Affair {
    match intent {
        SocialIntent::Court { from, to } => Affair {
            town: TownV { offers: with_offer(a.town.offers, from, to, tick), ..a.town },
            ..a
        }.nudged(to, from, SLIGHT, tick),
        SocialIntent::Accept { from, to } => wed(a, from, to, tick),
        SocialIntent::Reject { from, to } => {
            let b = Affair {
                town: TownV { offers: a.town.offers.filter(not_between(from, to)), ..a.town },
                report: TickReport { rejections: one_more(a.report.rejections), ..a.report },
                ..a
            };
            b.nudged(from, to, TURNED_DOWN, tick).nudged(to, from, TURNED_AWAY, tick).noted(
                event_of(tick, EventKind::Rejected, from).target(to),
            )
        },
        SocialIntent::GiveFood { from, to, quantity } => handed_over(a, from, to, quantity, false, tick),
        SocialIntent::FeedInfant { from, to, quantity } => handed_over(a, from, to, quantity, true, tick),
        SocialIntent::JoinHousehold { creature, household } => joined(a, creature, household, tick),
        SocialIntent::LeaveHousehold { creature } => left_home(a, creature, tick),
        SocialIntent::Share { from, to, topic } => shared(a, from, to, topic, k, tick),
        SocialIntent::Teach { from, to } => taught(a, from, to, k, tick),
    }
}

/// Leaving whatever home one has.
pub open spec fn left_home(a: Affair, creature: i64, tick: i64) -> Affair {
    let i = place_of(a.town.people, creature);
    if !is_here(a.town.people, creature) {
        a
    } else {
        match a.town.people[i].household_id {
            Some(home) => a.with(i, CreatureV { household_id: None, dirty: true, ..a.town.people[i] }).noted(
                event_of(tick, EventKind::HouseholdLeft, creature).target(home),
            ),
            None => a,
        }
    }
}

/// A creature with one more act of sharing to its name.
pub open spec fn one_more_shared(a: Affair, id: i64) -> Affair {
    let i = place_of(a.town.people, id);
    if is_here(a.town.people, id) {
        a.with(i, CreatureV { shared_count: bump(a.town.people[i].shared_count), ..a.town.people[i] })
    } else {
        a
    }
}

/// A creature with one more act of teaching to its name.
pub open spec fn one_more_taught(a: Affair, id: i64) -> Affair {
    let i = place_of(a.town.people, id);
    if is_here(a.town.people, id) {
        a.with(i, CreatureV { taught_count: bump(a.town.people[i].taught_count), ..a.town.people[i] })
    } else {
        a
    }
}

/// One more, as far as can be counted.
pub open spec fn bump(n: i32) -> i32 {
    if n < i32::MAX {
        (n + 1) as i32
    } else {
        n
    }
}

pub fn bumped(n: i32) -> (r: i32)
    ensures
        r == bump(n),
{
    if n < i32::MAX {
        n + 1
    } else {
        n
    }
}

/// The town after beliefs were passed on, with a note of it.
pub open spec fn sent(a: Affair, from: i64, to: i64, channel: Channel, after: (Seq<CreatureV>, nat), tick: i64) -> Affair {
    Affair {
        town: TownV {
            people: after.0,
            sent: a.town.sent.push(
                TransmissionRecord { tick, from, to, channel, count: after.1 as u32 },
            ),
            ..a.town
        },
        ..a
    }
}

/// Telling somebody what one knows of a topic.
pub open spec fn shared(
    a: Affair,
    from: i64,
    to: i64,
    topic: Option<BeliefKind>,
    k: &KnowledgeConfig,
    tick: i64,
) -> Affair {
    let after = passed_on(a.town.people, from, to, Channel::Share, topic, k, tick);
    if after.1 == 0 {
        Affair { town: TownV { people: after.0, ..a.town }, ..a }
    } else {
        let b = sent(a, from, to, Channel::Share, after, tick);
        let c = Affair {
            report: TickReport { beliefs_shared: more_by(b.report.beliefs_shared, (after.1 as u32) as nat), ..b.report },
            ..b
        };
        one_more_shared(c, from).nudged(to, from, TOLD, tick).noted(
            event_of(tick, EventKind::Shared, from).target(to).with_int("beliefs"@, after.1 as int),
        )
    }
}

/// Teaching somebody: what is taught is known as though it had been seen.
pub open spec fn taught(a: Affair, from: i64, to: i64, k: &KnowledgeConfig, tick: i64) -> Affair {
    let after = passed_on(a.town.people, from, to, Channel::Teach, None, k, tick);
    if after.1 == 0 {
        Affair { town: TownV { people: after.0, ..a.town }, ..a }
    } else {
        let b = sent(a, from, to, Channel::Teach, after, tick);
        let c = Affair {
            report: TickReport { beliefs_taught: more_by(b.report.beliefs_taught, (after.1 as u32) as nat), ..b.report },
            ..b
        };
        let d = one_more_taught(c, from);
        Affair {
            town: TownV { bonds: bonded_both(d.town.bonds, from, to, num(TAUGHT), None, tick), ..d.town },
            ..d
        }.noted(event_of(tick, EventKind::Taught, from).target(to).with_int("beliefs"@, after.1 as int))
    }
}

fn leave_household(town: &mut Town, events: &mut Vec<Event>, report: &TickReport, creature: i64, tick: i64)
    requires
        old(town).wf(),
    ensures
        affair_of(final(town), final(events), report) == left_home(
            affair_of(old(town), old(events), report),
            creature,
            tick,
        ),
        final(town).wf(),
{
    if let Some(i) = index_of(&town.creatures, creature) {
        let ghost before = town.creatures@;
        assert(people_of(before)[i as int] == before[i as int]@);
        if let Some(home) = town.creatures[i].household_id {
            let c = &mut town.creatures[i];
            c.household_id = None;
            c.dirty = true;
            proof {
                lemma_people_update(before, i as int, town.creatures@[i as int]);
                assert(town.creatures@ == before.update(i as int, town.creatures@[i as int]));
            }
            say(events, Event::new(tick, EventKind::HouseholdLeft, creature).target(home));
        }
    }
}

fn share(
    town: &mut Town,
    events: &mut Vec<Event>,
    report: &mut TickReport,
    from: i64,
    to: i64,
    topic: Option<BeliefKind>,
    k: &KnowledgeConfig,
    tick: i64,
)
    requires
        old(town).wf(),
    ensures
        affair_of(final(town), final(events), final(report)) == shared(
            affair_of(old(town), old(events), old(report)),
            from,
            to,
            topic,
            k,
            tick,
        ),
        final(town).wf(),
{
    let n = transfer_beliefs(&mut town.creatures, from, to, Channel::Share, topic, k, tick);
    if n == 0 {
        return ;
    }
    let count = n as u32;
    town.transmissions.push(TransmissionRecord { tick, from, to, channel: Channel::Share, count });
    report.beliefs_shared = count_by(report.beliefs_shared, count);
    if let Some(i) = index_of(&town.creatures, from) {
        let ghost before = town.creatures@;
        assert(people_of(before)[i as int] == before[i as int]@);
        let c = &mut town.creatures[i];
        c.shared_count = bumped(c.shared_count);
        proof {
            lemma_people_update(before, i as int, town.creatures@[i as int]);
            assert(town.creatures@ == before.update(i as int, town.creatures@[i as int]));
        }
    }
    town.relationships.adjust(to, from, num(TOLD), None, tick);
    say(events, Event::new(tick, EventKind::Shared, from).target(to).with_int("beliefs", n as i64));
}

fn teach(
    town: &mut Town,
    events: &mut Vec<Event>,
    report: &mut TickReport,
    from: i64,
    to: i64,
    k: &KnowledgeConfig,
    tick: i64,
)
    requires
        old(town).wf(),
    ensures
        affair_of(final(town), final(events), final(report)) == taught(
            affair_of(old(town), old(events), old(report)),
            from,
            to,
            k,
            tick,
        ),
        final(town).wf(),
{
    let n = transfer_beliefs(&mut town.creatures, from, to, Channel::Teach, None, k, tick);
    if n == 0 {
        return ;
    }
    let count = n as u32;
    town.transmissions.push(TransmissionRecord { tick, from, to, channel: Channel::Teach, count });
    report.beliefs_taught = count_by(report.beliefs_taught, count);
    if let Some(i) = index_of(&town.creatures, from) {
        let ghost before = town.creatures@;
        assert(people_of(before)[i as int] == before[i as int]@);
        let c = &mut town.creatures[i];
        c.taught_count = bumped(c.taught_count);
        proof {
            lemma_people_update(before, i as int, town.creatures@[i as int]);
            assert(town.creatures@ == before.update(i as int, town.creatures@[i as int]));
        }
    }
    town.relationships.adjust_both(from, to, num(TAUGHT), None, tick);
    say(events, Event::new(tick, EventKind::Taught, from).target(to).with_int("beliefs", n as i64));
}

/// Applies one act.
fn apply_intent(
    town: &mut Town,
    events: &mut Vec<Event>,
    report: &mut TickReport,
    intent: SocialIntent,
    k: &KnowledgeConfig,
    tick: i64,
)
    requires
        old(town).wf(),
    ensures
        affair_of(final(town), final(events), final(report)) == intent_applied(
            affair_of(old(town), old(events), old(report)),
            intent,
            k,
            tick,
        ),
        final(town).wf(),
{
    match intent {
        SocialIntent::Court { from, to } => {
            town.courtships.offer(from, to, tick);
            town.relationships.adjust(to, from, num(SLIGHT), None, tick);
        },
        SocialIntent::Accept { from, to } => pair_up(town, events, report, from, to, tick),
        SocialIntent::Reject { from, to } => {
            town.courtships.remove_between(from, to);
            town.relationships.adjust(from, to, num(TURNED_DOWN), None, tick);
            town.relationships.adjust(to, from, num(TURNED_AWAY), None, tick);
            report.rejections = count_one(report.rejections);
            say(events, Event::new(tick, EventKind::Rejected, from).target(to));
        },
        SocialIntent::GiveFood { from, to, quantity } => {
            transfer_food(town, events, report, from, to, quantity, false, tick);
        },
        SocialIntent::FeedInfant { from, to, quantity } => {
            transfer_food(town, events, report, from, to, quantity, true, tick);
        },
        SocialIntent::JoinHousehold { creature, household } => {
            join_household(town, events, report, creature, household, tick);
        },
        SocialIntent::LeaveHousehold { creature } => leave_household(town, events, report, creature, tick),
        SocialIntent::Share { from, to, topic } => share(town, events, report, from, to, topic, k, tick),
        SocialIntent::Teach { from, to } => teach(town, events, report, from, to, k, tick),
    }
}

/// The first `n` of a list of acts, in order.
pub open spec fn intents_applied(a: Affair, intents: Seq<SocialIntent>, n: nat, k: &KnowledgeConfig, tick: i64) -> Affair
    decreases n,
{
    if n == 0 {
        a
    } else {
        intent_applied(intents_applied(a, intents, (n - 1) as nat, k, tick), intents[n - 1], k, tick)
    }
}

/// Applies every two-sided act recorded while acting, in the order they were
/// recorded.
pub fn apply_social_intents(
    town: &mut Town,
    events: &mut Vec<Event>,
    report: &mut TickReport,
    intents: &Vec<SocialIntent>,
    k: &KnowledgeConfig,
    tick: i64,
)
    requires
        old(town).wf(),
    ensures
        affair_of(final(town), final(events), final(report)) == intents_applied(
            affair_of(old(town), old(events), old(report)),
            intents@,
            intents@.len(),
            k,
            tick,
        ),
        final(town).wf(),
{
    let ghost start = affair_of(town, events, report);
    for i in 0..intents.len()
        invariant
            town.wf(),
            affair_of(town, events, report) == intents_applied(start, intents@, i as nat, k, tick),
    {
        apply_intent(town, events, report, intents[i], k, tick);
    }
}

/// Every pairing is set on both sides.
pub open spec fn mutual(people: Seq<CreatureV>) -> bool {
    forall|k: int, l: int|
        0 <= k < people.len() && 0 <= l < people.len() && (#[trigger] people[k]).mate_id == Some(
            (#[trigger] people[l]).id,
        ) ==> people[l].mate_id == Some(people[k].id)
}

pub open spec fn ids_distinct(people: Seq<CreatureV>) -> bool {
    forall|k: int, l: int| 0 <= k < l < people.len() ==> (#[trigger] people[k]).id != (#[trigger] people[l]).id
}

/// Moving house changes nobody's mate.
proof fn lemma_joined(a: Affair, creature: i64, home: i64, tick: i64)
    ensures
        joined(a, creature, home, tick).town.people.len() == a.town.people.len(),
        forall|k: int|
            0 <= k < a.town.people.len() ==> (#[trigger] joined(a, creature, home, tick).town.people[k]).id
                == a.town.people[k].id && joined(a, creature, home, tick).town.people[k].mate_id
                == a.town.people[k].mate_id,
{
    lemma_place(a.town.people, creature);
}

/// A pairing is set on both sides or on neither.
pub proof fn law_pairing_is_mutual(a: Affair, x: i64, y: i64, tick: i64)
    requires
        mutual(a.town.people),
        ids_distinct(a.town.people),
    ensures
        mutual(wed(a, x, y, tick).town.people),
{
    let people = a.town.people;
    let after = wed(a, x, y, tick).town.people;
    let (i, j) = (place_of(people, x), place_of(people, y));
    lemma_place(people, x);
    lemma_place(people, y);
    if is_here(people, x) && is_here(people, y) && people[i].mate_id is None && people[j].mate_id is None {
        let b = a.with(i, CreatureV { mate_id: Some(y), paired_tick: Some(tick), dirty: true, ..people[i] });
        let c = b.with(j, CreatureV { mate_id: Some(x), paired_tick: Some(tick), dirty: true, ..b.town.people[j] });
        let d = Affair {
            town: TownV {
                offers: c.town.offers.filter(clear_of(x)).filter(clear_of(y)),
                bonds: bonded_both(c.town.bonds, x, y, num(PAIRED), Some(RelKind::Mate), tick),
                ..c.town
            },
            ..c
        };
        match (d.town.people[i].household_id, d.town.people[j].household_id) {
            (Some(h), None) => lemma_joined(d, y, h, tick),
            (None, Some(h)) => lemma_joined(d, x, h, tick),
            _ => {},
        }
        assert(after.len() == people.len());
        assert forall|k: int| 0 <= k < people.len() implies (#[trigger] after[k]).id == people[k].id
            && after[k].mate_id == if k == j {
            Some(x)
        } else if k == i {
            Some(y)
        } else {
            people[k].mate_id
        } by {
            assert(c.town.people[k].id == people[k].id);
            assert(after[k].id == c.town.people[k].id && after[k].mate_id == c.town.people[k].mate_id);
        }
        assert forall|k: int, l: int|
            0 <= k < after.len() && 0 <= l < after.len() && (#[trigger] after[k]).mate_id == Some(
                (#[trigger] after[l]).id,
            ) implies after[l].mate_id == Some(after[k].id) by {
            assert(after.len() == people.len());
            if l != i && people[l].id == people[i].id {
                assert(false);
            }
            if l != j && people[l].id == people[j].id {
                assert(false);
            }
            if k != i && k != j {
                assert(people[k].mate_id == Some(people[l].id));
                assert(people[l].mate_id == Some(people[k].id));
            }
        }
    }
}

/// A gift arrives: when food is handed to somebody who is not an infant, the giver's
/// oldest batch loses what was asked for, or all it holds if that is less, and the
/// receiver holds that much more of the same kind and harvest, with the batch it had
/// of that harvest or in one of its own. Everything else that the two carry, and
/// everybody else, is as before.
pub proof fn law_a_gift_arrives(a: Affair, from: i64, to: i64, quantity: Num, tick: i64, k: int)
    requires
        ({
            let people = a.town.people;
            let pack = people[place_of(people, from)].pack;
            &&& is_here(people, from) && is_here(people, to) && from != to
            &&& forall|i: int| 0 <= i < pack.len() ==> is_amount((#[trigger] pack[i]).quantity)
            &&& 0 <= k < pack.len() && pack[k].kind != ItemKind::Wood
            &&& forall|l: int|
                0 <= l < pack.len() && (#[trigger] pack[l]).kind != ItemKind::Wood ==> pack[k].harvested_tick
                    < pack[l].harvested_tick || (pack[k].harvested_tick == pack[l].harvested_tick && k <= l)
            &&& num(0).lt(quantity) && num(0).lt(pack[k].quantity)
        }),
    ensures
        ({
            let people = a.town.people;
            let after = handed_over(a, from, to, quantity, false, tick).town.people;
            let (i, j) = (place_of(people, from), place_of(people, to));
            let (pack, held) = (people[i].pack, people[j].pack);
            let batch = pack[k];
            let given = if quantity.lt(batch.quantity) {
                quantity
            } else {
                batch.quantity
            };
            let same = |b: Batch| b.kind == batch.kind && b.harvested_tick == batch.harvested_tick;
            let drained = pack.update(k, Batch { quantity: batch.quantity - given, ..batch });
            &&& forall|b: Batch| #[trigger]
                after[i].pack.contains(b) <==> drained.contains(b) && num(0x38D1_B717).lt(b.quantity)
            &&& (forall|l: int| 0 <= l < held.len() ==> !same(#[trigger] held[l])) ==> after[j].pack == held.push(
                Batch { quantity: given, ..batch },
            )
            &&& forall|l: int|
                #![trigger held[l]]
                0 <= l < held.len() && same(held[l]) && (forall|m: int| 0 <= m < l ==> !same(#[trigger] held[m]))
                    ==> after[j].pack == held.update(l, Batch { quantity: held[l].quantity + given, ..held[l] })
            &&& after.len() == people.len()
            &&& after[i] == (CreatureV { pack: after[i].pack, dirty: true, ..people[i] })
            &&& after[j] == (CreatureV { pack: after[j].pack, dirty: true, ..people[j] })
            &&& forall|l: int| 0 <= l < people.len() && l != i && l != j ==> #[trigger] after[l] == people[l]
        }),
{
    let people = a.town.people;
    let (i, j) = (place_of(people, from), place_of(people, to));
    lemma_place(people, from);
    lemma_place(people, to);
    let (pack, held) = (people[i].pack, people[j].pack);
    let batch = pack[k];
    let given = if quantity.lt(batch.quantity) {
        quantity
    } else {
        batch.quantity
    };
    law_the_oldest_food_is_picked(pack);
    let o = oldest_food_of(pack)->0;
    let k2 = choose|k2: int|
        0 <= k2 < pack.len() && #[trigger] pack[k2] == o && forall|l: int|
            0 <= l < pack.len() && (#[trigger] pack[l]).kind != ItemKind::Wood ==> o.harvested_tick
                < pack[l].harvested_tick || (o.harvested_tick == pack[l].harvested_tick && k2 <= l);
    assert(pack[k2] == o && pack[k] == batch);
    assert(k2 == k);
    assert(quantity.min(batch.quantity) == given || quantity.min(batch.quantity).rank() == given.rank());
    law_what_is_taken_is_gone(pack, batch.kind, quantity.min(batch.quantity), k);
    law_what_is_added_is_held(held, batch.kind, quantity.min(batch.quantity), batch.harvested_tick);
    let after = handed_over(a, from, to, quantity, false, tick).town.people;
    assert(after[i].pack == with_taken(pack, batch.kind, quantity.min(batch.quantity)).0);
    assert(after[j].pack == with_added(held, batch.kind, quantity.min(batch.quantity), batch.harvested_tick));
}

} // verus!
