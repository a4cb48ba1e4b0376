//! What happens between people without anybody acting on it: word overheard,
//! offers that lapse, and conception.

use crate::chance::{Stream, Tape};
use crate::config::{KnowledgeConfig, WorldConfig};
use crate::creature::{people_of, Creature, CreatureV, Pregnancy, Sex};
use crate::event::{event_of, Event, EventKind};
use crate::knowledge::Channel;
use crate::needs::lemma_people_update;
use crate::num::{num, Num, NOTHING};
use crate::records::{count_by, count_one, more_by, one_more, TickReport, TransmissionRecord};
use crate::social::{
    blocker_of, bonded, company, conception_blocker, home_at, home_of, lapsed_by, lemma_company, lemma_home_at,
    open_at, Bystander, CreatureIndex, CrowdV, Edge, HouseholdV, Offer,
};
use crate::town::{
    affair_of, index_of, is_here, passed_on, place_of, say, sent, transfer_beliefs, Affair, Town, TownV,
};
use vstd::prelude::*;

verus! {

/// -0.05: being ignored is not the same as being turned down, but it is not
/// nothing either.
pub const IGNORED: u32 = 0xBD4C_CCCD;

/// How far talk carries.
pub const EARSHOT: u32 = 4;

/// Who overhears whom among the first `n`: each creature that the chance falls
/// on listens to one of those near it. Also the stream after it.
pub open spec fn overhearing(
    people: Seq<CreatureV>,
    n: nat,
    crowd: CrowdV,
    chance: Num,
    radius: u32,
    rng: Stream,
) -> (Seq<(i64, i64)>, Stream)
    decreases n,
{
    if n == 0 {
        (Seq::empty(), rng)
    } else {
        let (pairs, s) = overhearing(people, (n - 1) as nat, crowd, chance, radius, rng);
        let c = people[n - 1];
        let around = company(crowd, c.x, c.y, radius, c.id);
        let t = s.stepped();
        if s.unit_here().ge(chance) || around.len() == 0 {
            (pairs, t)
        } else {
            (
                pairs.push((around[t.index_here(around.len()) as int].id, c.id)),
                t.indexed(around.len()),
            )
        }
    }
}

/// The first `n` pairs of teller and listener settled: one belief each, faint,
/// with a note of who told whom where anything was taken in.
pub open spec fn overheard(a: Affair, pairs: Seq<(i64, i64)>, n: nat, k: &KnowledgeConfig, tick: i64) -> Affair
    decreases n,
{
    if n == 0 {
        a
    } else {
        let b = overheard(a, pairs, (n - 1) as nat, k, tick);
        let (from, to) = pairs[n - 1];
        let after = passed_on(b.town.people, from, to, Channel::Observation, None, k, tick);
        if after.1 == 0 {
            Affair { town: TownV { people: after.0, ..b.town }, ..b }
        } else {
            let c = sent(b, from, to, Channel::Observation, after, tick);
            Affair {
                report: TickReport {
                    beliefs_overheard: more_by(c.report.beliefs_overheard, (after.1 as u32) as nat),
                    ..c.report
                },
                ..c
            }
        }
    }
}

/// Being near somebody leaks a little of what they know: the town after it, and
/// the stream.
pub open spec fn ambient(a: Affair, crowd: CrowdV, cfg: &WorldConfig, tick: i64, rng: Stream) -> (Affair, Stream) {
    let chance = cfg.knowledge.ambient_share_chance;
    if !cfg.features.knowledge_sharing || chance.le(num(NOTHING)) {
        (a, rng)
    } else {
        let radius = if cfg.knowledge.observation_radius < EARSHOT {
            cfg.knowledge.observation_radius
        } else {
            EARSHOT
        };
        let (pairs, s) = overhearing(a.town.people, a.town.people.len(), crowd, chance, radius, rng);
        (overheard(a, pairs, pairs.len(), &cfg.knowledge, tick), s)
    }
}

fn choose_tellers(
    creatures: &Vec<Creature>,
    index: &CreatureIndex,
    chance: Num,
    radius: u32,
    rng: &mut Stream,
) -> (pairs: Vec<(i64, i64)>)
    requires
        index.wf(),
    ensures
        (pairs@, *final(rng)) == overhearing(
            people_of(creatures@),
            creatures@.len(),
            index@,
            chance,
            radius,
            *old(rng),
        ),
{
    let ghost people = people_of(creatures@);
    let ghost start = *rng;
    let mut pairs: Vec<(i64, i64)> = Vec::new();
    let mut around: Vec<Bystander> = Vec::new();
    let mut tape = Tape::blank();
    for i in 0..creatures.len()
        invariant
            index.wf(),
            tape.wf(),
            people == people_of(creatures@),
            (pairs@, *rng) == overhearing(people, i as nat, index@, chance, radius, start),
    {
        let c = &creatures[i];
        assert(people[i as int] == c@);
        if !rng.unit_from(&mut tape).ge(chance) {
            index.near(c.x, c.y, radius, c.id, &mut around);
            proof {
                lemma_company(index, c.x, c.y, radius, c.id, around@);
            }
            if around.len() > 0 {
                let pick = rng.index(around.len());
                pairs.push((around[pick].id, c.id));
            }
        }
    }
    pairs
}

/// An ambient hum of information that nobody chose to make: no decision, no
/// cost, always on.
pub fn ambient_observation(
    town: &mut Town,
    events: &Vec<Event>,
    report: &mut TickReport,
    index: &CreatureIndex,
    cfg: &WorldConfig,
    tick: i64,
    rng: &mut Stream,
)
    requires
        old(town).wf(),
        index.wf(),
    ensures
        (affair_of(final(town), events, final(report)), *final(rng)) == ambient(
            affair_of(old(town), events, old(report)),
            index@,
            cfg,
            tick,
            *old(rng),
        ),
        final(town).wf(),
{
    let chance = cfg.knowledge.ambient_share_chance;
    if !cfg.features.knowledge_sharing || chance.le(num(NOTHING)) {
        return ;
    }
    let radius = if cfg.knowledge.observation_radius < EARSHOT {
        cfg.knowledge.observation_radius
    } else {
        EARSHOT
    };
    let pairs = choose_tellers(&town.creatures, index, chance, radius, rng);
    let ghost start = affair_of(town, events, report);
    for i in 0..pairs.len()
        invariant
            town.wf(),
            affair_of(town, events, report) == overheard(start, pairs@, i as nat, &cfg.knowledge, tick),
    {
        let (from, to) = pairs[i];
        let n = transfer_beliefs(&mut town.creatures, from, to, Channel::Observation, None, &cfg.knowledge, tick);
        if n > 0 {
            let count = n as u32;
            report.beliefs_overheard = count_by(report.beliefs_overheard, count);
            town.transmissions.push(
                TransmissionRecord { tick, from, to, channel: Channel::Observation, count },
            );
        }
    }
}

/// What people feel once the first `n` of the lapsed offers have gone
/// unanswered.
pub open spec fn let_down(bonds: Map<(i64, i64), Edge>, lapsed: Seq<Offer>, n: nat, tick: i64) -> Map<(i64, i64), Edge>
    decreases n,
{
    if n == 0 {
        bonds
    } else {
        let o = lapsed[n - 1];
        bonded(let_down(bonds, lapsed, (n - 1) as nat, tick), o.from, o.to, num(IGNORED), None, tick)
    }
}

/// The offers that have stood too long are gone, and were felt.
pub open spec fn cooled(town: TownV, ttl: u32, tick: i64) -> TownV {
    let lapsed = town.offers.filter(lapsed_by(tick, ttl));
    TownV {
        offers: town.offers.filter(open_at(tick, ttl)),
        bonds: let_down(town.bonds, lapsed, lapsed.len(), tick),
        ..town
    }
}

pub fn expire_courtships(town: &mut Town, ttl: u32, tick: i64)
    requires
        old(town).wf(),
    ensures
        final(town)@ == cooled(old(town)@, ttl, tick),
        final(town).wf(),
{
    let lapsed = town.courtships.expire(tick, ttl);
    let ghost bonds = town.relationships@;
    let ghost start = *town;
    for i in 0..lapsed.len()
        invariant
            town.wf(),
            *town == (Town { relationships: town.relationships, ..start }),
            town.relationships@ == let_down(bonds, lapsed@, i as nat, tick),
    {
        let o = lapsed[i];
        town.relationships.adjust(o.from, o.to, num(IGNORED), None, tick);
    }
    assert(town@ == cooled(old(town)@, ttl, tick));
}

/// A pair that might conceive: a woman who is not expecting, whose mate is here
/// and who has a home. The mother's place, the father's place, and the home.
pub open spec fn prospect(people: Seq<CreatureV>, i: int) -> Option<(usize, usize, i64)> {
    let c = people[i];
    match (c.mate_id, c.household_id) {
        (Some(mate), Some(home)) if c.sex == Sex::Female && c.pregnancy is None && is_here(people, mate) => Some(
            (i as usize, place_of(people, mate) as usize, home),
        ),
        _ => None,
    }
}

/// The prospects among the first `n`, in order.
pub open spec fn prospects(people: Seq<CreatureV>, n: nat) -> Seq<(usize, usize, i64)>
    decreases n,
{
    if n == 0 {
        Seq::empty()
    } else {
        let before = prospects(people, (n - 1) as nat);
        match prospect(people, n - 1) {
            Some(p) => before.push(p),
            None => before,
        }
    }
}

/// The living household with an id.
pub open spec fn home_named(homes: Seq<HouseholdV>, id: i64) -> Option<HouseholdV> {
    if home_at(homes, id) < homes.len() {
        Some(homes[home_at(homes, id)])
    } else {
        None
    }
}

/// One prospect: either a child is on the way, or the requirement that stopped
/// it is tallied.
pub open spec fn tried(a: Affair, p: (usize, usize, i64), cfg: &WorldConfig, tick: i64) -> Affair {
    let mother = a.town.people[p.0 as int];
    let father = a.town.people[p.1 as int];
    match blocker_of(mother, father, home_named(a.town.homes, p.2), cfg, tick) {
        Some(b) => Affair {
            report: TickReport {
                conception_blocked: a.report.conception_blocked.raised(b.slot() as int),
                ..a.report
            },
            ..a
        },
        None => {
            let due = (tick + cfg.reproduction.gestation_ticks) as i64;
            Affair {
                report: TickReport { conceptions: one_more(a.report.conceptions), ..a.report },
                ..a
            }.with(
                p.0 as int,
                CreatureV {
                    pregnancy: Some(Pregnancy { father_id: father.id, due_tick: due }),
                    dirty: true,
                    ..mother
                },
            ).noted(
                event_of(tick, EventKind::Conceived, mother.id).at(mother.x, mother.y).target(father.id).with_int(
                    "due"@,
                    due as int,
                ),
            )
        },
    }
}

pub open spec fn all_tried(a: Affair, list: Seq<(usize, usize, i64)>, n: nat, cfg: &WorldConfig, tick: i64) -> Affair
    decreases n,
{
    if n == 0 {
        a
    } else {
        tried(all_tried(a, list, (n - 1) as nat, cfg, tick), list[n - 1], cfg, tick)
    }
}

/// Conception: everybody who might, in order.
pub open spec fn conceived(a: Affair, cfg: &WorldConfig, tick: i64) -> Affair {
    let list = prospects(a.town.people, a.town.people.len());
    all_tried(a, list, list.len(), cfg, tick)
}

fn find_prospects(creatures: &Vec<Creature>) -> (list: Vec<(usize, usize, i64)>)
    ensures
        list@ == prospects(people_of(creatures@), creatures@.len()),
        forall|k: int|
            0 <= k < list@.len() ==> (#[trigger] list@[k]).0 < creatures@.len() && list@[k].1 < creatures@.len(),
{
    let ghost people = people_of(creatures@);
    let mut list: Vec<(usize, usize, i64)> = Vec::new();
    for i in 0..creatures.len()
        invariant
            people == people_of(creatures@),
            list@ == prospects(people, i as nat),
            forall|k: int|
                0 <= k < list@.len() ==> (#[trigger] list@[k]).0 < creatures@.len() && list@[k].1 < creatures@.len(),
    {
        let c = &creatures[i];
        assert(people[i as int] == c@);
        if c.sex == Sex::Female && c.pregnancy.is_none() {
            if let (Some(mate), Some(home)) = (c.mate_id, c.household_id) {
                if let Some(j) = index_of(creatures, mate) {
                    list.push((i, j, home));
                }
            }
        }
    }
    list
}

/// The requirements of conception, checked for every paired woman.
pub fn conceive(town: &mut Town, events: &mut Vec<Event>, report: &mut TickReport, cfg: &WorldConfig, tick: i64)
    requires
        old(town).wf(),
        tick + cfg.reproduction.gestation_ticks <= i64::MAX,
    ensures
        affair_of(final(town), final(events), final(report)) == conceived(
            affair_of(old(town), old(events), old(report)),
            cfg,
            tick,
        ),
        final(town).wf(),
        final(town).creatures@.len() == old(town).creatures@.len(),
{
    let list = find_prospects(&town.creatures);
    let ghost start = affair_of(town, events, report);
    let ghost n = town.creatures@.len();
    for i in 0..list.len()
        invariant
            town.wf(),
            town.creatures@.len() == n,
            tick + cfg.reproduction.gestation_ticks <= i64::MAX,
            forall|k: int| 0 <= k < list@.len() ==> (#[trigger] list@[k]).0 < n && list@[k].1 < n,
            affair_of(town, events, report) == all_tried(start, list@, i as nat, cfg, tick),
    {
        let (m, f, home) = list[i];
        let ghost before = town.creatures@;
        let ghost a = affair_of(town, events, report);
        proof {
            assert(list@[i as int].0 < n);
            assert(people_of(before)[m as int] == before[m as int]@);
            assert(people_of(before)[f as int] == before[f as int]@);
            lemma_home_at(town.households.items@, home);
        }
        let household = town.households.get(home);
        assert(home_of(household) == home_named(a.town.homes, home));
        let blocker = conception_blocker(&town.creatures[m], &town.creatures[f], household, cfg, tick);
        match blocker {
            Some(b) => {
                report.conception_blocked.raise(b.slot());
            },
            None => {
                let due = tick + cfg.reproduction.gestation_ticks as i64;
                let father_id = town.creatures[f].id;
                {
                    let c = &mut town.creatures[m];
                    c.pregnancy = Some(Pregnancy { father_id, due_tick: due });
                    c.dirty = true;
                }
                proof {
                    lemma_people_update(before, m as int, town.creatures@[m as int]);
                    assert(town.creatures@ == before.update(m as int, town.creatures@[m as int]));
                }
                report.conceptions = count_one(report.conceptions);
                let (id, x, y) = (town.creatures[m].id, town.creatures[m].x, town.creatures[m].y);
                say(
                    events,
                    Event::new(tick, EventKind::Conceived, id).at(x, y).target(father_id).with_int("due", due),
                );
            },
        }
    }
}

/// What is overheard is what somebody within earshot said: of two people near each
/// other, the listener learns, once, and it is counted and recorded as overheard.
pub proof fn law_overhearing_is_recorded(a: Affair, pairs: Seq<(i64, i64)>, n: nat, k: &KnowledgeConfig, tick: i64)
    requires
        n < pairs.len(),
    ensures
        ({
            let (before, after) = (overheard(a, pairs, n, k, tick), overheard(a, pairs, n + 1, k, tick));
            let (from, to) = pairs[n as int];
            let (people, moved) = passed_on(before.town.people, from, to, Channel::Observation, None, k, tick);
            &&& after.town.people == people
            &&& moved == 0 ==> after.report == before.report && after.town.sent == before.town.sent
            &&& moved > 0 ==> {
                &&& after.town.sent.len() == before.town.sent.len() + 1
                &&& after.town.sent.last().from == from && after.town.sent.last().to == to
                &&& after.town.sent.last().channel == Channel::Observation
                &&& moved <= u32::MAX ==> after.report == (TickReport {
                    beliefs_overheard: more_by(before.report.beliefs_overheard, moved),
                    ..before.report
                })
            }
            &&& after.town.bonds == before.town.bonds && after.log == before.log
        }),
        overheard(a, pairs, 0, k, tick) == a,
{
}

/// Every couple that might conceive tries, one after the other, and nobody else.
pub proof fn law_every_couple_tries(a: Affair, list: Seq<(usize, usize, i64)>, n: nat, cfg: &WorldConfig, tick: i64)
    requires
        n < list.len(),
    ensures
        all_tried(a, list, n + 1, cfg, tick) == tried(all_tried(a, list, n, cfg, tick), list[n as int], cfg, tick),
        all_tried(a, list, 0, cfg, tick) == a,
        conceived(a, cfg, tick) == all_tried(
            a,
            prospects(a.town.people, a.town.people.len()),
            prospects(a.town.people, a.town.people.len()).len(),
            cfg,
            tick,
        ),
{
}

} // verus!
