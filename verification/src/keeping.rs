//! What every part of a tick keeps: people stay who they are and where they are,
//! in order, with plans whose routes stay on the map.

use crate::acting::stands;
use crate::birth::{delivered, laboured, Cradle, Deviates, Labour};
use crate::config::{KnowledgeConfig, WorldConfig};
use crate::courting::{all_tried, ambient, conceived, overheard, overhearing, prospects, tried};
use crate::creature::CreatureV;
use crate::death::{toll_of, Toll};
use crate::economy::Structure;
use crate::estates::{
    all_mourned, among_the_living, bereaved, closing_up, estates_settled, left_behind, mourned, survived,
    taken_in_by, widowed,
};
use crate::knowledge::{BeliefKind, Channel};
use crate::needs::{dawned, decayed, needs_met, plagued, sickened, timely};
use crate::num::Num;
use crate::nursery::{spawned, Brood, Place};
use crate::plans::reviewed;
use crate::season::{rotted, turned, Season};
use crate::social::{clear_of, ids_ascend, CrowdV, SocialIntent};
use crate::town::{
    handed_over, intent_applied, intents_applied, joined, lemma_place, passed_on, place_of, shared, taught, wed,
    Affair, TownV,
};
use crate::world::Ground;
use vstd::prelude::*;

verus! {

/// The same creature in the same place, with no route it did not have.
pub open spec fn same_self(after: CreatureV, before: CreatureV) -> bool {
    &&& after.id == before.id
    &&& after.birth_tick == before.birth_tick
    &&& after.x == before.x
    &&& after.y == before.y
    &&& after.plan matches Some(p) ==> before.plan matches Some(q) && p.steps == q.steps
}

pub open spec fn people_kept(after: Seq<CreatureV>, before: Seq<CreatureV>) -> bool {
    after.len() == before.len() && forall|i: int|
        0 <= i < after.len() ==> same_self(#[trigger] after[i], before[i])
}

/// Whether one creature is fit to be in the list.
pub open spec fn is_sound(g: Ground, c: CreatureV, next_id: i64) -> bool {
    c.id < next_id && stands(g, c) && timely(c.birth_tick as int)
}

/// A population in ascending order of id, every one of it on the map.
pub open spec fn sound(g: Ground, people: Seq<CreatureV>, next_id: i64) -> bool {
    ids_ascend(people) && forall|i: int| 0 <= i < people.len() ==> is_sound(g, #[trigger] people[i], next_id)
}

pub proof fn lemma_kept_is_sound(g: Ground, after: Seq<CreatureV>, before: Seq<CreatureV>, next_id: i64)
    requires
        sound(g, before, next_id),
        people_kept(after, before),
    ensures
        sound(g, after, next_id),
{
    assert forall|i: int| 0 <= i < after.len() implies is_sound(g, #[trigger] after[i], next_id) by {
        assert(same_self(after[i], before[i]));
        assert(is_sound(g, before[i], next_id));
    }
    assert forall|i: int, j: int| 0 <= i < j < after.len() implies (#[trigger] after[i]).id < (#[trigger] after[j]).id by {
        assert(same_self(after[i], before[i]));
        assert(same_self(after[j], before[j]));
    }
}

pub proof fn lemma_kept_again(c: Seq<CreatureV>, b: Seq<CreatureV>, a: Seq<CreatureV>)
    requires
        people_kept(c, b),
        people_kept(b, a),
    ensures
        people_kept(c, a),
{
    assert forall|i: int| 0 <= i < c.len() implies same_self(#[trigger] c[i], a[i]) by {
        assert(same_self(b[i], a[i]));
    }
}

/// One creature changed but still itself.
pub proof fn lemma_kept_update(a: Seq<CreatureV>, i: int, c: CreatureV)
    requires
        0 <= i < a.len(),
        same_self(c, a[i]),
    ensures
        people_kept(a.update(i, c), a),
{
    assert forall|j: int| 0 <= j < a.len() implies same_self(#[trigger] a.update(i, c)[j], a[j]) by {
        if j == i {
            assert(a.update(i, c)[j] == c);
        }
    }
}

pub proof fn lemma_season_keeps(a: Season, g: Ground, cfg: &WorldConfig, tick: i64)
    ensures
        people_kept(turned(a, g, cfg, tick).people, a.people),
{
    let after = turned(a, g, cfg, tick).people;
    assert forall|i: int| 0 <= i < after.len() implies same_self(#[trigger] after[i], a.people[i]) by {
        assert(after[i] == rotted(a.people[i], tick, cfg));
    }
}

proof fn lemma_plague_keeps(
    people: Seq<CreatureV>,
    n: nat,
    cfg: &WorldConfig,
    tick: i64,
    rng: crate::chance::Stream,
    log: Seq<crate::event::EventV>,
)
    requires
        n <= people.len(),
    ensures
        people_kept(plagued(people, n, cfg, tick, rng, log).0, people),
    decreases n,
{
    if n > 0 {
        lemma_plague_keeps(people, (n - 1) as nat, cfg, tick, rng, log);
        let (so_far, said, s) = plagued(people, (n - 1) as nat, cfg, tick, rng, log);
        let (c, e, t) = sickened(so_far[n - 1], cfg, tick, s);
        lemma_kept_update(so_far, n - 1, c);
        lemma_kept_again(so_far.update(n - 1, c), so_far, people);
    }
}

pub proof fn lemma_needs_keep(
    people: Seq<CreatureV>,
    structures: Seq<Structure>,
    cfg: &WorldConfig,
    tick: i64,
    rng: crate::chance::Stream,
    log: Seq<crate::event::EventV>,
)
    ensures
        people_kept(needs_met(people, structures, cfg, tick, rng, log).0, people),
{
    let hungry = people.map_values(|c: CreatureV| decayed(c, structures, cfg, tick));
    assert forall|i: int| 0 <= i < hungry.len() implies same_self(#[trigger] hungry[i], people[i]) by {
        assert(hungry[i] == decayed(people[i], structures, cfg, tick));
    }
    let risen = hungry.map_values(|c: CreatureV| dawned(c, cfg));
    assert forall|i: int| 0 <= i < risen.len() implies same_self(#[trigger] risen[i], hungry[i]) by {
        assert(risen[i] == dawned(hungry[i], cfg));
    }
    lemma_kept_again(risen, hungry, people);
    let said = log + crate::needs::exposures(hungry, cfg, tick);
    if crate::economy::hour_of(tick) == cfg.actions.night_end_hour {
        lemma_plague_keeps(risen, people.len(), cfg, tick, rng, said);
        lemma_kept_again(plagued(risen, people.len(), cfg, tick, rng, said).0, risen, people);
    } else {
        lemma_plague_keeps(hungry, people.len(), cfg, tick, rng, log);
        lemma_kept_again(plagued(hungry, people.len(), cfg, tick, rng, log).0, hungry, people);
    }
}

pub proof fn lemma_review_keeps(people: Seq<CreatureV>, crit: Num, tick: i64)
    ensures
        people_kept(people.map_values(|c: CreatureV| reviewed(c, crit, tick).c), people),
{
    let after = people.map_values(|c: CreatureV| reviewed(c, crit, tick).c);
    assert forall|i: int| 0 <= i < after.len() implies same_self(#[trigger] after[i], people[i]) by {
        assert(after[i] == reviewed(people[i], crit, tick).c);
    }
}

proof fn lemma_with_keeps(a: Affair, i: int, c: CreatureV)
    requires
        0 <= i < a.town.people.len(),
        same_self(c, a.town.people[i]),
    ensures
        people_kept(a.with(i, c).town.people, a.town.people),
{
    lemma_kept_update(a.town.people, i, c);
}

proof fn lemma_join_keeps(a: Affair, creature: i64, home: i64, tick: i64)
    ensures
        people_kept(joined(a, creature, home, tick).town.people, a.town.people),
{
    let i = place_of(a.town.people, creature);
    lemma_place(a.town.people, creature);
    if i < a.town.people.len() {
        lemma_with_keeps(a, i, CreatureV { household_id: Some(home), dirty: true, ..a.town.people[i] });
    }
}

proof fn lemma_wedding_keeps(a: Affair, x: i64, y: i64, tick: i64)
    ensures
        people_kept(wed(a, x, y, tick).town.people, a.town.people),
{
    let people = a.town.people;
    let (i, j) = (place_of(people, x), place_of(people, y));
    lemma_place(people, x);
    lemma_place(people, y);
    if i < people.len() && j < people.len() {
        let b = a.with(i, CreatureV { mate_id: Some(y), paired_tick: Some(tick), dirty: true, ..people[i] });
        let c = b.with(j, CreatureV { mate_id: Some(x), paired_tick: Some(tick), dirty: true, ..b.town.people[j] });
        let d = Affair {
            town: TownV {
                offers: c.town.offers.filter(clear_of(x)).filter(clear_of(y)),
                bonds: crate::social::bonded_both(
                    c.town.bonds,
                    x,
                    y,
                    crate::num::num(crate::town::PAIRED),
                    Some(crate::social::RelKind::Mate),
                    tick,
                ),
                ..c.town
            },
            ..c
        };
        lemma_with_keeps(a, i, CreatureV { mate_id: Some(y), paired_tick: Some(tick), dirty: true, ..people[i] });
        lemma_with_keeps(b, j, CreatureV { mate_id: Some(x), paired_tick: Some(tick), dirty: true, ..b.town.people[j] });
        lemma_kept_again(c.town.people, b.town.people, people);
        match (d.town.people[i].household_id, d.town.people[j].household_id) {
            (Some(h), None) => {
                lemma_join_keeps(d, y, h, tick);
                lemma_kept_again(joined(d, y, h, tick).town.people, d.town.people, people);
            },
            (None, Some(h)) => {
                lemma_join_keeps(d, x, h, tick);
                lemma_kept_again(joined(d, x, h, tick).town.people, d.town.people, people);
            },
            _ => {},
        }
    }
}

proof fn lemma_handing_keeps(a: Affair, from: i64, to: i64, quantity: Num, to_infant: bool, tick: i64)
    ensures
        people_kept(handed_over(a, from, to, quantity, to_infant, tick).town.people, a.town.people),
{
    let people = a.town.people;
    let after = handed_over(a, from, to, quantity, to_infant, tick).town.people;
    lemma_place(people, from);
    lemma_place(people, to);
    assert(after.len() == people.len());
    assert forall|k: int| 0 <= k < after.len() implies same_self(#[trigger] after[k], people[k]) by {}
}

proof fn lemma_telling_keeps(
    people: Seq<CreatureV>,
    from: i64,
    to: i64,
    channel: Channel,
    topic: Option<BeliefKind>,
    k: &KnowledgeConfig,
    tick: i64,
)
    ensures
        people_kept(passed_on(people, from, to, channel, topic, k, tick).0, people),
{
    lemma_place(people, from);
    lemma_place(people, to);
    let after = passed_on(people, from, to, channel, topic, k, tick).0;
    assert forall|i: int| 0 <= i < after.len() implies same_self(#[trigger] after[i], people[i]) by {}
}

proof fn lemma_sharing_keeps(a: Affair, from: i64, to: i64, topic: Option<BeliefKind>, k: &KnowledgeConfig, tick: i64)
    ensures
        people_kept(shared(a, from, to, topic, k, tick).town.people, a.town.people),
{
    lemma_telling_keeps(a.town.people, from, to, Channel::Share, topic, k, tick);
    let told = passed_on(a.town.people, from, to, Channel::Share, topic, k, tick).0;
    let i = place_of(told, from);
    lemma_place(told, from);
    let c = CreatureV { shared_count: crate::town::bump(told[i].shared_count), ..told[i] };
    if i < told.len() {
        lemma_kept_update(told, i, c);
        lemma_kept_again(told.update(i, c), told, a.town.people);
    }
}

proof fn lemma_teaching_keeps(a: Affair, from: i64, to: i64, k: &KnowledgeConfig, tick: i64)
    ensures
        people_kept(taught(a, from, to, k, tick).town.people, a.town.people),
{
    lemma_telling_keeps(a.town.people, from, to, Channel::Teach, None, k, tick);
    let told = passed_on(a.town.people, from, to, Channel::Teach, None, k, tick).0;
    let i = place_of(told, from);
    lemma_place(told, from);
    let c = CreatureV { taught_count: crate::town::bump(told[i].taught_count), ..told[i] };
    if i < told.len() {
        lemma_kept_update(told, i, c);
        lemma_kept_again(told.update(i, c), told, a.town.people);
    }
}

pub proof fn lemma_intents_keep(a: Affair, intents: Seq<SocialIntent>, n: nat, k: &KnowledgeConfig, tick: i64)
    ensures
        people_kept(intents_applied(a, intents, n, k, tick).town.people, a.town.people),
    decreases n,
{
    if n > 0 {
        lemma_intents_keep(a, intents, (n - 1) as nat, k, tick);
        let b = intents_applied(a, intents, (n - 1) as nat, k, tick);
        let intent = intents[n - 1];
        match intent {
            SocialIntent::Accept { from, to } => lemma_wedding_keeps(b, from, to, tick),
            SocialIntent::GiveFood { from, to, quantity } => lemma_handing_keeps(b, from, to, quantity, false, tick),
            SocialIntent::FeedInfant { from, to, quantity } => lemma_handing_keeps(b, from, to, quantity, true, tick),
            SocialIntent::JoinHousehold { creature, household } => lemma_join_keeps(b, creature, household, tick),
            SocialIntent::LeaveHousehold { creature } => {
                let i = place_of(b.town.people, creature);
                lemma_place(b.town.people, creature);
                if i < b.town.people.len() {
                    lemma_with_keeps(b, i, CreatureV { household_id: None, dirty: true, ..b.town.people[i] });
                }
            },
            SocialIntent::Share { from, to, topic } => lemma_sharing_keeps(b, from, to, topic, k, tick),
            SocialIntent::Teach { from, to } => lemma_teaching_keeps(b, from, to, k, tick),
            _ => {},
        }
        lemma_kept_again(intent_applied(b, intent, k, tick).town.people, b.town.people, a.town.people);
    }
}

proof fn lemma_overheard_keeps(a: Affair, pairs: Seq<(i64, i64)>, n: nat, k: &KnowledgeConfig, tick: i64)
    ensures
        people_kept(overheard(a, pairs, n, k, tick).town.people, a.town.people),
    decreases n,
{
    if n > 0 {
        lemma_overheard_keeps(a, pairs, (n - 1) as nat, k, tick);
        let b = overheard(a, pairs, (n - 1) as nat, k, tick);
        let (from, to) = pairs[n - 1];
        lemma_telling_keeps(b.town.people, from, to, Channel::Observation, None, k, tick);
        let after = passed_on(b.town.people, from, to, Channel::Observation, None, k, tick);
        lemma_kept_again(after.0, b.town.people, a.town.people);
    }
}

pub proof fn lemma_ambient_keeps(
    a: Affair,
    crowd: CrowdV,
    cfg: &WorldConfig,
    tick: i64,
    rng: crate::chance::Stream,
)
    ensures
        people_kept(ambient(a, crowd, cfg, tick, rng).0.town.people, a.town.people),
{
    let radius = if cfg.knowledge.observation_radius < crate::courting::EARSHOT {
        cfg.knowledge.observation_radius
    } else {
        crate::courting::EARSHOT
    };
    let (pairs, s) = overhearing(
        a.town.people,
        a.town.people.len(),
        crowd,
        cfg.knowledge.ambient_share_chance,
        radius,
        rng,
    );
    lemma_overheard_keeps(a, pairs, pairs.len(), &cfg.knowledge, tick);
}

proof fn lemma_prospects(people: Seq<CreatureV>, n: nat)
    requires
        n <= people.len() <= usize::MAX,
    ensures
        forall|k: int| 0 <= k < prospects(people, n).len() ==> (#[trigger] prospects(people, n)[k]).0 < people.len(),
    decreases n,
{
    if n > 0 {
        lemma_prospects(people, (n - 1) as nat);
        let before = prospects(people, (n - 1) as nat);
        let after = prospects(people, n);
        assert forall|k: int| 0 <= k < after.len() implies (#[trigger] after[k]).0 < people.len() by {
            if k < before.len() {
                assert(after[k] == before[k]);
            }
        }
    }
}

proof fn lemma_all_tried_keeps(a: Affair, list: Seq<(usize, usize, i64)>, n: nat, cfg: &WorldConfig, tick: i64)
    requires
        n <= list.len(),
        forall|k: int| 0 <= k < list.len() ==> (#[trigger] list[k]).0 < a.town.people.len(),
    ensures
        people_kept(all_tried(a, list, n, cfg, tick).town.people, a.town.people),
    decreases n,
{
    if n > 0 {
        lemma_all_tried_keeps(a, list, (n - 1) as nat, cfg, tick);
        let b = all_tried(a, list, (n - 1) as nat, cfg, tick);
        let p = list[n - 1];
        let after = tried(b, p, cfg, tick);
        assert(p.0 < b.town.people.len());
        assert forall|i: int| 0 <= i < after.town.people.len() implies same_self(
            #[trigger] after.town.people[i],
            b.town.people[i],
        ) by {}
        lemma_kept_again(after.town.people, b.town.people, a.town.people);
    }
}

pub proof fn lemma_conceiving_keeps(a: Affair, cfg: &WorldConfig, tick: i64)
    requires
        a.town.people.len() <= usize::MAX,
    ensures
        people_kept(conceived(a, cfg, tick).town.people, a.town.people),
{
    let list = prospects(a.town.people, a.town.people.len());
    lemma_prospects(a.town.people, a.town.people.len());
    lemma_all_tried_keeps(a, list, list.len(), cfg, tick);
}

pub proof fn lemma_labour_keeps(k: Cradle, i: int, cfg: &WorldConfig, tick: i64)
    requires
        0 <= i < k.town.people.len(),
    ensures
        people_kept(laboured(k, i, cfg, tick).0.town.people, k.town.people),
{
    let m = k.town.people[i];
    lemma_kept_update(
        k.town.people,
        i,
        CreatureV { pregnancy: None, last_birth_tick: Some(tick), dirty: true, ..m },
    );
}

/// Somebody new at the end of the list.
pub proof fn lemma_newcomer_is_sound(g: Ground, people: Seq<CreatureV>, next_id: i64, c: CreatureV)
    requires
        sound(g, people, next_id),
        next_id < i64::MAX,
        c.id == next_id,
        stands(g, c),
        timely(c.birth_tick as int),
    ensures
        sound(g, people.push(c), (next_id + 1) as i64),
{
    let after = people.push(c);
    assert forall|i: int| 0 <= i < after.len() implies is_sound(g, #[trigger] after[i], (next_id + 1) as i64) by {
        if i < people.len() {
            assert(is_sound(g, people[i], next_id));
        }
    }
    assert forall|i: int, j: int| 0 <= i < j < after.len() implies (#[trigger] after[i]).id < (#[trigger] after[j]).id by {
        assert(is_sound(g, people[i], next_id));
    }
}

pub proof fn lemma_spawned_is_sound(b: Brood, p: Place, x: u32, y: u32, sex: crate::creature::Sex, age: i64, gen: i32)
    requires
        sound(p.ground, b.people, b.next_id),
        b.next_id < i64::MAX,
        p.ground.inside(x as int, y as int),
        timely(p.tick - age),
    ensures
        sound(
            p.ground,
            spawned(b, p, x, y, sex, age, gen).people,
            spawned(b, p, x, y, sex, age, gen).next_id,
        ),
{
    let after = spawned(b, p, x, y, sex, age, gen);
    lemma_newcomer_is_sound(p.ground, b.people, b.next_id, after.people.last());
    assert(after.people == b.people.push(after.people.last()));
}

pub proof fn lemma_delivery_is_sound(k: Cradle, p: Place, l: Labour, z: Deviates)
    requires
        sound(p.ground, k.town.people, k.next_id),
        k.next_id < i64::MAX,
        p.ground.inside(l.x as int, l.y as int),
        timely(p.tick as int),
        l.place < k.town.people.len(),
    ensures
        sound(p.ground, delivered(k, p, l, z).town.people, delivered(k, p, l, z).next_id),
        delivered(k, p, l, z).next_id == k.next_id + 1,
{
    let a = Cradle { rng: k.rng.stepped(), ..k };
    let sex = crate::nursery::sex_of(k.rng.coin_here());
    lemma_spawned_is_sound(a.brood(), p, l.x, l.y, sex, 0, crate::town::bump(l.generation));
    let b = a.joined_by(spawned(a.brood(), p, l.x, l.y, sex, 0, crate::town::bump(l.generation)));
    let after = delivered(k, p, l, z).town.people;
    assert(after.len() == b.town.people.len());
    assert forall|i: int| 0 <= i < after.len() implies same_self(#[trigger] after[i], b.town.people[i]) by {}
    lemma_kept_is_sound(p.ground, after, b.town.people, b.next_id);
}

/// Whoever outlives a tick is sound, and in order.
pub proof fn lemma_living_are_sound(g: Ground, t: Toll, people: Seq<CreatureV>, n: nat, tick: i64, next_id: i64)
    requires
        sound(g, people, next_id),
        n <= people.len(),
        t.living.len() == 0,
    ensures
        sound(g, toll_of(t, people, n, tick).living, next_id),
        toll_of(t, people, n, tick).living.len() <= n,
        forall|i: int|
            0 <= i < toll_of(t, people, n, tick).living.len() ==> n > 0 && (#[trigger] toll_of(
                t,
                people,
                n,
                tick,
            ).living[i]).id <= people[n - 1].id,
    decreases n,
{
    if n > 0 {
        lemma_living_are_sound(g, t, people, (n - 1) as nat, tick, next_id);
        let before = toll_of(t, people, (n - 1) as nat, tick).living;
        let after = toll_of(t, people, n, tick).living;
        let c = people[n - 1];
        assert(is_sound(g, c, next_id));
        assert forall|i: int| 0 <= i < before.len() implies (#[trigger] before[i]).id < c.id by {
            assert(n - 1 > 0);
            assert(people[n - 2].id < people[n - 1].id);
        }
        assert forall|i: int| 0 <= i < after.len() implies is_sound(g, #[trigger] after[i], next_id) && after[i].id
            <= c.id by {
            if i < before.len() {
                assert(after[i] == before[i]);
                assert(is_sound(g, before[i], next_id));
            }
        }
        assert forall|i: int, j: int| 0 <= i < j < after.len() implies (#[trigger] after[i]).id < (
        #[trigger] after[j]).id by {
            assert(after[i] == before[i]);
            if j < before.len() {
                assert(after[j] == before[j]);
            }
        }
    }
}

proof fn lemma_survivor_keeps(a: Affair, i: int, id: i64, tick: i64)
    requires
        0 <= i < a.town.people.len(),
    ensures
        people_kept(survived(a, i, id, tick).town.people, a.town.people),
{
    let c = a.town.people[i];
    let w = widowed(c, id);
    let b = a.with(i, w);
    let heir = taken_in_by(b.town.people, w);
    lemma_with_keeps(a, i, w);
    lemma_with_keeps(b, i, CreatureV { guardian_id: heir, dirty: true, ..w });
    lemma_kept_again(
        b.with(i, CreatureV { guardian_id: heir, dirty: true, ..w }).town.people,
        b.town.people,
        a.town.people,
    );
}

proof fn lemma_bereavement_keeps(a: Affair, n: nat, id: i64, tick: i64)
    requires
        n <= a.town.people.len(),
    ensures
        people_kept(bereaved(a, n, id, tick).town.people, a.town.people),
    decreases n,
{
    if n > 0 {
        lemma_bereavement_keeps(a, (n - 1) as nat, id, tick);
        let b = bereaved(a, (n - 1) as nat, id, tick);
        lemma_survivor_keeps(b, n - 1, id, tick);
        lemma_kept_again(survived(b, n - 1, id, tick).town.people, b.town.people, a.town.people);
    }
}

proof fn lemma_mourning_keeps(a: Affair, dead: Seq<CreatureV>, n: nat, tick: i64)
    ensures
        people_kept(all_mourned(a, dead, n, tick).town.people, a.town.people),
    decreases n,
{
    if n > 0 {
        lemma_mourning_keeps(a, dead, (n - 1) as nat, tick);
        let b = all_mourned(a, dead, (n - 1) as nat, tick);
        let id = dead[n - 1].id;
        let c = Affair { town: TownV { offers: b.town.offers.filter(clear_of(id)), ..b.town }, ..b };
        lemma_bereavement_keeps(c, c.town.people.len(), id, tick);
        lemma_kept_again(mourned(b, id, tick).town.people, b.town.people, a.town.people);
    }
}

pub proof fn lemma_estates_keep(a: Affair, structures: Seq<Structure>, dead: Seq<CreatureV>, tick: i64)
    ensures
        people_kept(estates_settled(a, structures, dead, tick).town.people, a.town.people),
{
    lemma_mourning_keeps(a, dead, dead.len(), tick);
    let b = all_mourned(a, dead, dead.len(), tick);
    let estates = left_behind(b.town.homes, b.town.people);
    let c = Affair {
        town: TownV {
            bonds: among_the_living(b.town.bonds, b.town.people),
            homes: b.town.homes.map_values(closing_up(b.town.people, tick)),
            ..b.town
        },
        ..b
    };
    crate::estates::lemma_bequests_leave_people(c, structures, estates, estates.len(), tick);
}

} // verus!
