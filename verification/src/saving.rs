//! What is written when, and what a run resumes from.
//!
//! What goes in every tick is small and append-only. Creature state changes on
//! every creature every tick, so it is written on an interval, and always on
//! death, on pause and at shutdown: nothing that matters is ever only in memory.

use crate::creature::{people_of, Creature, CreatureV};
use crate::economy::{structure_at, Structure, Structures};
use crate::knowledge::Belief;
use crate::lists::{count_where, floor_mod, lemma_count_where_bound, lemma_first_where, lemma_first_where_is};
use crate::records::{count_one, one_more};
use crate::social::{homes_of, Household, HouseholdV};
use std::collections::HashSet;
use vstd::prelude::*;

verus! {

/// Beliefs are written on a rolling basis: a slice of the population each tick
/// rather than all of it at once.
pub const BELIEF_STRIDE: i64 = 120;

/// Whether creature state is written this tick.
pub open spec fn is_checkpoint(force: bool, interval: u32, tick: i64) -> bool {
    force || interval == 0 || tick as int % interval as int == 0
}

/// Whether samples are taken this tick. They are offset from the checkpoint, so
/// the two never land on the same tick.
pub open spec fn is_sample(interval: u32, tick: i64) -> bool {
    interval > 0 && tick as int % interval as int == interval / 2
}

pub fn checkpoint_due(force: bool, interval: u32, tick: i64) -> (r: bool)
    requires
        tick >= 0,
    ensures
        r == is_checkpoint(force, interval, tick),
{
    force || interval == 0 || tick % interval as i64 == 0
}

pub fn sample_due(interval: u32, tick: i64) -> (r: bool)
    requires
        tick >= 0,
    ensures
        r == is_sample(interval, tick),
{
    interval > 0 && tick % interval as i64 == (interval / 2) as i64
}

/// Samples and checkpoints made on the same interval never fall together, unless
/// they are made every tick.
pub proof fn law_samples_miss_checkpoints(interval: u32, tick: i64)
    requires
        interval > 1,
    ensures
        !(is_checkpoint(false, interval, tick) && is_sample(interval, tick)),
{
}

/// A tile by one number.
pub open spec fn tile_key(x: u32, y: u32) -> u64 {
    (y * 0x1_0000_0000 + x) as u64
}

/// The tiles that somebody remembers anything about.
pub open spec fn tiles_of(beliefs: Seq<Belief>) -> Set<u64>
    decreases beliefs.len(),
{
    if beliefs.len() == 0 {
        Set::empty()
    } else {
        tiles_of(beliefs.drop_last()).insert(tile_key(beliefs.last().x, beliefs.last().y))
    }
}

/// The tiles that the living among the first `n` remember. A dead creature's
/// beliefs are not part of what the community knows.
pub open spec fn tiles_known(people: Seq<CreatureV>, n: nat) -> Set<u64>
    decreases n,
{
    if n == 0 {
        Set::empty()
    } else {
        let before = tiles_known(people, (n - 1) as nat);
        if people[n - 1].death_tick is None {
            before.union(tiles_of(people[n - 1].beliefs))
        } else {
            before
        }
    }
}

/// Different tiles have different numbers.
pub proof fn law_tiles_are_told_apart(ax: u32, ay: u32, bx: u32, by: u32)
    requires
        tile_key(ax, ay) == tile_key(bx, by),
    ensures
        ax == bx,
        ay == by,
{
}

fn note_tiles(set: &mut HashSet<u64>, beliefs: &Vec<Belief>)
    ensures
        final(set)@ == old(set)@.union(tiles_of(beliefs@)),
{
    broadcast use vstd::std_specs::hash::group_hash_axioms;

    let ghost start = set@;
    assert(beliefs@.take(0).len() == 0);
    assert(start.union(Set::empty()) == start);
    for i in 0..beliefs.len()
        invariant
            set@ == start.union(tiles_of(beliefs@.take(i as int))),
    {
        let ghost seen = tiles_of(beliefs@.take(i as int));
        proof {
            assert(beliefs@.take(i + 1).drop_last() == beliefs@.take(i as int));
        }
        let key: u64 = beliefs[i].y as u64 * 0x1_0000_0000 + beliefs[i].x as u64;
        set.insert(key);
        assert(start.union(seen).insert(key) == start.union(seen.insert(key)));
    }
    assert(beliefs@.take(beliefs@.len() as int) == beliefs@);
}

/// How many distinct tiles the living know of between them; the lowest 32 bits
/// of it.
pub fn known_tiles(creatures: &Vec<Creature>) -> (n: u32)
    ensures
        n == tiles_known(people_of(creatures@), creatures@.len()).len() % 0x1_0000_0000,
{
    broadcast use vstd::std_specs::hash::group_hash_axioms;

    let ghost people = people_of(creatures@);
    let mut set: HashSet<u64> = HashSet::new();
    assert(set@ == tiles_known(people, 0));
    for i in 0..creatures.len()
        invariant
            people == people_of(creatures@),
            set@ == tiles_known(people, i as nat),
    {
        assert(people[i as int] == creatures@[i as int]@);
        if creatures[i].is_alive() {
            note_tiles(&mut set, &creatures[i].beliefs);
        }
    }
    (set.len() as u64 % 0x1_0000_0000) as u32
}

/// Whether somebody's beliefs are written this tick.
pub open spec fn is_in_slice(id: i64, tick: i64, force: bool) -> bool {
    force || id as int % BELIEF_STRIDE as int == tick as int % BELIEF_STRIDE as int
}

/// Those among the first `n` whose beliefs are written this tick.
pub open spec fn slice_of(people: Seq<CreatureV>, n: nat, tick: i64, force: bool) -> Seq<usize>
    decreases n,
{
    if n == 0 {
        Seq::empty()
    } else {
        let before = slice_of(people, (n - 1) as nat, tick, force);
        if is_in_slice(people[n - 1].id, tick, force) {
            before.push((n - 1) as usize)
        } else {
            before
        }
    }
}

pub fn belief_rows(creatures: &Vec<Creature>, tick: i64, force: bool) -> (rows: Vec<usize>)
    ensures
        rows@ == slice_of(people_of(creatures@), creatures@.len(), tick, force),
{
    let ghost people = people_of(creatures@);
    let slot = floor_mod(tick, BELIEF_STRIDE);
    let mut rows: Vec<usize> = Vec::new();
    for i in 0..creatures.len()
        invariant
            people == people_of(creatures@),
            slot == tick as int % BELIEF_STRIDE as int,
            rows@ == slice_of(people, i as nat, tick, force),
    {
        assert(people[i as int] == creatures@[i as int]@);
        if force || floor_mod(creatures[i].id, BELIEF_STRIDE) == slot {
            rows.push(i);
        }
    }
    rows
}

/// Everybody's beliefs are written within any run of as many ticks as the
/// stride.
pub proof fn law_no_belief_waits_longer_than_the_stride(id: i64, from: i64)
    requires
        from <= i64::MAX - BELIEF_STRIDE,
    ensures
        exists|t: i64| from <= t < from + BELIEF_STRIDE && #[trigger] is_in_slice(id, t, false),
{
    let ahead = (id as int - from as int) % BELIEF_STRIDE as int;
    let t = (from + ahead) as i64;
    assert((from as int + ahead) % 120 == id as int % 120) by (nonlinear_arith)
        requires
            ahead == (id as int - from as int) % 120,
    ;
    assert(is_in_slice(id, t, false));
}

/// Those among the first `n` who are named in a list.
pub open spec fn named_in(people: Seq<CreatureV>, n: nat, ids: Seq<i64>) -> Seq<usize>
    decreases n,
{
    if n == 0 {
        Seq::empty()
    } else {
        let before = named_in(people, (n - 1) as nat, ids);
        if ids.contains(people[n - 1].id) {
            before.push((n - 1) as usize)
        } else {
            before
        }
    }
}

fn is_listed(ids: &Vec<i64>, id: i64) -> (r: bool)
    ensures
        r == ids@.contains(id),
{
    for i in 0..ids.len()
        invariant
            forall|j: int| 0 <= j < i ==> ids@[j] != id,
    {
        if ids[i] == id {
            return true;
        }
    }
    false
}

/// Where the newly born stand. They need a row before anything can refer to
/// them.
pub fn born_rows(creatures: &Vec<Creature>, ids: &Vec<i64>) -> (rows: Vec<usize>)
    ensures
        rows@ == named_in(people_of(creatures@), creatures@.len(), ids@),
{
    let ghost people = people_of(creatures@);
    let mut rows: Vec<usize> = Vec::new();
    for i in 0..creatures.len()
        invariant
            people == people_of(creatures@),
            rows@ == named_in(people, i as nat, ids@),
    {
        assert(people[i as int] == creatures@[i as int]@);
        if is_listed(ids, creatures[i].id) {
            rows.push(i);
        }
    }
    rows
}

/// Those among the first `n` homes that differ from what is stored.
pub open spec fn dirty_in(homes: Seq<HouseholdV>, n: nat) -> Seq<usize>
    decreases n,
{
    if n == 0 {
        Seq::empty()
    } else {
        let before = dirty_in(homes, (n - 1) as nat);
        if homes[n - 1].dirty {
            before.push((n - 1) as usize)
        } else {
            before
        }
    }
}

pub open spec fn cleaned(h: HouseholdV) -> HouseholdV {
    HouseholdV { dirty: false, ..h }
}

pub open spec fn cleaning() -> spec_fn(HouseholdV) -> HouseholdV {
    |h: HouseholdV| cleaned(h)
}

/// The homes that differ from what is stored, by place.
pub fn dirty_homes(homes: &Vec<Household>) -> (rows: Vec<usize>)
    ensures
        rows@ == dirty_in(homes_of(homes@), homes@.len()),
{
    let ghost all = homes_of(homes@);
    let mut rows: Vec<usize> = Vec::new();
    for i in 0..homes.len()
        invariant
            all == homes_of(homes@),
            rows@ == dirty_in(all, i as nat),
    {
        assert(all[i as int] == homes@[i as int]@);
        if homes[i].dirty {
            rows.push(i);
        }
    }
    rows
}

/// Counts every home as stored.
pub fn clean_homes(homes: &mut Vec<Household>)
    ensures
        homes_of(final(homes)@) == homes_of(old(homes)@).map_values(cleaning()),
{
    let ghost start = homes_of(homes@);
    let n: usize = homes.len();
    for i in 0..n
        invariant
            n == homes@.len() == start.len(),
            forall|j: int| 0 <= j < i ==> #[trigger] homes_of(homes@)[j] == cleaned(start[j]),
            forall|j: int| i <= j < n ==> #[trigger] homes_of(homes@)[j] == start[j],
    {
        let ghost before = homes@;
        assert(homes_of(before)[i as int] == start[i as int]);
        homes[i].dirty = false;
        proof {
            assert(homes@ == before.update(i as int, homes@[i as int]));
            assert(homes_of(homes@) == homes_of(before).update(i as int, homes@[i as int]@));
        }
    }
    assert(homes_of(homes@) == start.map_values(cleaning()));
}

/// The structures once the first `n` of a population are back inside them.
/// Occupancy is a fact about who is where: keeping a second copy of it would be a
/// second thing to get out of step.
pub open spec fn occupied(structures: Seq<Structure>, people: Seq<CreatureV>, n: nat) -> Seq<Structure>
    decreases n,
{
    if n == 0 {
        structures
    } else {
        let before = occupied(structures, people, (n - 1) as nat);
        match people[n - 1].in_shelter {
            Some(id) if structure_at(before, id) < before.len() => {
                let i = structure_at(before, id);
                before.update(i, Structure { occupants: one_more(before[i].occupants), ..before[i] })
            },
            _ => before,
        }
    }
}

pub fn seat_occupants(structures: &mut Structures, creatures: &Vec<Creature>)
    ensures
        final(structures).items@ == occupied(old(structures).items@, people_of(creatures@), creatures@.len()),
        final(structures).next_id == old(structures).next_id,
{
    let ghost start = structures.items@;
    let ghost people = people_of(creatures@);
    for i in 0..creatures.len()
        invariant
            people == people_of(creatures@),
            structures.items@ == occupied(start, people, i as nat),
            structures.next_id == old(structures).next_id,
    {
        assert(people[i as int] == creatures@[i as int]@);
        if let Some(id) = creatures[i].in_shelter {
            let ghost before = structures.items@;
            let at = structures.position(id);
            if at < structures.items.len() {
                let mut s = structures.items[at];
                s.occupants = count_one(s.occupants);
                structures.items.set(at, s);
            }
        }
    }
}

/// Everything is saved when it is asked for, when every tick is to be, and when the
/// interval has come round; otherwise not.
pub proof fn law_when_everything_is_saved(interval: u32, tick: i64)
    ensures
        is_checkpoint(true, interval, tick),
        is_checkpoint(false, 0, tick),
        interval > 0 ==> (is_checkpoint(false, interval, tick) <==> tick as int % interval as int == 0),
{
}

/// Of a slice, of the named and of the changed, exactly those are saved.
pub proof fn law_exactly_those_are_saved(
    people: Seq<CreatureV>,
    homes: Seq<HouseholdV>,
    ids: Seq<i64>,
    tick: i64,
    force: bool,
    i: int,
)
    requires
        people.len() <= usize::MAX,
        homes.len() <= usize::MAX,
    ensures
        0 <= i < people.len() ==> (named_in(people, people.len(), ids).contains(i as usize) <==> ids.contains(people[i].id)),
        0 <= i < people.len() ==> (slice_of(people, people.len(), tick, force).contains(i as usize) <==> is_in_slice(
            people[i].id,
            tick,
            force,
        )),
        0 <= i < homes.len() ==> (dirty_in(homes, homes.len()).contains(i as usize) <==> homes[i].dirty),
        is_in_slice(i as i64, tick, true),
{
    if 0 <= i < people.len() {
        lemma_named(people, people.len(), ids, i);
        lemma_sliced(people, people.len(), tick, force, i);
    }
    if 0 <= i < homes.len() {
        lemma_dirty(homes, homes.len(), i);
    }
}

proof fn lemma_pushed(before: Seq<usize>, last: usize, i: usize)
    ensures
        before.push(last).contains(i) <==> before.contains(i) || i == last,
{
    let after = before.push(last);
    assert(after[before.len() as int] == last);
    if before.contains(i) {
        let k = before.index_of(i);
        assert(after[k] == i);
    }
    if after.contains(i) && i != last {
        let k = after.index_of(i);
        assert(before[k] == i);
    }
}

proof fn lemma_named(people: Seq<CreatureV>, n: nat, ids: Seq<i64>, i: int)
    requires
        0 <= i < people.len() <= usize::MAX,
        n <= people.len(),
    ensures
        named_in(people, n, ids).contains(i as usize) <==> i < n && ids.contains(people[i].id),
    decreases n,
{
    if n > 0 {
        lemma_named(people, (n - 1) as nat, ids, i);
        lemma_pushed(named_in(people, (n - 1) as nat, ids), (n - 1) as usize, i as usize);
    }
}

proof fn lemma_sliced(people: Seq<CreatureV>, n: nat, tick: i64, force: bool, i: int)
    requires
        0 <= i < people.len() <= usize::MAX,
        n <= people.len(),
    ensures
        slice_of(people, n, tick, force).contains(i as usize) <==> i < n && is_in_slice(people[i].id, tick, force),
    decreases n,
{
    if n > 0 {
        lemma_sliced(people, (n - 1) as nat, tick, force, i);
        lemma_pushed(slice_of(people, (n - 1) as nat, tick, force), (n - 1) as usize, i as usize);
    }
}

proof fn lemma_dirty(homes: Seq<HouseholdV>, n: nat, i: int)
    requires
        0 <= i < homes.len() <= usize::MAX,
        n <= homes.len(),
    ensures
        dirty_in(homes, n).contains(i as usize) <==> i < n && homes[i].dirty,
    decreases n,
{
    if n > 0 {
        lemma_dirty(homes, (n - 1) as nat, i);
        lemma_pushed(dirty_in(homes, (n - 1) as nat), (n - 1) as usize, i as usize);
    }
}

/// Everybody inside is counted: each structure houses as many more as say they are in
/// it, and nothing else about it changes.
pub proof fn law_everybody_inside_is_counted(structures: Seq<Structure>, people: Seq<CreatureV>, n: nat, k: int)
    requires
        n <= people.len(),
        0 <= k < structures.len(),
        forall|i: int, j: int|
            0 <= i < j < structures.len() ==> (#[trigger] structures[i]).id != (#[trigger] structures[j]).id,
        structures[k].occupants + n <= u32::MAX,
    ensures
        ({
            let after = occupied(structures, people, n);
            &&& after.len() == structures.len()
            &&& after[k] == (Structure { occupants: after[k].occupants, ..structures[k] })
            &&& after[k].occupants == structures[k].occupants + count_where(
                people.take(n as int),
                |c: CreatureV| c.in_shelter == Some(structures[k].id),
            )
        }),
        forall|j: int| 0 <= j < structures.len() ==> (#[trigger] occupied(structures, people, n)[j]).id == structures[j].id,
        occupied(structures, people, n).len() == structures.len(),
    decreases n,
{
    let inside = |c: CreatureV| c.in_shelter == Some(structures[k].id);
    if n > 0 {
        law_everybody_inside_is_counted(structures, people, (n - 1) as nat, k);
        let before = occupied(structures, people, (n - 1) as nat);
        let c = people[n - 1];
        assert(people.take(n as int).drop_last() =~= people.take(n - 1));
        assert(people.take(n as int).last() == c);
        lemma_count_where_bound(people.take(n - 1), inside);
        if let Some(id) = c.in_shelter {
            let named = |t: Structure| t.id == id;
            lemma_first_where(before, named);
            if structures[k].id == id {
                assert forall|j: int| 0 <= j < k implies !named(#[trigger] before[j]) by {
                    assert(before[j].id == structures[j].id);
                    assert(structures[j].id != structures[k].id);
                }
                assert(before[k].id == structures[k].id);
                lemma_first_where_is(before, named, k);
            } else {
                let i = structure_at(before, id);
                if i < before.len() {
                    assert(named(before[i]));
                    assert(before[k].id == structures[k].id);
                }
            }
        }
    } else {
        assert(people.take(0) =~= Seq::<CreatureV>::empty());
        assert(count_where(people.take(0), inside) == 0);
    }
}

/// A tile is known exactly if somebody who is alive has a belief about it.
pub proof fn law_what_the_living_know(people: Seq<CreatureV>, n: nat, key: u64)
    requires
        n <= people.len(),
    ensures
        tiles_known(people, n).contains(key) <==> exists|i: int|
            0 <= i < n && (#[trigger] people[i]).death_tick is None && tiles_of(people[i].beliefs).contains(key),
    decreases n,
{
    if n > 0 {
        law_what_the_living_know(people, (n - 1) as nat, key);
        if tiles_known(people, (n - 1) as nat).contains(key) {
            let i = choose|i: int|
                0 <= i < n - 1 && (#[trigger] people[i]).death_tick is None && tiles_of(people[i].beliefs).contains(key);
            assert(people[i].death_tick is None);
        }
        assert(people[n - 1].id == people[n - 1].id);
    }
}

/// And a belief is about its tile.
pub proof fn law_a_belief_is_about_its_tile(beliefs: Seq<Belief>, key: u64)
    ensures
        tiles_of(beliefs).contains(key) <==> exists|i: int|
            0 <= i < beliefs.len() && tile_key((#[trigger] beliefs[i]).x, beliefs[i].y) == key,
    decreases beliefs.len(),
{
    if beliefs.len() > 0 {
        let shorter = beliefs.drop_last();
        law_a_belief_is_about_its_tile(shorter, key);
        assert(forall|i: int| 0 <= i < shorter.len() ==> #[trigger] beliefs[i] == shorter[i]);
        assert(beliefs[beliefs.len() - 1] == beliefs.last());
        if tiles_of(shorter).contains(key) {
            let i = choose|i: int| 0 <= i < shorter.len() && tile_key((#[trigger] shorter[i]).x, shorter[i].y) == key;
            assert(beliefs[i] == shorter[i]);
        }
    }
}

} // verus!
