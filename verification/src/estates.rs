//! The consequences of death: widowhood, orphaning, and what a household leaves
//! behind when its last member is gone.

use crate::creature::{people_of, weight_of, with_added, Batch, Creature, CreatureV, Inventory, LifeStage};
use crate::economy::{dist2, structure_at, Structure, Structures};
use crate::event::{event_of, Event, EventKind};
use crate::lists::{count_where, first_where, lemma_count_where_bound, lemma_first_where, lemma_first_where_is};
use crate::needs::lemma_people_update;
use crate::num::{num, NOTHING};
use crate::records::TickReport;
use crate::social::{
    clear_of, edge_between, estates_of, estates_view, home_at, homes_of, is_home, lemma_home_at, members_in, reaped, Edge,
    Household, HouseholdV,
};
use crate::town::{affair_of, index_of, is_here, lives_in, say, Affair, Town, TownV};
use std::collections::BTreeMap;
use vstd::prelude::*;

verus! {

/// The lower of two ids, one of which may be missing.
pub open spec fn lower(a: Option<i64>, b: i64) -> Option<i64> {
    match a {
        Some(x) if x <= b => Some(x),
        _ => Some(b),
    }
}

fn lower_of(a: Option<i64>, b: i64) -> (r: Option<i64>)
    ensures
        r == lower(a, b),
{
    match a {
        Some(x) => if x <= b {
            Some(x)
        } else {
            Some(b)
        },
        None => Some(b),
    }
}

/// Somebody of a home, old enough to look after another.
pub open spec fn can_tend(c: CreatureV, home: i64, ward: i64) -> bool {
    c.household_id == Some(home) && c.life_stage != LifeStage::Infant && c.id != ward
}

/// The one with the lowest id among the first `n` who can look after a ward. The
/// household is the natural place to look, which is exactly what a household is
/// for.
pub open spec fn tender_in(people: Seq<CreatureV>, n: nat, home: i64, ward: i64) -> Option<i64>
    decreases n,
{
    if n == 0 {
        None
    } else {
        let before = tender_in(people, (n - 1) as nat, home, ward);
        if can_tend(people[n - 1], home, ward) {
            lower(before, people[n - 1].id)
        } else {
            before
        }
    }
}

fn find_tender(creatures: &Vec<Creature>, home: i64, ward: i64) -> (r: Option<i64>)
    ensures
        r == tender_in(people_of(creatures@), creatures@.len(), home, ward),
{
    let ghost people = people_of(creatures@);
    let mut best: Option<i64> = None;
    for i in 0..creatures.len()
        invariant
            people == people_of(creatures@),
            best == tender_in(people, i as nat, home, ward),
    {
        let c = &creatures[i];
        assert(people[i as int] == c@);
        let here = match c.household_id {
            Some(h) => h == home,
            None => false,
        };
        if here && c.life_stage != LifeStage::Infant && c.id != ward {
            best = lower_of(best, c.id);
        }
    }
    best
}

/// A survivor: no longer the mate of the dead.
pub open spec fn widowed(c: CreatureV, id: i64) -> CreatureV {
    if c.mate_id == Some(id) {
        CreatureV { mate_id: None, dirty: true, ..c }
    } else {
        c
    }
}

/// Who takes somebody in.
pub open spec fn taken_in_by(people: Seq<CreatureV>, c: CreatureV) -> Option<i64> {
    match c.household_id {
        Some(home) => tender_in(people, people.len(), home, c.id),
        None => None,
    }
}

pub open spec fn or_nobody(id: Option<i64>) -> i64 {
    match id {
        Some(id) => id,
        None => 0,
    }
}

/// One survivor after a death.
pub open spec fn survived(a: Affair, i: int, id: i64, tick: i64) -> Affair {
    let c = a.town.people[i];
    let w = widowed(c, id);
    if c.guardian_id == Some(id) {
        let b = a.with(i, w);
        let heir = taken_in_by(b.town.people, w);
        b.with(i, CreatureV { guardian_id: heir, dirty: true, ..w }).noted(
            event_of(tick, EventKind::Orphaned, c.id).with_int("guardian"@, or_nobody(heir) as int),
        )
    } else {
        a.with(i, w)
    }
}

/// The first `n` survivors after a death, one after the other.
pub open spec fn bereaved(a: Affair, n: nat, id: i64, tick: i64) -> Affair
    decreases n,
{
    if n == 0 {
        a
    } else {
        survived(bereaved(a, (n - 1) as nat, id, tick), n - 1, id, tick)
    }
}

/// A town after a death: the dead is nobody's suitor, mate or guardian.
pub open spec fn mourned(a: Affair, id: i64, tick: i64) -> Affair {
    let b = Affair { town: TownV { offers: a.town.offers.filter(clear_of(id)), ..a.town }, ..a };
    bereaved(b, b.town.people.len(), id, tick)
}

/// A town after the first `n` of several deaths.
pub open spec fn all_mourned(a: Affair, dead: Seq<CreatureV>, n: nat, tick: i64) -> Affair
    decreases n,
{
    if n == 0 {
        a
    } else {
        mourned(all_mourned(a, dead, (n - 1) as nat, tick), dead[n - 1].id, tick)
    }
}

fn bereave(town: &mut Town, events: &mut Vec<Event>, report: &TickReport, i: usize, id: i64, tick: i64)
    requires
        i < old(town).creatures@.len(),
        old(town).wf(),
    ensures
        affair_of(final(town), final(events), report) == survived(
            affair_of(old(town), old(events), report),
            i as int,
            id,
            tick,
        ),
        final(town).creatures@.len() == old(town).creatures@.len(),
        final(town).wf(),
{
    let ghost start = town.creatures@;
    let ghost a = affair_of(town, events, report);
    assert(people_of(start)[i as int] == start[i as int]@);
    let was_mate = match town.creatures[i].mate_id {
        Some(m) => m == id,
        None => false,
    };
    if was_mate {
        let c = &mut town.creatures[i];
        c.mate_id = None;
        c.dirty = true;
    }
    proof {
        lemma_people_update(start, i as int, town.creatures@[i as int]);
        assert(town.creatures@ == start.update(i as int, town.creatures@[i as int]));
    }
    let ghost w = town.creatures@[i as int]@;
    assert(w == widowed(start[i as int]@, id));
    assert(affair_of(town, events, report) == a.with(i as int, w));
    let was_guardian = match town.creatures[i].guardian_id {
        Some(g) => g == id,
        None => false,
    };
    if was_guardian {
        let orphan = town.creatures[i].id;
        let heir = match town.creatures[i].household_id {
            Some(home) => find_tender(&town.creatures, home, orphan),
            None => None,
        };
        let ghost before = town.creatures@;
        {
            let c = &mut town.creatures[i];
            c.guardian_id = heir;
            c.dirty = true;
        }
        proof {
            lemma_people_update(before, i as int, town.creatures@[i as int]);
            assert(town.creatures@ == before.update(i as int, town.creatures@[i as int]));
        }
        let guardian = match heir {
            Some(g) => g,
            None => 0,
        };
        say(events, Event::new(tick, EventKind::Orphaned, orphan).with_int("guardian", guardian));
    }
}

fn mourn(town: &mut Town, events: &mut Vec<Event>, report: &TickReport, id: i64, tick: i64)
    requires
        old(town).wf(),
    ensures
        affair_of(final(town), final(events), report) == mourned(
            affair_of(old(town), old(events), report),
            id,
            tick,
        ),
        final(town).creatures@.len() == old(town).creatures@.len(),
        final(town).wf(),
{
    town.courtships.remove_all_for(id);
    let ghost b = affair_of(town, events, report);
    let n: usize = town.creatures.len();
    for i in 0..n
        invariant
            n == town.creatures@.len(),
            town.wf(),
            affair_of(town, events, report) == bereaved(b, i as nat, id, tick),
    {
        bereave(town, events, report, i, id, tick);
    }
}

/// What is felt among the living. Without this the bonds would only ever grow.
pub open spec fn among_the_living(bonds: Map<(i64, i64), Edge>, people: Seq<CreatureV>) -> Map<(i64, i64), Edge> {
    Map::new(
        |k: (i64, i64)| bonds.contains_key(k) && is_here(people, k.0) && is_here(people, k.1),
        |k: (i64, i64)| bonds[k],
    )
}

fn forget_the_dead(town: &mut Town)
    requires
        old(town).wf(),
    ensures
        final(town)@ == (TownV { bonds: among_the_living(old(town)@.bonds, old(town)@.people), ..old(town)@ }),
        final(town).wf(),
        final(town).creatures == old(town).creatures,
{
    let ghost people = people_of(town.creatures@);
    let ghost before = town.relationships.edges@;
    let creatures = &town.creatures;
    let living = |id: i64| -> (r: bool)
        ensures
            r == is_here(people_of(creatures@), id),
        { index_of(creatures, id).is_some() };
    town.relationships.forget_dead(&living);
    proof {
        let after = town.relationships.edges@;
        let kept = among_the_living(old(town)@.bonds, people);
        assert forall|k: (i64, i64)| #[trigger] town.relationships@.contains_key(k) <==> kept.contains_key(k) by {
            assert(town.relationships.lookup(k.0, k.1) == edge_between(after, k.0, k.1));
            assert(old(town).relationships.lookup(k.0, k.1) == edge_between(before, k.0, k.1));
        }
        assert forall|k: (i64, i64)| #[trigger] town.relationships@.contains_key(k) implies town.relationships@[k]
            == kept[k] by {
            assert(town.relationships.lookup(k.0, k.1) == edge_between(after, k.0, k.1));
        }
        assert(town.relationships@ =~= kept);
    }
}

/// How many live in each home, with every home in it.
fn tally_homes(creatures: &Vec<Creature>, homes: &Vec<Household>) -> (counts: BTreeMap<i64, u32>)
    requires
        creatures@.len() <= u32::MAX,
    ensures
        forall|id: i64| #[trigger]
            members_in(counts@, id) == count_where(people_of(creatures@), lives_in(id)),
{
    let ghost people = people_of(creatures@);
    let mut counts: BTreeMap<i64, u32> = BTreeMap::new();
    assert forall|id: i64| #[trigger] members_in(counts@, id) == count_where(people.take(0), lives_in(id)) by {
        assert(people.take(0).len() == 0);
    }
    for i in 0..creatures.len()
        invariant
            people == people_of(creatures@),
            people.len() <= u32::MAX,
            forall|id: i64| #[trigger]
                members_in(counts@, id) == count_where(people.take(i as int), lives_in(id)),
    {
        let ghost before = counts@;
        proof {
            assert(people.take(i + 1).drop_last() == people.take(i as int));
            assert(people.take(i + 1).last() == creatures@[i as int]@);
        }
        if let Some(home) = creatures[i].household_id {
            let n = match counts.get(&home) {
                Some(n) => *n,
                None => 0,
            };
            proof {
                assert(n == members_in(before, home));
                lemma_count_where_bound(people.take(i as int), lives_in(home));
            }
            counts.insert(home, n + 1);
        }
        assert forall|id: i64| #[trigger] members_in(counts@, id) == count_where(
            people.take(i + 1),
            lives_in(id),
        ) by {
            assert(members_in(before, id) == count_where(people.take(i as int), lives_in(id)));
        }
    }
    assert(people.take(people.len() as int) == people);
    for i in 0..homes.len()
        invariant
            forall|id: i64| #[trigger] members_in(counts@, id) == count_where(people, lives_in(id)),
    {
        let ghost before = counts@;
        let id = homes[i].id;
        if !counts.contains_key(&id) {
            counts.insert(id, 0);
        }
        assert forall|id: i64| #[trigger] members_in(counts@, id) == count_where(people, lives_in(id)) by {
            assert(members_in(before, id) == members_in(counts@, id));
        }
    }
    counts
}

/// A home that stands and that nobody lives in any more.
pub open spec fn deserted(h: HouseholdV, people: Seq<CreatureV>) -> bool {
    h.dissolved_tick is None && count_where(people, lives_in(h.id)) == 0
}

/// A deserted home that holds anything.
pub open spec fn has_estate(h: HouseholdV, people: Seq<CreatureV>) -> bool {
    deserted(h, people) && weight_of(h.store).gt(num(NOTHING))
}

/// A home after the dead have left it.
pub open spec fn closed_up(h: HouseholdV, people: Seq<CreatureV>, tick: i64) -> HouseholdV {
    if deserted(h, people) {
        HouseholdV {
            dissolved_tick: Some(tick),
            dirty: true,
            store: if has_estate(h, people) {
                Seq::empty()
            } else {
                h.store
            },
            ..h
        }
    } else {
        h
    }
}

/// What the deserted homes leave, in order.
pub open spec fn left_behind(homes: Seq<HouseholdV>, people: Seq<CreatureV>) -> Seq<(i64, Seq<Batch>)>
    decreases homes.len(),
{
    if homes.len() == 0 {
        Seq::empty()
    } else {
        let before = left_behind(homes.drop_last(), people);
        let h = homes.last();
        if has_estate(h, people) {
            before.push((h.id, h.store))
        } else {
            before
        }
    }
}

proof fn lemma_left_behind(items: Seq<Household>, counts: Map<i64, u32>, people: Seq<CreatureV>)
    requires
        forall|id: i64| #[trigger] members_in(counts, id) == count_where(people, lives_in(id)),
    ensures
        estates_of(items, counts) == left_behind(homes_of(items), people),
    decreases items.len(),
{
    if items.len() > 0 {
        lemma_left_behind(items.drop_last(), counts, people);
        assert(homes_of(items).drop_last() == homes_of(items.drop_last()));
        assert(homes_of(items).last() == items.last()@);
        assert(members_in(counts, items.last().id) == count_where(people, lives_in(items.last().id)));
    }
}

pub open spec fn closing_up(people: Seq<CreatureV>, tick: i64) -> spec_fn(HouseholdV) -> HouseholdV {
    |h: HouseholdV| closed_up(h, people, tick)
}

/// Dissolves the homes nobody belongs to any more.
fn close_homes(town: &mut Town, tick: i64) -> (estates: Vec<(i64, Inventory)>)
    requires
        old(town).wf(),
    ensures
        final(town)@ == (TownV {
            homes: old(town)@.homes.map_values(closing_up(old(town)@.people, tick)),
            ..old(town)@
        }),
        final(town).wf(),
        final(town).creatures == old(town).creatures,
        estates_view(estates@) == left_behind(old(town)@.homes, old(town)@.people),
{
    let ghost items = town.households.items@;
    let ghost people = people_of(town.creatures@);
    let counts = tally_homes(&town.creatures, &town.households.items);
    let estates = town.households.reap(&counts, tick);
    proof {
        lemma_left_behind(items, counts@, people);
        let after = homes_of(town.households.items@);
        assert forall|i: int| 0 <= i < items.len() implies #[trigger] after[i] == closed_up(
            homes_of(items)[i],
            people,
            tick,
        ) by {
            assert(reaped(items[i], town.households.items@[i], counts@, tick));
            assert(members_in(counts@, items[i].id) == count_where(people, lives_in(items[i].id)));
        }
        assert(after == homes_of(items).map_values(closing_up(people, tick)));
    }
    estates
}

/// A child of either founder of a home.
pub open spec fn is_child_of(c: CreatureV, founders: (i64, Option<i64>)) -> bool {
    let parent = |p: Option<i64>| p == Some(founders.0) || (founders.1 is Some && p == founders.1);
    parent(c.mother_id) || parent(c.father_id)
}

fn child_of(c: &Creature, founders: (i64, Option<i64>)) -> (r: bool)
    ensures
        r == is_child_of(c@, founders),
{
    let is_parent = |p: Option<i64>| -> (r: bool)
        ensures
            r == (p == Some(founders.0) || (founders.1 is Some && p == founders.1)),
        {
            match p {
                Some(id) => id == founders.0 || match founders.1 {
                    Some(b) => id == b,
                    None => false,
                },
                None => false,
            }
        };
    is_parent(c.mother_id) || is_parent(c.father_id)
}

/// Where a home stands, if it has a shelter that does.
pub open spec fn address_of(h: HouseholdV, structures: Seq<Structure>) -> Option<(u32, u32)> {
    match h.shelter_id {
        Some(id) if structure_at(structures, id) < structures.len() => {
            let s = structures[structure_at(structures, id)];
            Some((s.x, s.y))
        },
        _ => None,
    }
}

fn address(h: &Household, structures: &Structures) -> (r: Option<(u32, u32)>)
    ensures
        r == address_of(h@, structures.items@),
{
    match h.shelter_id {
        Some(id) => match structures.get(id) {
            Some(s) => Some((s.x, s.y)),
            None => None,
        },
        None => None,
    }
}

/// How far it is from one address to another, as a square. Farther than between
/// any two tiles where there is no telling.
pub open spec fn way_between(a: Option<(u32, u32)>, b: Option<(u32, u32)>) -> i128 {
    match (a, b) {
        (Some(p), Some(q)) => dist2(p.0, p.1, q.0, q.1),
        _ => i128::MAX,
    }
}

fn way(a: Option<(u32, u32)>, b: Option<(u32, u32)>) -> (d: i128)
    ensures
        d == way_between(a, b),
{
    match (a, b) {
        (Some(p), Some(q)) => dist2(p.0, p.1, q.0, q.1),
        _ => i128::MAX,
    }
}

/// Everything it takes to say who inherits what a home held.
#[verifier::ext_equal]
pub struct Will {
    pub home: i64,
    pub founders: (i64, Option<i64>),
    pub address: Option<(u32, u32)>,
    pub homes: Seq<HouseholdV>,
    pub structures: Seq<Structure>,
}

/// Whether somebody brings a home into question: they are a child of the founders,
/// and belong to another home, which survives.
pub open spec fn may_inherit(c: CreatureV, will: Will) -> bool {
    &&& is_child_of(c, will.founders)
    &&& c.household_id is Some
    &&& c.household_id != Some(will.home)
    &&& home_at(will.homes, c.household_id->Some_0) < will.homes.len()
}

/// How far a surviving home is from the one that is no more.
pub open spec fn way_to(home: i64, will: Will) -> i128 {
    way_between(will.address, address_of(will.homes[home_at(will.homes, home)], will.structures))
}

/// Whether one home comes before another: it is nearer, or as near with a lower id.
pub open spec fn comes_first(a: i64, b: i64, will: Will) -> bool {
    way_to(a, will) < way_to(b, will) || (way_to(a, will) == way_to(b, will) && a <= b)
}

/// The nearest of the surviving homes in which children of the founders live, among
/// the first `n` of a population.
pub open spec fn heir_home(people: Seq<CreatureV>, n: nat, will: Will) -> Option<i64>
    decreases n,
{
    if n == 0 {
        None
    } else {
        let before = heir_home(people, (n - 1) as nat, will);
        let c = people[n - 1];
        if may_inherit(c, will) {
            match before {
                Some(h) if comes_first(h, c.household_id->Some_0, will) => before,
                _ => c.household_id,
            }
        } else {
            before
        }
    }
}

fn find_heir_home(town: &Town, structures: &Structures, place: usize) -> (r: Option<i64>)
    requires
        place < town.households.items@.len(),
    ensures
        r == heir_home(town@.people, town@.people.len(), will_of(town@, structures.items@, place as int)),
{
    let ghost will = will_of(town@, structures.items@, place as int);
    let ghost people = town@.people;
    let ghost homes = town@.homes;
    let old_home = &town.households.items[place];
    assert(homes[place as int] == old_home@);
    let from = address(old_home, structures);
    let mut best: Option<(i128, i64)> = None;
    for i in 0..town.creatures.len()
        invariant
            place < town.households.items@.len(),
            *old_home == town.households.items@[place as int],
            will == will_of(town@, structures.items@, place as int),
            homes == town@.homes,
            homes == homes_of(town.households.items@),
            people == town@.people,
            people == people_of(town.creatures@),
            from == will.address,
            will.home == old_home.id,
            will.founders == old_home.founder_ids,
            match best {
                Some(b) => heir_home(people, i as nat, will) == Some(b.1) && b.0 == way_to(b.1, will),
                None => heir_home(people, i as nat, will) is None,
            },
    {
        let c = &town.creatures[i];
        assert(people[i as int] == c@);
        if child_of(c, old_home.founder_ids) {
            if let Some(h) = c.household_id {
                proof {
                    lemma_home_at(town.households.items@, h);
                }
                let at = town.households.position(h);
                if h != old_home.id && at < town.households.items.len() {
                    assert(homes[at as int] == town.households.items@[at as int]@);
                    let d = way(from, address(&town.households.items[at], structures));
                    let stays = match best {
                        Some(b) => b.0 < d || (b.0 == d && b.1 <= h),
                        None => false,
                    };
                    if !stays {
                        best = Some((d, h));
                    }
                }
            }
        }
    }
    match best {
        Some(b) => Some(b.1),
        None => None,
    }
}

/// Nobody stands nearer than the heir: what a home held goes to a surviving home of
/// a child of its founders, of these to the nearest, and among equally near ones to
/// that with the lowest id. It goes to nobody only if there is no such home.
pub proof fn law_the_nearest_kin_inherit(people: Seq<CreatureV>, n: nat, will: Will)
    requires
        n <= people.len(),
    ensures
        match heir_home(people, n, will) {
            Some(h) => {
                &&& exists|i: int|
                    0 <= i < n && may_inherit(#[trigger] people[i], will) && people[i].household_id == Some(h)
                &&& forall|i: int|
                    0 <= i < n && may_inherit(#[trigger] people[i], will) ==> comes_first(
                        h,
                        people[i].household_id->Some_0,
                        will,
                    )
            },
            None => forall|i: int| 0 <= i < n ==> !may_inherit(#[trigger] people[i], will),
        },
    decreases n,
{
    if n > 0 {
        law_the_nearest_kin_inherit(people, (n - 1) as nat, will);
        let c = people[n - 1];
        assert(c == people[n - 1]);
    }
}

/// A store with the first `n` of some batches added.
pub open spec fn with_batches(store: Seq<Batch>, batches: Seq<Batch>, n: nat) -> Seq<Batch>
    decreases n,
{
    if n == 0 {
        store
    } else {
        let b = batches[n - 1];
        with_added(with_batches(store, batches, (n - 1) as nat), b.kind, b.quantity, b.harvested_tick)
    }
}

pub open spec fn is_named(id: i64) -> spec_fn(HouseholdV) -> bool {
    |h: HouseholdV| h.id == id
}

/// What decides about the estate of the home in a place of the list.
pub open spec fn will_of(town: TownV, structures: Seq<Structure>, place: int) -> Will {
    let h = town.homes[place];
    Will {
        home: h.id,
        founders: h.founder_ids,
        address: address_of(h, structures),
        homes: town.homes,
        structures,
    }
}

/// The home, if any, that what another held passes to.
pub open spec fn heir_of(town: TownV, structures: Seq<Structure>, home: i64) -> Option<i64> {
    let i = first_where(town.homes, is_named(home));
    if i < town.homes.len() {
        heir_home(town.people, town.people.len(), will_of(town, structures, i))
    } else {
        None
    }
}

/// What a home held passes to the nearest surviving home of a child of its founders.
/// This is what lets a lineage compound rather than starting from nothing every
/// generation.
pub open spec fn bequeathed(
    a: Affair,
    structures: Seq<Structure>,
    home: i64,
    estate: Seq<Batch>,
    tick: i64,
) -> Affair {
    let b = a.noted(event_of(tick, EventKind::HouseholdDissolved, 0).target(home));
    match heir_of(a.town, structures, home) {
        Some(heir) if home_at(a.town.homes, heir) < a.town.homes.len() => {
            let i = home_at(a.town.homes, heir);
            let h = a.town.homes[i];
            let richer = HouseholdV {
                store: with_batches(h.store, estate, estate.len()),
                dirty: true,
                ..h
            };
            Affair { town: TownV { homes: a.town.homes.update(i, richer), ..a.town }, ..b }.noted(
                event_of(tick, EventKind::Inherited, 0).target(heir).with_num("qty"@, weight_of(estate)),
            )
        },
        _ => b,
    }
}

pub open spec fn all_bequeathed(
    a: Affair,
    structures: Seq<Structure>,
    estates: Seq<(i64, Seq<Batch>)>,
    n: nat,
    tick: i64,
) -> Affair
    decreases n,
{
    if n == 0 {
        a
    } else {
        let (home, estate) = estates[n - 1];
        bequeathed(all_bequeathed(a, structures, estates, (n - 1) as nat, tick), structures, home, estate, tick)
    }
}

fn find_heir(town: &Town, structures: &Structures, home: i64) -> (r: Option<i64>)
    ensures
        r == heir_of(town@, structures.items@, home),
{
    let ghost homes = homes_of(town.households.items@);
    let ghost p = is_named(home);
    for i in 0..town.households.items.len()
        invariant
            homes == homes_of(town.households.items@),
            p == is_named(home),
            forall|j: int| 0 <= j < i ==> !p(#[trigger] homes[j]),
    {
        assert(homes[i as int] == town.households.items@[i as int]@);
        if town.households.items[i].id == home {
            proof {
                lemma_first_where_is(homes, p, i as int);
            }
            return find_heir_home(town, structures, i);
        }
    }
    proof {
        lemma_first_where_is(homes, p, homes.len() as int);
    }
    None
}

fn add_all(store: &mut Inventory, batches: &Vec<Batch>)
    ensures
        final(store).batches@ == with_batches(old(store).batches@, batches@, batches@.len()),
{
    let ghost start = store.batches@;
    for i in 0..batches.len()
        invariant
            store.batches@ == with_batches(start, batches@, i as nat),
    {
        let b = batches[i];
        store.add(b.kind, b.quantity, b.harvested_tick);
    }
}

fn bequeath(
    town: &mut Town,
    events: &mut Vec<Event>,
    report: &TickReport,
    structures: &Structures,
    home: i64,
    estate: &Inventory,
    tick: i64,
)
    requires
        old(town).wf(),
    ensures
        affair_of(final(town), final(events), report) == bequeathed(
            affair_of(old(town), old(events), report),
            structures.items@,
            home,
            estate.batches@,
            tick,
        ),
        final(town).wf(),
        final(town).creatures == old(town).creatures,
{
    say(events, Event::new(tick, EventKind::HouseholdDissolved, 0).target(home));
    if let Some(heir) = find_heir(town, structures, home) {
        proof {
            lemma_home_at(town.households.items@, heir);
        }
        let ghost before = town.households.items@;
        let i = town.households.position(heir);
        if i < town.households.items.len() {
            {
                let h = &mut town.households.items[i];
                add_all(&mut h.store, &estate.batches);
                h.dirty = true;
            }
            proof {
                assert(town.households.items@ == before.update(i as int, town.households.items@[i as int]));
                assert(homes_of(town.households.items@) == homes_of(before).update(
                    i as int,
                    town.households.items@[i as int]@,
                ));
            }
            say(
                events,
                Event::new(tick, EventKind::Inherited, 0).target(heir).with_num("qty", estate.weight()),
            );
        }
    }
}

/// No store is lost while kin survive: where anybody may inherit, the whole of what
/// a home held is added to the store of one home, none of theirs is nearer, and
/// every other home stays as it was.
pub proof fn law_a_store_passes_to_the_nearest_kin(
    a: Affair,
    structures: Seq<Structure>,
    home: i64,
    estate: Seq<Batch>,
    tick: i64,
    k: int,
)
    requires
        0 <= k < a.town.people.len(),
        first_where(a.town.homes, is_named(home)) < a.town.homes.len(),
        may_inherit(
            a.town.people[k],
            will_of(a.town, structures, first_where(a.town.homes, is_named(home))),
        ),
    ensures
        ({
            let will = will_of(a.town, structures, first_where(a.town.homes, is_named(home)));
            let after = bequeathed(a, structures, home, estate, tick).town.homes;
            let heir = heir_of(a.town, structures, home);
            let at = home_at(a.town.homes, heir->Some_0);
            &&& heir is Some
            &&& comes_first(heir->Some_0, a.town.people[k].household_id->Some_0, will)
            &&& 0 <= at < a.town.homes.len()
            &&& after.len() == a.town.homes.len()
            &&& after[at].store == with_batches(a.town.homes[at].store, estate, estate.len())
            &&& forall|j: int| 0 <= j < after.len() && j != at ==> #[trigger] after[j] == a.town.homes[j]
        }),
{
    let people = a.town.people;
    let place = first_where(a.town.homes, is_named(home));
    let will = will_of(a.town, structures, place);
    law_the_nearest_kin_inherit(people, people.len(), will);
    assert(may_inherit(people[k], will));
    let heir = heir_home(people, people.len(), will)->Some_0;
    lemma_first_where(a.town.homes, is_home(heir));
}

/// A town after some of its people have died.
pub open spec fn estates_settled(
    a: Affair,
    structures: Seq<Structure>,
    dead: Seq<CreatureV>,
    tick: i64,
) -> Affair {
    let b = all_mourned(a, dead, dead.len(), tick);
    let estates = left_behind(b.town.homes, b.town.people);
    let c = Affair {
        town: TownV {
            bonds: among_the_living(b.town.bonds, b.town.people),
            homes: b.town.homes.map_values(closing_up(b.town.people, tick)),
            ..b.town
        },
        ..b
    };
    all_bequeathed(c, structures, estates, estates.len(), tick)
}

/// Settles what the dead leave behind.
pub fn settle_estates(
    town: &mut Town,
    dead: &Vec<Creature>,
    events: &mut Vec<Event>,
    report: &TickReport,
    structures: &Structures,
    tick: i64,
)
    requires
        old(town).wf(),
    ensures
        affair_of(final(town), final(events), report) == estates_settled(
            affair_of(old(town), old(events), report),
            structures.items@,
            people_of(dead@),
            tick,
        ),
        final(town).wf(),
        final(town).creatures@.len() == old(town).creatures@.len(),
{
    let ghost a = affair_of(town, events, report);
    let ghost gone = people_of(dead@);
    let ghost count = town.creatures@.len();
    for i in 0..dead.len()
        invariant
            town.wf(),
            town.creatures@.len() == count,
            gone == people_of(dead@),
            affair_of(town, events, report) == all_mourned(a, gone, i as nat, tick),
    {
        assert(gone[i as int] == dead@[i as int]@);
        mourn(town, events, report, dead[i].id, tick);
    }
    let ghost b = affair_of(town, events, report);
    forget_the_dead(town);
    let estates = close_homes(town, tick);
    let ghost c = affair_of(town, events, report);
    let ghost left = left_behind(b.town.homes, b.town.people);
    for i in 0..estates.len()
        invariant
            town.wf(),
            town.creatures@.len() == count,
            estates_view(estates@) == left,
            affair_of(town, events, report) == all_bequeathed(c, structures.items@, left, i as nat, tick),
    {
        assert(left[i as int] == (estates@[i as int].0, estates@[i as int].1.batches@));
        bequeath(town, events, report, structures, estates[i].0, &estates[i].1, tick);
    }
}

/// Nobody is the mate or the ward of somebody.
pub open spec fn free_of(people: Seq<CreatureV>, id: i64) -> bool {
    forall|k: int|
        0 <= k < people.len() ==> (#[trigger] people[k]).mate_id != Some(id) && people[k].guardian_id != Some(id)
}

pub open spec fn somebody(people: Seq<CreatureV>, id: i64) -> bool {
    exists|k: int| 0 <= k < people.len() && (#[trigger] people[k]).id == id
}

/// The same people, bound to nobody they were not bound to before, but for
/// guardians found among them.
spec fn loosened(before: Seq<CreatureV>, after: Seq<CreatureV>) -> bool {
    &&& after.len() == before.len()
    &&& forall|k: int|
        0 <= k < before.len() ==> {
            &&& (#[trigger] after[k]).id == before[k].id
            &&& after[k].mate_id == before[k].mate_id || after[k].mate_id is None
            &&& after[k].guardian_id == before[k].guardian_id || after[k].guardian_id is None || somebody(
                before,
                after[k].guardian_id->Some_0,
            )
        }
}

proof fn lemma_tender(people: Seq<CreatureV>, n: nat, home: i64, ward: i64)
    requires
        n <= people.len(),
    ensures
        tender_in(people, n, home, ward) matches Some(g) ==> somebody(people, g),
    decreases n,
{
    if n > 0 {
        lemma_tender(people, (n - 1) as nat, home, ward);
        assert(people[n - 1].id == people[n - 1].id);
    }
}

proof fn lemma_same_somebody(before: Seq<CreatureV>, after: Seq<CreatureV>, id: i64)
    requires
        loosened(before, after),
    ensures
        somebody(before, id) == somebody(after, id),
{
    if somebody(before, id) {
        let k = choose|k: int| 0 <= k < before.len() && (#[trigger] before[k]).id == id;
        assert(after[k].id == id);
    }
    if somebody(after, id) {
        let k = choose|k: int| 0 <= k < after.len() && (#[trigger] after[k]).id == id;
        assert(before[k].id == id);
    }
}

proof fn lemma_bereaved(a: Affair, n: nat, id: i64, tick: i64)
    requires
        n <= a.town.people.len(),
        !somebody(a.town.people, id),
    ensures
        loosened(a.town.people, bereaved(a, n, id, tick).town.people),
        forall|k: int|
            0 <= k < n ==> (#[trigger] bereaved(a, n, id, tick).town.people[k]).mate_id != Some(id) && bereaved(
                a,
                n,
                id,
                tick,
            ).town.people[k].guardian_id != Some(id),
        forall|k: int|
            n <= k < a.town.people.len() ==> #[trigger] bereaved(a, n, id, tick).town.people[k] == a.town.people[k],
    decreases n,
{
    if n > 0 {
        lemma_bereaved(a, (n - 1) as nat, id, tick);
        let b = bereaved(a, (n - 1) as nat, id, tick);
        let people = a.town.people;
        let i = n - 1;
        let c = b.town.people[i];
        let w = widowed(c, id);
        let d = b.with(i, w);
        assert(loosened(people, d.town.people));
        if c.guardian_id == Some(id) {
            if let Some(home) = w.household_id {
                lemma_tender(d.town.people, d.town.people.len(), home, w.id);
                if let Some(g) = taken_in_by(d.town.people, w) {
                    lemma_same_somebody(people, d.town.people, g);
                }
            }
        }
        let after = bereaved(a, n, id, tick).town.people;
        assert(after == survived(b, i, id, tick).town.people);
        assert forall|k: int| 0 <= k < people.len() implies {
            &&& (#[trigger] after[k]).id == people[k].id
            &&& after[k].mate_id == people[k].mate_id || after[k].mate_id is None
            &&& after[k].guardian_id == people[k].guardian_id || after[k].guardian_id is None || somebody(
                people,
                after[k].guardian_id->Some_0,
            )
        } by {
            assert(b.town.people[k].id == people[k].id);
            if k != i {
                assert(after[k] == b.town.people[k]);
            }
        }
        assert forall|k: int| 0 <= k < n implies (#[trigger] after[k]).mate_id != Some(id) && after[k].guardian_id
            != Some(id) by {
            assert(b.town.people[k].id == people[k].id);
            if k != i {
                assert(after[k] == b.town.people[k]);
            }
        }
        assert forall|k: int| n <= k < people.len() implies #[trigger] after[k] == people[k] by {
            assert(after[k] == b.town.people[k]);
        }
    }
}

proof fn lemma_all_mourned(a: Affair, dead: Seq<CreatureV>, n: nat, tick: i64)
    requires
        n <= dead.len(),
        forall|d: int| 0 <= d < dead.len() ==> !somebody(a.town.people, (#[trigger] dead[d]).id),
    ensures
        loosened(a.town.people, all_mourned(a, dead, n, tick).town.people),
        forall|d: int| 0 <= d < n ==> free_of(all_mourned(a, dead, n, tick).town.people, (#[trigger] dead[d]).id),
    decreases n,
{
    if n > 0 {
        lemma_all_mourned(a, dead, (n - 1) as nat, tick);
        let b = all_mourned(a, dead, (n - 1) as nat, tick);
        let id = dead[n - 1].id;
        let c = Affair { town: TownV { offers: b.town.offers.filter(clear_of(id)), ..b.town }, ..b };
        lemma_same_somebody(a.town.people, b.town.people, id);
        lemma_bereaved(c, c.town.people.len(), id, tick);
        let people = a.town.people;
        let after = all_mourned(a, dead, n, tick).town.people;
        assert forall|k: int| 0 <= k < people.len() implies {
            &&& (#[trigger] after[k]).id == people[k].id
            &&& after[k].mate_id == people[k].mate_id || after[k].mate_id is None
            &&& after[k].guardian_id == people[k].guardian_id || after[k].guardian_id is None || somebody(
                people,
                after[k].guardian_id->Some_0,
            )
        } by {
            assert(b.town.people[k].id == people[k].id);
            if after[k].guardian_id is Some {
                lemma_same_somebody(people, b.town.people, after[k].guardian_id->Some_0);
            }
        }
        assert forall|d: int| 0 <= d < n implies free_of(after, (#[trigger] dead[d]).id) by {
            assert forall|k: int| 0 <= k < after.len() implies (#[trigger] after[k]).mate_id != Some(dead[d].id)
                && after[k].guardian_id != Some(dead[d].id) by {
                assert(b.town.people[k].id == people[k].id);
                if d < n - 1 {
                    assert(free_of(b.town.people, dead[d].id));
                    lemma_same_somebody(people, b.town.people, dead[d].id);
                }
            }
        }
    }
}

pub proof fn lemma_bequests_leave_people(
    a: Affair,
    structures: Seq<Structure>,
    estates: Seq<(i64, Seq<Batch>)>,
    n: nat,
    tick: i64,
)
    ensures
        all_bequeathed(a, structures, estates, n, tick).town.people == a.town.people,
        all_bequeathed(a, structures, estates, n, tick).town.bonds == a.town.bonds,
    decreases n,
{
    if n > 0 {
        lemma_bequests_leave_people(a, structures, estates, (n - 1) as nat, tick);
    }
}

/// Once their affairs are settled the dead bind nobody: no survivor is the mate
/// or the ward of any of them.
pub proof fn law_the_dead_bind_nobody(
    a: Affair,
    structures: Seq<Structure>,
    dead: Seq<CreatureV>,
    tick: i64,
    d: int,
)
    requires
        0 <= d < dead.len(),
        forall|e: int| 0 <= e < dead.len() ==> !somebody(a.town.people, (#[trigger] dead[e]).id),
    ensures
        free_of(estates_settled(a, structures, dead, tick).town.people, dead[d].id),
{
    lemma_all_mourned(a, dead, dead.len(), tick);
    let b = all_mourned(a, dead, dead.len(), tick);
    let estates = left_behind(b.town.homes, b.town.people);
    let c = Affair {
        town: TownV {
            bonds: among_the_living(b.town.bonds, b.town.people),
            homes: b.town.homes.map_values(closing_up(b.town.people, tick)),
            ..b.town
        },
        ..b
    };
    lemma_bequests_leave_people(c, structures, estates, estates.len(), tick);
    assert(free_of(b.town.people, dead[d].id));
}

/// Only the living are remembered: whatever is felt once affairs are settled is
/// felt by somebody who is here about somebody who is here.
pub proof fn law_only_the_living_are_remembered(
    a: Affair,
    structures: Seq<Structure>,
    dead: Seq<CreatureV>,
    tick: i64,
    k: (i64, i64),
)
    requires
        estates_settled(a, structures, dead, tick).town.bonds.contains_key(k),
    ensures
        is_here(estates_settled(a, structures, dead, tick).town.people, k.0),
        is_here(estates_settled(a, structures, dead, tick).town.people, k.1),
{
    let b = all_mourned(a, dead, dead.len(), tick);
    let estates = left_behind(b.town.homes, b.town.people);
    let c = Affair {
        town: TownV {
            bonds: among_the_living(b.town.bonds, b.town.people),
            homes: b.town.homes.map_values(closing_up(b.town.people, tick)),
            ..b.town
        },
        ..b
    };
    lemma_bequests_leave_people(c, structures, estates, estates.len(), tick);
}

/// A house where nobody lives any more is closed, in that tick, and its store cleared
/// for the heirs; one where anybody lives, or that was closed before, is left as it
/// is.
pub proof fn law_an_empty_house_is_closed(h: HouseholdV, people: Seq<CreatureV>, tick: i64)
    ensures
        ({
            let after = closed_up(h, people, tick);
            let lived_in = exists|i: int| 0 <= i < people.len() && (#[trigger] people[i]).household_id == Some(h.id);
            &&& h.dissolved_tick is Some || lived_in ==> after == h
            &&& h.dissolved_tick is None && !lived_in ==> {
                &&& after == (HouseholdV { dissolved_tick: Some(tick), dirty: true, store: after.store, ..h })
                &&& num(0).lt(weight_of(h.store)) ==> after.store.len() == 0
            }
        }),
{
    lemma_counted(people, h.id);
}

proof fn lemma_counted(people: Seq<CreatureV>, home: i64)
    ensures
        count_where(people, lives_in(home)) > 0 <==> exists|i: int|
            0 <= i < people.len() && (#[trigger] people[i]).household_id == Some(home),
    decreases people.len(),
{
    if people.len() > 0 {
        let shorter = people.drop_last();
        lemma_counted(shorter, home);
        assert(forall|i: int| 0 <= i < shorter.len() ==> #[trigger] people[i] == shorter[i]);
        assert(people[people.len() - 1] == people.last());
        if exists|i: int| 0 <= i < shorter.len() && (#[trigger] shorter[i]).household_id == Some(home) {
            let i = choose|i: int| 0 <= i < shorter.len() && (#[trigger] shorter[i]).household_id == Some(home);
            assert(people[i].household_id == Some(home));
        }
    }
}

/// Who may inherit: a child of the founders who lives in another household that
/// stands.
pub proof fn law_who_may_inherit(c: CreatureV, will: Will)
    ensures
        may_inherit(c, will) ==> {
            let (a, b) = will.founders;
            let of_them = |p: Option<i64>| p is Some && (p == Some(a) || p == b);
            &&& of_them(c.mother_id) || of_them(c.father_id)
            &&& c.household_id is Some && c.household_id != Some(will.home)
        },
        c.mother_id == Some(will.founders.0) ==> is_child_of(c, will.founders),
        c.father_id == Some(will.founders.0) ==> is_child_of(c, will.founders),
        will.founders.1 is Some && c.mother_id == will.founders.1 ==> is_child_of(c, will.founders),
        will.founders.1 is Some && c.father_id == will.founders.1 ==> is_child_of(c, will.founders),
        c.mother_id is None && c.father_id is None ==> !is_child_of(c, will.founders),
{
}

/// A store is handed on batch by batch, all of it: one more batch of an estate is one
/// more put in.
pub proof fn law_an_estate_is_handed_on_whole(store: Seq<Batch>, batches: Seq<Batch>, n: nat)
    requires
        n < batches.len(),
    ensures
        with_batches(store, batches, 0) == store,
        with_batches(store, batches, n + 1) == with_added(
            with_batches(store, batches, n),
            batches[n as int].kind,
            batches[n as int].quantity,
            batches[n as int].harvested_tick,
        ),
{
}

/// Of two houses the nearer comes first, and of two as near the one of less number;
/// one without an address comes after every one that has one.
pub proof fn law_the_nearer_house_comes_first(a: (u32, u32), b: (u32, u32))
    ensures
        way_between(Some(a), Some(b)) == dist2(a.0, a.1, b.0, b.1),
        way_between(Some(a), Some(b)) == way_between(Some(b), Some(a)),
        way_between(None, Some(b)) == i128::MAX && way_between(Some(a), None) == i128::MAX,
        way_between(Some(a), Some(a)) == 0,
{
    assert((a.0 - b.0) * (a.0 - b.0) == (b.0 - a.0) * (b.0 - a.0)) by (nonlinear_arith);
    assert((a.1 - b.1) * (a.1 - b.1) == (b.1 - a.1) * (b.1 - a.1)) by (nonlinear_arith);
    assert((a.0 - a.0) * (a.0 - a.0) == 0 && (a.1 - a.1) * (a.1 - a.1) == 0);
}

/// A household is at home where its shelter stands.
pub proof fn law_home_is_where_the_shelter_is(h: HouseholdV, structures: Seq<Structure>, k: int)
    requires
        0 <= k < structures.len(),
        forall|j: int| 0 <= j < k ==> (#[trigger] structures[j]).id != structures[k].id,
    ensures
        h.shelter_id == Some(structures[k].id) ==> address_of(h, structures) == Some((structures[k].x, structures[k].y)),
        h.shelter_id is None ==> address_of(h, structures) is None,
{
    let id = structures[k].id;
    lemma_first_where_is(structures, |s: Structure| s.id == id, k);
}

/// What a home leaves is what it held: one more home adds its store under its own
/// number exactly if nobody lives in it, it was not closed before, and what it
/// holds weighs anything; such a home is left bare, and any other keeps its store.
pub proof fn law_what_a_home_leaves(homes: Seq<HouseholdV>, h: HouseholdV, people: Seq<CreatureV>, tick: i64)
    ensures
        ({
            let empty = h.dissolved_tick is None && forall|i: int|
                0 <= i < people.len() ==> (#[trigger] people[i]).household_id != Some(h.id);
            let heavy = weight_of(h.store).gt(num(0));
            let (before, after) = (left_behind(homes, people), left_behind(homes.push(h), people));
            &&& empty && heavy ==> after == before.push((h.id, h.store)) && closed_up(h, people, tick).store.len() == 0
            &&& !(empty && heavy) ==> after == before && closed_up(h, people, tick).store == h.store
        }),
        left_behind(Seq::empty(), people).len() == 0,
{
    lemma_counted(people, h.id);
    assert(homes.push(h).drop_last() =~= homes);
}

} // verus!
