//! Households, relationships, courtship and reproduction.
//!
//! The unit that matters here is the **household**: a shelter plus its members,
//! with a shared store. It is the unit of cooperation, the thing reproduction
//! gates on, and, because only grain keeps, what makes farming the precondition
//! for a lineage.

use crate::chance::Stream;
use crate::config::{KnowledgeConfig, WorldConfig};
use crate::creature::{
    food_of, people_of, total_of, weight_of, Batch, Creature, CreatureV, Inventory, ItemKind, LifeStage, Sex,
};
use crate::economy::{dist2, square, square_of};
use crate::grid::{grid_over, Grid, GridV};
use crate::knowledge::{known_kinds, known_of, BeliefKind};
use crate::lists::{
    ascending, count_where, first_where, lemma_filter_start, lemma_filter_step, lemma_first_where,
    lemma_first_where_is, lemma_those_below, those_below,
};
use crate::num::{num, Num, NOTHING, ONE};
use crate::world::groups;
use std::collections::BTreeMap;
use vstd::prelude::*;

verus! {

/// A shelter plus its members and their shared store.
#[derive(Debug)]
pub struct Household {
    pub id: i64,
    pub shelter_id: Option<i64>,
    pub founded_tick: i64,
    pub dissolved_tick: Option<i64>,
    /// Batches, not totals, so spoilage expires the oldest first.
    pub store: Inventory,
    /// How many creatures may belong. Limits membership, not tonight's beds.
    pub size_cap: u32,
    pub founder_ids: (i64, Option<i64>),
    pub dirty: bool,
}

/// A household with its store as a sequence.
#[verifier::ext_equal]
pub struct HouseholdV {
    pub id: i64,
    pub shelter_id: Option<i64>,
    pub founded_tick: i64,
    pub dissolved_tick: Option<i64>,
    pub store: Seq<Batch>,
    pub size_cap: u32,
    pub founder_ids: (i64, Option<i64>),
    pub dirty: bool,
}

impl View for Household {
    type V = HouseholdV;

    open spec fn view(&self) -> HouseholdV {
        HouseholdV {
            id: self.id,
            shelter_id: self.shelter_id,
            founded_tick: self.founded_tick,
            dissolved_tick: self.dissolved_tick,
            store: self.store.batches@,
            size_cap: self.size_cap,
            founder_ids: self.founder_ids,
            dirty: self.dirty,
        }
    }
}

pub open spec fn home_of(h: Option<&Household>) -> Option<HouseholdV> {
    match h {
        Some(h) => Some(h@),
        None => None,
    }
}

/// All households, each by its view.
pub open spec fn homes_of(items: Seq<Household>) -> Seq<HouseholdV> {
    Seq::new(items.len(), |i: int| items[i]@)
}

/// The place of the living household with an id, or the length.
pub open spec fn home_at(homes: Seq<HouseholdV>, id: i64) -> int {
    first_where(homes, is_home(id))
}

pub open spec fn is_home(id: i64) -> spec_fn(HouseholdV) -> bool {
    |h: HouseholdV| h.id == id && h.dissolved_tick is None
}

/// A household is found in the same place by its view.
pub proof fn lemma_home_at(items: Seq<Household>, id: i64)
    ensures
        home_at(homes_of(items), id) == household_at(items, id),
        0 <= household_at(items, id) <= items.len(),
{
    let p = |h: Household| h.id == id && h.is_alive();
    let q = is_home(id);
    lemma_first_where(items, p);
    let f = first_where(items, p);
    assert forall|j: int| 0 <= j < f implies !q(#[trigger] homes_of(items)[j]) by {
        assert(!p(items[j]));
    }
    lemma_first_where_is(homes_of(items), q, f);
}

impl Household {
    pub open spec fn is_alive_spec(&self) -> bool {
        self.dissolved_tick is None
    }

    #[verifier::when_used_as_spec(is_alive_spec)]
    pub fn is_alive(&self) -> (r: bool)
        ensures
            r == self.is_alive_spec(),
    {
        self.dissolved_tick.is_none()
    }

    /// Food held, which is what the reproduction gate is about.
    pub fn stored_food(&self) -> (r: Num)
        ensures
            r == food_of(self.store.batches@),
    {
        self.store.total_food()
    }

    /// Only grain reaches the reserve in practice, because only grain keeps.
    pub fn grain(&self) -> (r: Num)
        ensures
            r == total_of(self.store.batches@, ItemKind::Grain),
    {
        self.store.total(ItemKind::Grain)
    }
}

#[derive(Debug)]
pub struct Households {
    pub items: Vec<Household>,
    pub next_id: i64,
}

/// The place of the living household with an id, or the length.
pub open spec fn household_at(items: Seq<Household>, id: i64) -> int {
    first_where(items, |h: Household| h.id == id && h.is_alive())
}

/// How many members a household has by a tally; none if it is not in it.
pub open spec fn members_in(counts: Map<i64, u32>, id: i64) -> u32 {
    if counts.contains_key(id) {
        counts[id]
    } else {
        0
    }
}

/// A living household that nobody belongs to.
pub open spec fn is_deserted(h: Household, counts: Map<i64, u32>) -> bool {
    h.is_alive() && members_in(counts, h.id) == 0
}

pub open spec fn leaves_estate(h: Household, counts: Map<i64, u32>) -> bool {
    is_deserted(h, counts) && weight_of(h.store.batches@).gt(num(NOTHING))
}

/// What the deserted households leave, in order.
pub open spec fn estates_of(items: Seq<Household>, counts: Map<i64, u32>) -> Seq<(i64, Seq<Batch>)>
    decreases items.len(),
{
    if items.len() == 0 {
        Seq::empty()
    } else {
        let before = estates_of(items.drop_last(), counts);
        let h = items.last();
        if leaves_estate(h, counts) {
            before.push((h.id, h.store.batches@))
        } else {
            before
        }
    }
}

pub open spec fn estates_view(estates: Seq<(i64, Inventory)>) -> Seq<(i64, Seq<Batch>)> {
    Seq::new(estates.len(), |i: int| (estates[i].0, estates[i].1.batches@))
}

/// A household after the reaping.
pub open spec fn reaped(before: Household, after: Household, counts: Map<i64, u32>, tick: i64) -> bool {
    if is_deserted(before, counts) {
        &&& after == (Household { dissolved_tick: Some(tick), dirty: true, store: after.store, ..before })
        &&& after.store.batches@ == if leaves_estate(before, counts) {
            Seq::empty()
        } else {
            before.store.batches@
        }
    } else {
        after == before
    }
}

impl Households {
    pub fn new() -> (r: Self)
        ensures
            r.items@.len() == 0,
            r.next_id == 1,
    {
        Households { items: Vec::new(), next_id: 1 }
    }

    pub fn with_next_id(next_id: i64) -> (r: Self)
        ensures
            r.items@.len() == 0,
            r.next_id == if next_id > 1 {
                next_id
            } else {
                1
            },
    {
        Households {
            items: Vec::new(),
            next_id: if next_id > 1 {
                next_id
            } else {
                1
            },
        }
    }

    pub fn next_id(&self) -> (r: i64)
        ensures
            r == self.next_id,
    {
        self.next_id
    }

    pub fn found(
        &mut self,
        shelter_id: Option<i64>,
        by: i64,
        with: Option<i64>,
        tick: i64,
        cfg: &WorldConfig,
    ) -> (id: i64)
        requires
            old(self).next_id < i64::MAX,
        ensures
            id == old(self).next_id,
            final(self).next_id == old(self).next_id + 1,
            final(self).items@.len() == old(self).items@.len() + 1,
            final(self).items@.drop_last() == old(self).items@,
            ({
                let h = final(self).items@.last();
                &&& h.store.batches@.len() == 0
                &&& h == (Household {
                    id,
                    shelter_id,
                    founded_tick: tick,
                    dissolved_tick: None,
                    store: h.store,
                    size_cap: cfg.actions.shelter_capacity,
                    founder_ids: (by, with),
                    dirty: true,
                })
            }),
    {
        let id = self.next_id;
        self.next_id = self.next_id + 1;
        self.items.push(
            Household {
                id,
                shelter_id,
                founded_tick: tick,
                dissolved_tick: None,
                store: Inventory::new(),
                size_cap: cfg.actions.shelter_capacity,
                founder_ids: (by, with),
                dirty: true,
            },
        );
        assert(self.items@.drop_last() == old(self).items@);
        id
    }

    /// The place of the living household with an id, or the length.
    pub fn position(&self, id: i64) -> (i: usize)
        ensures
            i == household_at(self.items@, id),
            i <= self.items@.len(),
            i < self.items@.len() ==> self.items@[i as int].id == id && self.items@[i as int].is_alive(),
    {
        let mut i: usize = 0;
        while i < self.items.len() && !(self.items[i].id == id && self.items[i].is_alive())
            invariant
                i <= self.items@.len(),
                forall|j: int| 0 <= j < i ==> !(#[trigger] self.items@[j].id == id && self.items@[j].is_alive()),
            decreases self.items@.len() - i,
        {
            i = i + 1;
        }
        proof {
            lemma_first_where_is(self.items@, |h: Household| h.id == id && h.is_alive(), i as int);
        }
        i
    }

    pub fn get(&self, id: i64) -> (r: Option<&Household>)
        ensures
            r == if household_at(self.items@, id) < self.items@.len() {
                Some(&self.items@[household_at(self.items@, id)])
            } else {
                None
            },
            r matches Some(h) ==> h.id == id && h.is_alive(),
    {
        let i = self.position(id);
        if i < self.items.len() {
            Some(&self.items[i])
        } else {
            None
        }
    }

    pub fn get_mut(&mut self, id: i64) -> (r: Option<&mut Household>)
        ensures
            match r {
                Some(h) => {
                    let i = household_at(old(self).items@, id);
                    &&& 0 <= i < old(self).items@.len()
                    &&& *h == old(self).items@[i]
                    &&& h.id == id && h.is_alive()
                    &&& final(self).items@ == old(self).items@.update(i, *final(h))
                    &&& final(self).next_id == old(self).next_id
                },
                None => household_at(old(self).items@, id) == old(self).items@.len() && *final(self) == *old(self),
            },
    {
        let i = self.position(id);
        if i < self.items.len() {
            Some(&mut self.items[i])
        } else {
            None
        }
    }

    /// Dissolves households nobody belongs to any more, handing the store on.
    /// A store that vanished when the last member died would make death destroy
    /// grain, and grain is the whole reproduction economy.
    pub fn reap(&mut self, member_counts: &BTreeMap<i64, u32>, tick: i64) -> (estates: Vec<(i64, Inventory)>)
        ensures
            final(self).next_id == old(self).next_id,
            final(self).items@.len() == old(self).items@.len(),
            forall|i: int|
                0 <= i < old(self).items@.len() ==> reaped(
                    old(self).items@[i],
                    #[trigger] final(self).items@[i],
                    member_counts@,
                    tick,
                ),
            estates_view(estates@) == estates_of(old(self).items@, member_counts@),
    {
        let ghost all = self.items@;
        let ghost counts = member_counts@;
        let ghost start_id = self.next_id;
        let mut estates: Vec<(i64, Inventory)> = Vec::new();
        let len = self.items.len();
        assert(estates_view(estates@) == estates_of(all.take(0), counts));
        for i in 0..len
            invariant
                len == all.len(),
                self.items@.len() == all.len(),
                self.next_id == start_id,
                counts == member_counts@,
                forall|j: int| 0 <= j < i ==> reaped(all[j], #[trigger] self.items@[j], counts, tick),
                forall|j: int| i <= j < all.len() ==> #[trigger] self.items@[j] == all[j],
                estates_view(estates@) == estates_of(all.take(i as int), counts),
        {
            proof {
                assert(all.take(i + 1).drop_last() == all.take(i as int));
            }
            let ghost before = estates_of(all.take(i as int), counts);
            if self.items[i].is_alive() {
                let members = match member_counts.get(&self.items[i].id) {
                    Some(n) => *n,
                    None => 0,
                };
                if members == 0 {
                    self.items[i].dissolved_tick = Some(tick);
                    self.items[i].dirty = true;
                    if self.items[i].store.weight().gt(num(NOTHING)) {
                        let id = self.items[i].id;
                        let mut store = Inventory::new();
                        std::mem::swap(&mut store, &mut self.items[i].store);
                        estates.push((id, store));
                        assert(estates_view(estates@) == before.push((id, all[i as int].store.batches@)));
                    }
                    assert(is_deserted(all[i as int], counts));
                    assert(reaped(all[i as int], self.items@[i as int], counts, tick));
                }
            }
        }
        assert(all.take(all.len() as int) == all);
        estates
    }
}

/// Dissolving a household destroys nothing it held: whatever has weight is in
/// the list of estates, batch for batch.
pub proof fn law_grain_outlives_its_household(items: Seq<Household>, counts: Map<i64, u32>, i: int)
    requires
        0 <= i < items.len(),
        leaves_estate(items[i], counts),
    ensures
        estates_of(items, counts).contains((items[i].id, items[i].store.batches@)),
    decreases items.len(),
{
    let shorter = items.drop_last();
    let before = estates_of(shorter, counts);
    let all = estates_of(items, counts);
    if i < shorter.len() {
        assert(shorter[i] == items[i]);
        law_grain_outlives_its_household(shorter, counts, i);
        let k = before.index_of((items[i].id, items[i].store.batches@));
        assert(all[k] == before[k]);
    } else {
        assert(all[before.len() as int] == (items[i].id, items[i].store.batches@));
    }
}

#[derive(Debug, Clone, Copy, PartialEq, Eq, Structural)]
pub enum RelKind {
    Kin,
    Mate,
    Household,
    Acquaintance,
}

impl RelKind {
    pub open spec fn text(self) -> Seq<char> {
        match self {
            RelKind::Kin => "KIN"@,
            RelKind::Mate => "MATE"@,
            RelKind::Household => "HOUSEHOLD"@,
            RelKind::Acquaintance => "ACQUAINTANCE"@,
        }
    }

    pub fn as_str(self) -> (s: &'static str)
        ensures
            s@ == self.text(),
    {
        match self {
            RelKind::Kin => "KIN",
            RelKind::Mate => "MATE",
            RelKind::Household => "HOUSEHOLD",
            RelKind::Acquaintance => "ACQUAINTANCE",
        }
    }
}

#[derive(Debug, Clone, Copy, PartialEq, Eq, Structural)]
pub struct Edge {
    pub affinity: Num,
    pub kind: Option<RelKind>,
    pub updated_tick: i64,
}

/// An edge with its two ends.
#[derive(Debug, Clone, Copy, PartialEq, Eq, Structural)]
pub struct Relation {
    pub from: i64,
    pub to: i64,
    pub edge: Edge,
}

/// Directed edges between creatures, in ascending order of their ends, so that
/// walking them never depends on anything but who they are.
#[derive(Debug)]
pub struct Relationships {
    pub edges: Vec<Relation>,
}

pub open spec fn ends_before(a: (i64, i64), b: (i64, i64)) -> bool {
    a.0 < b.0 || (a.0 == b.0 && a.1 < b.1)
}

pub open spec fn ends(r: Relation) -> (i64, i64) {
    (r.from, r.to)
}

pub open spec fn in_order(edges: Seq<Relation>) -> bool {
    forall|i: int, j: int|
        0 <= i < j < edges.len() ==> ends_before(ends(#[trigger] edges[i]), ends(#[trigger] edges[j]))
}

/// The edge between two ends.
pub open spec fn edge_between(edges: Seq<Relation>, from: i64, to: i64) -> Option<Edge> {
    let i = first_where(edges, |r: Relation| r.from == from && r.to == to);
    if i < edges.len() {
        Some(edges[i].edge)
    } else {
        None
    }
}

/// -1.0
pub const LEAST_AFFINITY: u32 = 0xBF80_0000;

/// An edge after a nudge; a new one starts from indifference.
pub open spec fn nudged(e: Option<Edge>, delta: Num, kind: Option<RelKind>, tick: i64) -> Edge {
    let affinity = match e {
        Some(e) => e.affinity,
        None => num(NOTHING),
    };
    let known = match e {
        Some(e) => e.kind,
        None => None,
    };
    Edge {
        affinity: (affinity + delta).clamp(num(LEAST_AFFINITY), num(ONE)),
        kind: if kind is Some {
            kind
        } else {
            known
        },
        updated_tick: tick,
    }
}

/// The edges after one of them has been set.
pub open spec fn edges_with(before: Seq<Relation>, after: Seq<Relation>, from: i64, to: i64, e: Edge) -> bool {
    &&& in_order(after)
    &&& forall|a: i64, b: i64| #[trigger]
        edge_between(after, a, b) == if a == from && b == to {
            Some(e)
        } else {
            edge_between(before, a, b)
        }
    &&& after.len() == if edge_between(before, from, to) is Some {
        before.len()
    } else {
        before.len() + 1
    }
}

proof fn lemma_edge_at(edges: Seq<Relation>, i: int)
    requires
        in_order(edges),
        0 <= i < edges.len(),
    ensures
        edge_between(edges, edges[i].from, edges[i].to) == Some(edges[i].edge),
{
    let p = |r: Relation| r.from == edges[i].from && r.to == edges[i].to;
    assert forall|j: int| 0 <= j < i implies !p(#[trigger] edges[j]) by {
        assert(ends_before(ends(edges[j]), ends(edges[i])));
    }
    lemma_first_where_is(edges, p, i);
}

proof fn lemma_no_edge(edges: Seq<Relation>, from: i64, to: i64)
    requires
        forall|j: int| 0 <= j < edges.len() ==> ends(#[trigger] edges[j]) != (from, to),
    ensures
        edge_between(edges, from, to) is None,
{
    let p = |r: Relation| r.from == from && r.to == to;
    assert forall|j: int| 0 <= j < edges.len() implies !p(#[trigger] edges[j]) by {
        assert(ends(edges[j]) != (from, to));
    }
    lemma_first_where_is(edges, p, edges.len() as int);
}

proof fn lemma_edge_found(edges: Seq<Relation>, from: i64, to: i64) -> (i: int)
    requires
        edge_between(edges, from, to) is Some,
    ensures
        0 <= i < edges.len(),
        ends(edges[i]) == (from, to),
        edge_between(edges, from, to) == Some(edges[i].edge),
{
    lemma_first_where(edges, |r: Relation| r.from == from && r.to == to);
    first_where(edges, |r: Relation| r.from == from && r.to == to)
}

/// Who feels what about whom.
pub open spec fn bonds_of(edges: Seq<Relation>) -> Map<(i64, i64), Edge> {
    Map::new(
        |k: (i64, i64)| edge_between(edges, k.0, k.1) is Some,
        |k: (i64, i64)| edge_between(edges, k.0, k.1)->Some_0,
    )
}

impl View for Relationships {
    type V = Map<(i64, i64), Edge>;

    open spec fn view(&self) -> Map<(i64, i64), Edge> {
        bonds_of(self.edges@)
    }
}

/// The last of the edges is between the ends that come last.
proof fn lemma_last_edge(edges: Seq<Relation>, k: (i64, i64))
    requires
        in_order(edges),
        bonds_of(edges).contains_key(k),
    ensures
        edges.len() > 0,
        k == ends(edges.last()) || ends_before(k, ends(edges.last())),
{
    let i = lemma_edge_found(edges, k.0, k.1);
    if i < edges.len() - 1 {
        assert(ends_before(ends(edges[i]), ends(edges[edges.len() - 1])));
    }
}

proof fn lemma_without_last(edges: Seq<Relation>)
    requires
        in_order(edges),
        edges.len() > 0,
    ensures
        in_order(edges.drop_last()),
        bonds_of(edges.drop_last()) == bonds_of(edges).remove(ends(edges.last())),
{
    let less = edges.drop_last();
    let last = edges.len() - 1;
    assert forall|i: int, j: int| 0 <= i < j < less.len() implies ends_before(
        ends(#[trigger] less[i]),
        ends(#[trigger] less[j]),
    ) by {
        assert(ends_before(ends(edges[i]), ends(edges[j])));
    }
    assert forall|a: i64, b: i64| #[trigger] edge_between(less, a, b) == if (a, b) == ends(edges.last()) {
        None
    } else {
        edge_between(edges, a, b)
    } by {
        if (a, b) == ends(edges.last()) {
            assert forall|j: int| 0 <= j < less.len() implies ends(#[trigger] less[j]) != (a, b) by {
                assert(ends_before(ends(edges[j]), ends(edges[last])));
            }
            lemma_no_edge(less, a, b);
        } else if edge_between(edges, a, b) is Some {
            let i = lemma_edge_found(edges, a, b);
            assert(less[i] == edges[i]);
            lemma_edge_at(less, i);
            lemma_edge_at(edges, i);
        } else if edge_between(less, a, b) is Some {
            let i = lemma_edge_found(less, a, b);
            assert(less[i] == edges[i]);
            lemma_edge_at(edges, i);
        }
    }
    assert(bonds_of(less) =~= bonds_of(edges).remove(ends(edges.last())));
}

/// Edges in order are settled by who feels what about whom.
pub proof fn lemma_bonds_settle_edges(a: Seq<Relation>, b: Seq<Relation>)
    requires
        in_order(a),
        in_order(b),
        bonds_of(a) == bonds_of(b),
    ensures
        a == b,
    decreases a.len(),
{
    if a.len() > 0 {
        lemma_edge_at(a, a.len() - 1);
        assert(bonds_of(a).contains_key(ends(a.last())));
        lemma_last_edge(b, ends(a.last()));
    }
    if b.len() > 0 {
        lemma_edge_at(b, b.len() - 1);
        assert(bonds_of(b).contains_key(ends(b.last())));
        lemma_last_edge(a, ends(b.last()));
    }
    if a.len() > 0 {
        let k = ends(a.last());
        assert(k == ends(b.last()));
        assert(bonds_of(a)[k] == a.last().edge);
        assert(bonds_of(b)[k] == b.last().edge);
        assert(a.last() == b.last());
        lemma_without_last(a);
        lemma_without_last(b);
        lemma_bonds_settle_edges(a.drop_last(), b.drop_last());
        assert(a == a.drop_last().push(a.last()));
        assert(b == b.drop_last().push(b.last()));
    }
}

/// One direction of a relationship nudged.
pub open spec fn bonded(
    bonds: Map<(i64, i64), Edge>,
    from: i64,
    to: i64,
    delta: Num,
    kind: Option<RelKind>,
    tick: i64,
) -> Map<(i64, i64), Edge> {
    let known = if bonds.contains_key((from, to)) {
        Some(bonds[(from, to)])
    } else {
        None
    };
    bonds.insert((from, to), nudged(known, delta, kind, tick))
}

/// Both directions nudged, one after the other.
pub open spec fn bonded_both(
    bonds: Map<(i64, i64), Edge>,
    a: i64,
    b: i64,
    delta: Num,
    kind: Option<RelKind>,
    tick: i64,
) -> Map<(i64, i64), Edge> {
    bonded(bonded(bonds, a, b, delta, kind, tick), b, a, delta, kind, tick)
}

impl Relationships {
    pub fn new() -> (r: Self)
        ensures
            r.edges@.len() == 0,
            r.wf(),
    {
        Relationships { edges: Vec::new() }
    }

    /// In ascending order of the ends, which also makes the ends distinct.
    pub open spec fn wf(&self) -> bool {
        in_order(self.edges@)
    }

    pub open spec fn lookup(&self, from: i64, to: i64) -> Option<Edge> {
        edge_between(self.edges@, from, to)
    }

    /// Where an edge stands or would stand.
    fn place(&self, from: i64, to: i64) -> (i: usize)
        requires
            self.wf(),
        ensures
            i <= self.edges@.len(),
            forall|j: int| 0 <= j < i ==> ends_before(ends(#[trigger] self.edges@[j]), (from, to)),
            forall|j: int| i <= j < self.edges@.len() ==> !ends_before(ends(#[trigger] self.edges@[j]), (from, to)),
    {
        let mut lo: usize = 0;
        let mut hi: usize = self.edges.len();
        while lo < hi
            invariant
                self.wf(),
                lo <= hi <= self.edges@.len(),
                forall|j: int| 0 <= j < lo ==> ends_before(ends(#[trigger] self.edges@[j]), (from, to)),
                forall|j: int|
                    hi <= j < self.edges@.len() ==> !ends_before(ends(#[trigger] self.edges@[j]), (from, to)),
            decreases hi - lo,
        {
            let mid = lo + (hi - lo) / 2;
            let r = &self.edges[mid];
            if r.from < from || (r.from == from && r.to < to) {
                proof {
                    assert forall|j: int| 0 <= j < mid + 1 implies ends_before(
                        ends(#[trigger] self.edges@[j]),
                        (from, to),
                    ) by {
                        if j < mid {
                            assert(ends_before(ends(self.edges@[j]), ends(self.edges@[mid as int])));
                        }
                    }
                }
                lo = mid + 1;
            } else {
                proof {
                    assert forall|j: int| mid <= j < self.edges@.len() implies !ends_before(
                        ends(#[trigger] self.edges@[j]),
                        (from, to),
                    ) by {
                        if j > mid {
                            assert(ends_before(ends(self.edges@[mid as int]), ends(self.edges@[j])));
                        }
                    }
                }
                hi = mid;
            }
        }
        lo
    }

    pub fn edge(&self, from: i64, to: i64) -> (r: Option<&Edge>)
        requires
            self.wf(),
        ensures
            match r {
                Some(e) => self.lookup(from, to) == Some(*e),
                None => self.lookup(from, to) is None,
            },
    {
        let i = self.place(from, to);
        if i < self.edges.len() && self.edges[i].from == from && self.edges[i].to == to {
            proof {
                lemma_edge_at(self.edges@, i as int);
            }
            Some(&self.edges[i].edge)
        } else {
            proof {
                assert forall|j: int| 0 <= j < self.edges@.len() implies ends(#[trigger] self.edges@[j]) != (
                from, to) by {
                    if j > i {
                        assert(ends_before(ends(self.edges@[i as int]), ends(self.edges@[j])));
                    }
                }
                lemma_no_edge(self.edges@, from, to);
            }
            None
        }
    }

    /// Affinity in one direction; strangers are indifferent.
    pub fn get(&self, from: i64, to: i64) -> (r: Num)
        requires
            self.wf(),
        ensures
            r == match self.lookup(from, to) {
                Some(e) => e.affinity,
                None => num(NOTHING),
            },
    {
        match self.edge(from, to) {
            Some(e) => e.affinity,
            None => num(NOTHING),
        }
    }

    pub fn kind(&self, from: i64, to: i64) -> (r: Option<RelKind>)
        requires
            self.wf(),
        ensures
            r == match self.lookup(from, to) {
                Some(e) => e.kind,
                None => None,
            },
    {
        match self.edge(from, to) {
            Some(e) => e.kind,
            None => None,
        }
    }

    /// The edges in ascending order of their ends.
    pub fn iter(&self) -> (r: &Vec<Relation>)
        ensures
            r@ == self.edges@,
    {
        &self.edges
    }

    pub fn len(&self) -> (r: usize)
        ensures
            r == self.edges@.len(),
    {
        self.edges.len()
    }

    pub fn is_empty(&self) -> (r: bool)
        ensures
            r == (self.edges@.len() == 0),
    {
        self.edges.len() == 0
    }

    pub fn insert_raw(&mut self, from: i64, to: i64, e: Edge)
        requires
            old(self).wf(),
        ensures
            edges_with(old(self).edges@, final(self).edges@, from, to, e),
            final(self).wf(),
    {
        let i = self.place(from, to);
        let ghost before = self.edges@;
        let r = Relation { from, to, edge: e };
        if i < self.edges.len() && self.edges[i].from == from && self.edges[i].to == to {
            proof {
                lemma_edge_at(before, i as int);
            }
            self.edges[i] = r;
            proof {
                let after = self.edges@;
                assert forall|a: int, b: int| 0 <= a < b < after.len() implies ends_before(
                    ends(#[trigger] after[a]),
                    ends(#[trigger] after[b]),
                ) by {
                    assert(ends_before(ends(before[a]), ends(before[b])));
                }
                assert forall|a: i64, b: i64| #[trigger] edge_between(after, a, b) == if a == from && b == to {
                    Some(e)
                } else {
                    edge_between(before, a, b)
                } by {
                    if a == from && b == to {
                        lemma_edge_at(after, i as int);
                    } else if edge_between(before, a, b) is Some {
                        let k = lemma_edge_found(before, a, b);
                        assert(after[k] == before[k]);
                        lemma_edge_at(after, k);
                        lemma_edge_at(before, k);
                    } else {
                        assert forall|j: int| 0 <= j < after.len() implies ends(#[trigger] after[j]) != (a, b) by {
                            if j != i && ends(after[j]) == (a, b) {
                                lemma_edge_at(before, j);
                            }
                        }
                        lemma_no_edge(after, a, b);
                    }
                }
            }
        } else {
            proof {
                assert forall|j: int| 0 <= j < before.len() implies ends(#[trigger] before[j]) != (from, to) by {
                    if j > i {
                        assert(ends_before(ends(before[i as int]), ends(before[j])));
                    }
                }
                lemma_no_edge(before, from, to);
            }
            self.edges.insert(i, r);
            proof {
                let after = self.edges@;
                assert(after == before.insert(i as int, r));
                assert forall|a: int, b: int| 0 <= a < b < after.len() implies ends_before(
                    ends(#[trigger] after[a]),
                    ends(#[trigger] after[b]),
                ) by {
                    let a2 = if a < i {
                        a
                    } else {
                        a - 1
                    };
                    let b2 = if b < i {
                        b
                    } else {
                        b - 1
                    };
                    if a != i && b != i {
                        assert(ends_before(ends(before[a2]), ends(before[b2])));
                    } else if a == i {
                        assert(!ends_before(ends(before[b2]), (from, to)));
                        assert(ends(before[b2]) != (from, to));
                    } else {
                        assert(ends_before(ends(before[a2]), (from, to)));
                    }
                }
                assert forall|a: i64, b: i64| #[trigger] edge_between(after, a, b) == if a == from && b == to {
                    Some(e)
                } else {
                    edge_between(before, a, b)
                } by {
                    if a == from && b == to {
                        assert(after[i as int] == r);
                        lemma_edge_at(after, i as int);
                    } else if edge_between(before, a, b) is Some {
                        let k = lemma_edge_found(before, a, b);
                        let k2 = if k < i {
                            k
                        } else {
                            k + 1
                        };
                        assert(after[k2] == before[k]);
                        lemma_edge_at(after, k2);
                        lemma_edge_at(before, k);
                    } else {
                        assert forall|j: int| 0 <= j < after.len() implies ends(#[trigger] after[j]) != (a, b) by {
                            let j2 = if j < i {
                                j
                            } else {
                                j - 1
                            };
                            if j != i && ends(after[j]) == (a, b) {
                                assert(after[j] == before[j2]);
                                lemma_edge_at(before, j2);
                            }
                        }
                        lemma_no_edge(after, a, b);
                    }
                }
            }
        }
    }

    /// Nudges one direction of a relationship. Affinity saturates rather than
    /// running away, so a hundred small kindnesses do not make a stranger family.
    pub fn adjust(&mut self, from: i64, to: i64, delta: Num, kind: Option<RelKind>, tick: i64)
        requires
            old(self).wf(),
        ensures
            edges_with(
                old(self).edges@,
                final(self).edges@,
                from,
                to,
                nudged(old(self).lookup(from, to), delta, kind, tick),
            ),
            final(self).wf(),
            final(self)@ == bonded(old(self)@, from, to, delta, kind, tick),
    {
        let mut e = match self.edge(from, to) {
            Some(e) => *e,
            None => Edge { affinity: num(NOTHING), kind: None, updated_tick: tick },
        };
        e.affinity = (e.affinity + delta).clamp(num(LEAST_AFFINITY), num(ONE));
        if kind.is_some() {
            e.kind = kind;
        }
        e.updated_tick = tick;
        self.insert_raw(from, to, e);
        proof {
            let after = bonded(old(self)@, from, to, delta, kind, tick);
            assert forall|k: (i64, i64)| #[trigger] self@.contains_key(k) <==> after.contains_key(k) by {
                assert(edge_between(self.edges@, k.0, k.1) == if k.0 == from && k.1 == to {
                    Some(e)
                } else {
                    edge_between(old(self).edges@, k.0, k.1)
                });
            }
            assert forall|k: (i64, i64)| #[trigger] self@.contains_key(k) implies self@[k] == after[k] by {
                assert(edge_between(self.edges@, k.0, k.1) == if k.0 == from && k.1 == to {
                    Some(e)
                } else {
                    edge_between(old(self).edges@, k.0, k.1)
                });
            }
            assert(self@ =~= after);
        }
    }

    pub fn adjust_both(&mut self, a: i64, b: i64, delta: Num, kind: Option<RelKind>, tick: i64)
        requires
            old(self).wf(),
        ensures
            final(self).wf(),
            final(self)@ == bonded_both(old(self)@, a, b, delta, kind, tick),
            a != b ==> forall|x: i64, y: i64| #[trigger]
                final(self).lookup(x, y) == if (x == a && y == b) || (x == b && y == a) {
                    Some(nudged(old(self).lookup(x, y), delta, kind, tick))
                } else {
                    old(self).lookup(x, y)
                },
            a == b ==> forall|x: i64, y: i64| #[trigger]
                final(self).lookup(x, y) == if x == a && y == a {
                    Some(nudged(Some(nudged(old(self).lookup(a, a), delta, kind, tick)), delta, kind, tick))
                } else {
                    old(self).lookup(x, y)
                },
    {
        let ghost start = self.edges@;
        self.adjust(a, b, delta, kind, tick);
        let ghost middle = self.edges@;
        self.adjust(b, a, delta, kind, tick);
        proof {
            assert forall|x: i64, y: i64| true implies #[trigger] self.lookup(x, y) == if x == b && y == a {
                Some(nudged(edge_between(middle, b, a), delta, kind, tick))
            } else {
                edge_between(middle, x, y)
            } by {
                assert(edge_between(self.edges@, x, y) == self.lookup(x, y));
            }
            assert forall|x: i64, y: i64| true implies #[trigger] edge_between(middle, x, y) == if x == a && y == b {
                Some(nudged(edge_between(start, a, b), delta, kind, tick))
            } else {
                edge_between(start, x, y)
            } by {}
        }
    }

    /// Drops edges nobody can use any more: those with an end that is not living.
    pub fn forget_dead<F: Fn(i64) -> bool>(&mut self, living: &F)
        requires
            old(self).wf(),
            forall|id: i64| #[trigger] call_requires(*living, (id,)),
            forall|id: i64| #![trigger call_ensures(*living, (id,), true)]
                !(call_ensures(*living, (id,), true) && call_ensures(*living, (id,), false)),
        ensures
            final(self).wf(),
            forall|a: i64, b: i64| #[trigger]
                final(self).lookup(a, b) is Some ==> final(self).lookup(a, b) == old(self).lookup(a, b)
                    && call_ensures(*living, (a,), true) && call_ensures(*living, (b,), true),
            forall|a: i64, b: i64| #[trigger]
                old(self).lookup(a, b) is Some && final(self).lookup(a, b) is None ==> call_ensures(
                    *living,
                    (a,),
                    false,
                ) || call_ensures(*living, (b,), false),
    {
        let ghost before = self.edges@;
        let mut kept: Vec<Relation> = Vec::new();
        for i in 0..self.edges.len()
            invariant
                self.edges@ == before,
                in_order(before),
                forall|id: i64| #[trigger] call_requires(*living, (id,)),
                in_order(kept@),
                forall|k: int|
                    0 <= k < kept@.len() ==> (exists|j: int| 0 <= j < i && #[trigger] before[j] == kept@[k])
                        && call_ensures(*living, ((#[trigger] kept@[k]).from,), true) && call_ensures(
                        *living,
                        (kept@[k].to,),
                        true,
                    ),
                forall|j: int|
                    0 <= j < i ==> kept@.contains(#[trigger] before[j]) || call_ensures(
                        *living,
                        (before[j].from,),
                        false,
                    ) || call_ensures(*living, (before[j].to,), false),
        {
            let r = self.edges[i];
            let ghost prior = kept@;
            if living(r.from) && living(r.to) {
                kept.push(r);
                proof {
                    assert forall|a: int, b: int| 0 <= a < b < kept@.len() implies ends_before(
                        ends(#[trigger] kept@[a]),
                        ends(#[trigger] kept@[b]),
                    ) by {
                        if b == prior.len() {
                            let j = choose|j: int| 0 <= j < i && #[trigger] before[j] == prior[a];
                            assert(ends_before(ends(before[j]), ends(before[i as int])));
                        }
                    }
                    assert forall|k: int| 0 <= k < kept@.len() implies (exists|j: int|
                        0 <= j < i + 1 && #[trigger] before[j] == kept@[k]) && call_ensures(
                        *living,
                        ((#[trigger] kept@[k]).from,),
                        true,
                    ) && call_ensures(*living, (kept@[k].to,), true) by {
                        if k < prior.len() {
                            let j = choose|j: int| 0 <= j < i && #[trigger] before[j] == prior[k];
                            assert(before[j] == kept@[k]);
                        } else {
                            assert(before[i as int] == kept@[k]);
                        }
                    }
                    assert forall|j: int| 0 <= j < i + 1 implies kept@.contains(#[trigger] before[j]) || call_ensures(
                        *living,
                        (before[j].from,),
                        false,
                    ) || call_ensures(*living, (before[j].to,), false) by {
                        if j < i && prior.contains(before[j]) {
                            let k = prior.index_of(before[j]);
                            assert(kept@[k] == before[j]);
                        }
                        if j == i {
                            assert(kept@[prior.len() as int] == before[j]);
                        }
                    }
                }
            }
        }
        self.edges = kept;
        proof {
            let after = self.edges@;
            assert forall|a: i64, b: i64| #[trigger] self.lookup(a, b) is Some implies self.lookup(a, b)
                == edge_between(before, a, b) && call_ensures(*living, (a,), true) && call_ensures(
                *living,
                (b,),
                true,
            ) by {
                let k = lemma_edge_found(after, a, b);
                let j = choose|j: int| 0 <= j < before.len() && #[trigger] before[j] == after[k];
                lemma_edge_at(before, j);
            }
            assert forall|a: i64, b: i64| #[trigger] edge_between(before, a, b) is Some && self.lookup(
                a,
                b,
            ) is None implies call_ensures(*living, (a,), false) || call_ensures(*living, (b,), false) by {
                let j = lemma_edge_found(before, a, b);
                if after.contains(before[j]) {
                    let k = after.index_of(before[j]);
                    lemma_edge_at(after, k);
                }
            }
        }
    }
}

/// Affinity never leaves [-1, 1] by a nudge, whatever the nudge.
pub proof fn law_affinity_saturates(e: Option<Edge>, delta: Num, kind: Option<RelKind>, tick: i64)
    requires
        delta.finite(),
        e matches Some(e) ==> e.affinity.finite(),
    ensures
        num(LEAST_AFFINITY).le(nudged(e, delta, kind, tick).affinity),
        nudged(e, delta, kind, tick).affinity.le(num(ONE)),
        nudged(e, delta, kind, tick).affinity.finite(),
{
    let affinity = match e {
        Some(e) => e.affinity,
        None => num(NOTHING),
    };
    crate::num::law_sum_is_a_number(affinity, delta);
}

/// An offer of courtship, awaiting an answer.
#[derive(Debug, Clone, Copy, PartialEq, Eq, Structural)]
pub struct Offer {
    pub from: i64,
    pub to: i64,
    pub tick: i64,
}

#[derive(Debug)]
pub struct Courtships {
    pub offers: Vec<Offer>,
}

/// Answered sooner: an older offer, and among those of one tick the one of the
/// creature with the lower id.
pub open spec fn answered_before(a: Offer, b: Offer) -> bool {
    a.tick < b.tick || (a.tick == b.tick && a.from < b.from)
}

/// The offers after one is made: a standing one is renewed in place.
pub open spec fn with_offer(offers: Seq<Offer>, from: i64, to: i64, tick: i64) -> Seq<Offer> {
    let i = first_where(offers, |o: Offer| o.from == from && o.to == to);
    if i < offers.len() {
        offers.update(i, Offer { tick, ..offers[i] })
    } else {
        offers.push(Offer { from, to, tick })
    }
}

/// The offer to a creature that is answered first.
pub open spec fn first_offer(offers: Seq<Offer>, to: i64) -> Option<Offer>
    decreases offers.len(),
{
    if offers.len() == 0 {
        None
    } else {
        let o = offers.last();
        match first_offer(offers.drop_last(), to) {
            Some(best) => if o.to == to && answered_before(o, best) {
                Some(o)
            } else {
                Some(best)
            },
            None => if o.to == to {
                Some(o)
            } else {
                None
            },
        }
    }
}

/// The oldest standing offer is answered first: none to the same creature is
/// older, or as old and from a lower id.
pub proof fn law_the_oldest_offer_is_answered_first(offers: Seq<Offer>, to: i64)
    ensures
        match first_offer(offers, to) {
            Some(best) => best.to == to && offers.contains(best) && forall|i: int|
                0 <= i < offers.len() && (#[trigger] offers[i]).to == to ==> !answered_before(offers[i], best),
            None => forall|i: int| 0 <= i < offers.len() ==> (#[trigger] offers[i]).to != to,
        },
    decreases offers.len(),
{
    if offers.len() > 0 {
        let shorter = offers.drop_last();
        law_the_oldest_offer_is_answered_first(shorter, to);
        assert(forall|i: int| 0 <= i < shorter.len() ==> #[trigger] offers[i] == shorter[i]);
        assert(offers[offers.len() - 1] == offers.last());
        if let Some(best) = first_offer(shorter, to) {
            let k = shorter.index_of(best);
            assert(offers[k] == best);
        }
    }
}

pub open spec fn is_between(o: Offer, a: i64, b: i64) -> bool {
    (o.from == a && o.to == b) || (o.from == b && o.to == a)
}

pub open spec fn concerns(o: Offer, id: i64) -> bool {
    o.from == id || o.to == id
}

pub open spec fn has_lapsed(o: Offer, tick: i64, ttl: u32) -> bool {
    tick - o.tick > ttl
}

pub open spec fn not_between(a: i64, b: i64) -> spec_fn(Offer) -> bool {
    |o: Offer| !is_between(o, a, b)
}

pub open spec fn clear_of(id: i64) -> spec_fn(Offer) -> bool {
    |o: Offer| !concerns(o, id)
}

pub open spec fn lapsed_by(tick: i64, ttl: u32) -> spec_fn(Offer) -> bool {
    |o: Offer| has_lapsed(o, tick, ttl)
}

pub open spec fn open_at(tick: i64, ttl: u32) -> spec_fn(Offer) -> bool {
    |o: Offer| !has_lapsed(o, tick, ttl)
}

impl Courtships {
    pub fn new() -> (r: Self)
        ensures
            r.offers@.len() == 0,
    {
        Courtships { offers: Vec::new() }
    }

    pub fn offer(&mut self, from: i64, to: i64, tick: i64)
        ensures
            final(self).offers@ == with_offer(old(self).offers@, from, to, tick),
    {
        let mut i: usize = 0;
        while i < self.offers.len() && !(self.offers[i].from == from && self.offers[i].to == to)
            invariant
                i <= self.offers@.len(),
                self.offers@ == old(self).offers@,
                forall|j: int| 0 <= j < i ==> !(#[trigger] self.offers@[j].from == from && self.offers@[j].to == to),
            decreases self.offers@.len() - i,
        {
            i = i + 1;
        }
        proof {
            lemma_first_where_is(self.offers@, |o: Offer| o.from == from && o.to == to, i as int);
        }
        if i < self.offers.len() {
            let mut o = self.offers[i];
            o.tick = tick;
            self.offers[i] = o;
        } else {
            self.offers.push(Offer { from, to, tick });
        }
    }

    /// The oldest standing offer to this creature, so nobody is left waiting
    /// forever while newer suitors jump the queue.
    pub fn pending_for(&self, to: i64) -> (r: Option<Offer>)
        ensures
            r == first_offer(self.offers@, to),
    {
        let mut best: Option<Offer> = None;
        for i in 0..self.offers.len()
            invariant
                best == first_offer(self.offers@.take(i as int), to),
        {
            proof {
                assert(self.offers@.take(i + 1).drop_last() == self.offers@.take(i as int));
            }
            let o = self.offers[i];
            if o.to == to {
                let sooner = match best {
                    Some(b) => o.tick < b.tick || (o.tick == b.tick && o.from < b.from),
                    None => true,
                };
                if sooner {
                    best = Some(o);
                }
            }
        }
        assert(self.offers@.take(self.offers@.len() as int) == self.offers@);
        best
    }

    pub fn remove_between(&mut self, a: i64, b: i64)
        ensures
            final(self).offers@ == old(self).offers@.filter(not_between(a, b)),
    {
        let ghost all = self.offers@;
        let ghost keep = not_between(a, b);
        let mut kept: Vec<Offer> = Vec::new();
        proof {
            lemma_filter_start(all, keep);
        }
        for i in 0..self.offers.len()
            invariant
                self.offers@ == all,
                keep == not_between(a, b),
                kept@ == all.take(i as int).filter(keep),
        {
            proof {
                lemma_filter_step(all, keep, i as int);
            }
            let o = self.offers[i];
            if !((o.from == a && o.to == b) || (o.from == b && o.to == a)) {
                kept.push(o);
            }
        }
        self.offers = kept;
    }

    pub fn remove_all_for(&mut self, id: i64)
        ensures
            final(self).offers@ == old(self).offers@.filter(clear_of(id)),
    {
        let ghost all = self.offers@;
        let ghost keep = clear_of(id);
        let mut kept: Vec<Offer> = Vec::new();
        proof {
            lemma_filter_start(all, keep);
        }
        for i in 0..self.offers.len()
            invariant
                self.offers@ == all,
                keep == clear_of(id),
                kept@ == all.take(i as int).filter(keep),
        {
            proof {
                lemma_filter_step(all, keep, i as int);
            }
            let o = self.offers[i];
            if o.from != id && o.to != id {
                kept.push(o);
            }
        }
        self.offers = kept;
    }

    /// Offers that have gone unanswered long enough to lapse.
    pub fn expire(&mut self, tick: i64, ttl: u32) -> (lapsed: Vec<Offer>)
        ensures
            lapsed@ == old(self).offers@.filter(lapsed_by(tick, ttl)),
            final(self).offers@ == old(self).offers@.filter(open_at(tick, ttl)),
    {
        let ghost all = self.offers@;
        let ghost old_ones = lapsed_by(tick, ttl);
        let ghost keep = open_at(tick, ttl);
        let mut lapsed: Vec<Offer> = Vec::new();
        let mut kept: Vec<Offer> = Vec::new();
        proof {
            lemma_filter_start(all, keep);
            lemma_filter_start(all, old_ones);
        }
        for i in 0..self.offers.len()
            invariant
                self.offers@ == all,
                old_ones == lapsed_by(tick, ttl),
                keep == open_at(tick, ttl),
                kept@ == all.take(i as int).filter(keep),
                lapsed@ == all.take(i as int).filter(old_ones),
        {
            proof {
                lemma_filter_step(all, keep, i as int);
                lemma_filter_step(all, old_ones, i as int);
            }
            let o = self.offers[i];
            if tick as i128 - o.tick as i128 > ttl as i128 {
                lapsed.push(o);
            } else {
                kept.push(o);
            }
        }
        self.offers = kept;
        lapsed
    }
}

/// Why a pair cannot conceive right now. Which requirement is missing is a
/// story; that one is missing is not.
#[derive(Debug, Clone, Copy, PartialEq, Eq, Structural)]
pub enum Blocker {
    NotPaired,
    NotAdult,
    Unwell,
    NoHousehold,
    StoreShort,
    AlreadyExpecting,
    TooSoon,
}

impl Blocker {
    pub open spec fn text(self) -> Seq<char> {
        match self {
            Blocker::NotPaired => "not paired"@,
            Blocker::NotAdult => "not of age"@,
            Blocker::Unwell => "not well enough"@,
            Blocker::NoHousehold => "no household"@,
            Blocker::StoreShort => "store below the reserve"@,
            Blocker::AlreadyExpecting => "already expecting"@,
            Blocker::TooSoon => "too soon after the last"@,
        }
    }

    pub fn as_str(self) -> (s: &'static str)
        ensures
            s@ == self.text(),
    {
        match self {
            Blocker::NotPaired => "not paired",
            Blocker::NotAdult => "not of age",
            Blocker::Unwell => "not well enough",
            Blocker::NoHousehold => "no household",
            Blocker::StoreShort => "store below the reserve",
            Blocker::AlreadyExpecting => "already expecting",
            Blocker::TooSoon => "too soon after the last",
        }
    }

    /// The place of a blocker in the tallies.
    pub open spec fn slot_spec(self) -> usize {
        match self {
            Blocker::NotPaired => 0,
            Blocker::NotAdult => 1,
            Blocker::Unwell => 2,
            Blocker::NoHousehold => 3,
            Blocker::StoreShort => 4,
            Blocker::AlreadyExpecting => 5,
            Blocker::TooSoon => 6,
        }
    }

    #[verifier::when_used_as_spec(slot_spec)]
    pub fn slot(self) -> (i: usize)
        ensures
            i == self.slot_spec(),
            i < 7,
    {
        match self {
            Blocker::NotPaired => 0,
            Blocker::NotAdult => 1,
            Blocker::Unwell => 2,
            Blocker::NoHousehold => 3,
            Blocker::StoreShort => 4,
            Blocker::AlreadyExpecting => 5,
            Blocker::TooSoon => 6,
        }
    }
}

pub open spec fn are_mates(mother: CreatureV, father: CreatureV) -> bool {
    &&& mother.sex == Sex::Female
    &&& father.sex == Sex::Male
    &&& mother.mate_id == Some(father.id)
    &&& father.mate_id == Some(mother.id)
}

pub open spec fn is_too_soon(mother: CreatureV, cfg: &WorldConfig, tick: i64) -> bool {
    match mother.last_birth_tick {
        Some(last) => tick - last < cfg.reproduction.birth_spacing_ticks,
        None => false,
    }
}

/// The first requirement that a pair does not meet.
pub open spec fn blocker_of(
    mother: CreatureV,
    father: CreatureV,
    household: Option<HouseholdV>,
    cfg: &WorldConfig,
    tick: i64,
) -> Option<Blocker> {
    let floor = cfg.reproduction.health_floor;
    if !are_mates(mother, father) {
        Some(Blocker::NotPaired)
    } else if mother.pregnancy is Some {
        Some(Blocker::AlreadyExpecting)
    } else if mother.life_stage != LifeStage::Adult || father.life_stage != LifeStage::Adult {
        Some(Blocker::NotAdult)
    } else if mother.health.lt(floor) || father.health.lt(floor) {
        Some(Blocker::Unwell)
    } else if is_too_soon(mother, cfg, tick) {
        Some(Blocker::TooSoon)
    } else {
        match household {
            None => Some(Blocker::NoHousehold),
            Some(h) => if h.shelter_id is None {
                Some(Blocker::NoHousehold)
            } else if food_of(h.store).lt(cfg.reproduction.store_reserve) {
                Some(Blocker::StoreShort)
            } else {
                None
            },
        }
    }
}

/// The requirements of conception, in order of how cheap they are to test and
/// how likely they are to be the one worth reporting.
pub fn conception_blocker(
    mother: &Creature,
    father: &Creature,
    household: Option<&Household>,
    cfg: &WorldConfig,
    tick: i64,
) -> (r: Option<Blocker>)
    ensures
        r == blocker_of(mother@, father@, home_of(household), cfg, tick),
{
    let r = &cfg.reproduction;
    if mother.sex != Sex::Female || father.sex != Sex::Male {
        return Some(Blocker::NotPaired);
    }
    let accepted = match mother.mate_id {
        Some(id) => id == father.id,
        None => false,
    };
    let returned = match father.mate_id {
        Some(id) => id == mother.id,
        None => false,
    };
    if !accepted || !returned {
        return Some(Blocker::NotPaired);
    }
    if mother.pregnancy.is_some() {
        return Some(Blocker::AlreadyExpecting);
    }
    if mother.life_stage != LifeStage::Adult || father.life_stage != LifeStage::Adult {
        return Some(Blocker::NotAdult);
    }
    if mother.health.lt(r.health_floor) || father.health.lt(r.health_floor) {
        return Some(Blocker::Unwell);
    }
    if let Some(last) = mother.last_birth_tick {
        if (tick as i128 - last as i128) < r.birth_spacing_ticks as i128 {
            return Some(Blocker::TooSoon);
        }
    }
    match household {
        None => Some(Blocker::NoHousehold),
        Some(h) => {
            if h.shelter_id.is_none() {
                Some(Blocker::NoHousehold)
            } else if h.stored_food().lt(r.store_reserve) {
                Some(Blocker::StoreShort)
            } else {
                None
            }
        },
    }
}

/// Conception takes all of the requirements: a mutual pair of adults in health,
/// a pause since the last birth, a home, and a store above the reserve.
pub proof fn law_conception_takes_everything(
    mother: CreatureV,
    father: CreatureV,
    household: Option<HouseholdV>,
    cfg: &WorldConfig,
    tick: i64,
)
    ensures
        blocker_of(mother, father, household, cfg, tick) is None <==> {
            &&& are_mates(mother, father)
            &&& mother.pregnancy is None
            &&& mother.life_stage == LifeStage::Adult
            &&& father.life_stage == LifeStage::Adult
            &&& !mother.health.lt(cfg.reproduction.health_floor)
            &&& !father.health.lt(cfg.reproduction.health_floor)
            &&& !is_too_soon(mother, cfg, tick)
            &&& household matches Some(h) && h.shelter_id is Some && !food_of(h.store).lt(
                cfg.reproduction.store_reserve,
            )
        },
{
}

/// 0.000001
pub const LEAST_DRAW: u32 = 0x3586_37BD;

/// 2.0
pub const TWO: u32 = 0x4000_0000;

/// The two draws a mutation takes, the first kept off zero.
pub open spec fn mutation_at(s: Stream) -> (Num, Num) {
    (s.unit_here().max(num(LEAST_DRAW)), s.stepped().unit_here())
}

/// Draws the two uniform numbers from which a normal one is made.
pub fn draw_mutation(rng: &mut Stream) -> (r: (Num, Num))
    ensures
        r == mutation_at(*old(rng)),
        *final(rng) == old(rng).stepped().stepped(),
{
    let u1 = rng.unit().max(num(LEAST_DRAW));
    let u2 = rng.unit();
    (u1, u2)
}

pub open spec fn inherited(a: Num, b: Num, sigma: Num, z: Num) -> Num {
    ((a + b) / num(TWO) + z * sigma).clamp(num(NOTHING), num(ONE))
}

/// Inherits a trait from two parents: the midpoint, moved by a normally
/// distributed `z` of the given spread. Blending is what lets a population
/// drift as a population.
pub fn inherit(a: Num, b: Num, sigma: Num, z: Num) -> (r: Num)
    ensures
        r == inherited(a, b, sigma, z),
{
    ((a + b) / num(TWO) + z * sigma).clamp(num(NOTHING), num(ONE))
}

/// An inherited trait is always a legal trait value.
pub proof fn law_inherited_traits_are_legal(a: Num, b: Num, sigma: Num, z: Num)
    ensures
        inherited(a, b, sigma, z).is_nan() || (num(NOTHING).le(inherited(a, b, sigma, z)) && inherited(
            a,
            b,
            sigma,
            z,
        ).le(num(ONE))),
{
}

/// What one creature can see about another without inspecting it.
#[derive(Debug, Clone, Copy, PartialEq, Eq, Structural)]
pub struct Bystander {
    pub id: i64,
    pub x: u32,
    pub y: u32,
    pub sex: Sex,
    pub life_stage: LifeStage,
    pub household_id: Option<i64>,
    pub paired: bool,
    pub guardian_id: Option<i64>,
    pub health: Num,
    pub hunger: Num,
    /// Which belief kinds this creature knows anything credible about.
    pub known_kinds: u16,
}

/// How a creature looks to the others.
pub open spec fn seen(c: CreatureV, tick: i64, cfg: &KnowledgeConfig) -> Bystander {
    Bystander {
        id: c.id,
        x: c.x,
        y: c.y,
        sex: c.sex,
        life_stage: c.life_stage,
        household_id: c.household_id,
        paired: c.mate_id is Some,
        guardian_id: c.guardian_id,
        health: c.health,
        hunger: c.hunger,
        known_kinds: known_of(c.beliefs, tick, cfg),
    }
}

/// In ascending order of id, which also makes the ids distinct.
pub open spec fn ids_ascend(creatures: Seq<CreatureV>) -> bool {
    forall|i: int, j: int| 0 <= i < j < creatures.len() ==> (#[trigger] creatures[i]).id < (#[trigger] creatures[j]).id
}

pub open spec fn people_ascend(people: Seq<Bystander>) -> bool {
    forall|i: int, j: int| 0 <= i < j < people.len() ==> (#[trigger] people[i]).id < (#[trigger] people[j]).id
}

/// A spatial index over creatures, rebuilt each tick.
pub struct CreatureIndex {
    pub grid: Grid,
    pub people: Vec<Bystander>,
}

/// A crowd: who is there, and the grid over where they stand.
#[verifier::ext_equal]
pub struct CrowdV {
    pub grid: GridV,
    pub people: Seq<Bystander>,
}

impl View for CreatureIndex {
    type V = CrowdV;

    open spec fn view(&self) -> CrowdV {
        CrowdV { grid: self.grid@, people: self.people@ }
    }
}

/// Where everybody in a crowd stands.
pub open spec fn spots_of(people: Seq<Bystander>) -> Seq<Option<(u32, u32)>> {
    people.map_values(|p: Bystander| Some((p.x, p.y)))
}

impl CrowdV {
    /// Whether a person is somebody else near a tile.
    pub open spec fn is_near(self, x: u32, y: u32, radius: u32, self_id: i64, i: int) -> bool {
        &&& 0 <= i < self.people.len()
        &&& self.people[i].id != self_id
        &&& dist2(self.people[i].x, self.people[i].y, x, y) <= square_of(radius)
        &&& self.grid.within_reach(x, y, radius, i as u32)
    }
}

impl CreatureIndex {
    /// A crowd is settled by who is in it.
    pub proof fn lemma_crowd(&self)
        requires
            self.wf(),
        ensures
            self@.grid == grid_over(self.grid.cell, self.grid.cols, self.grid.rows, spots_of(self.people@)),
    {
        let places = spots_of(self.people@);
        assert forall|cx: int, cy: int, i: u32| #[trigger]
            self.grid.lists(cx, cy, i) <==> i < places.len() && places[i as int] is Some && self.grid.falls_in(
                places[i as int]->Some_0.0,
                places[i as int]->Some_0.1,
                cx,
                cy,
            ) by {
            if i < self.people@.len() {
                assert(places[i as int] == Some((self.people@[i as int].x, self.people@[i as int].y)));
            }
        }
        self.grid.lemma_grid_over(places);
    }

    /// The grid lists exactly the people, each where they stand, and they stand
    /// in ascending order of id.
    pub open spec fn wf(&self) -> bool {
        &&& self.grid.wf()
        &&& people_ascend(self.people@)
        &&& self.people@.len() <= u32::MAX
        &&& forall|cx: int, cy: int, i: u32| #[trigger]
            self.grid.lists(cx, cy, i) <==> i < self.people@.len() && self.grid.falls_in(
                self.people@[i as int].x,
                self.people@[i as int].y,
                cx,
                cy,
            )
    }

    pub fn new(width: u32, height: u32, cell: u32) -> (r: Self)
        requires
            cell > 0,
            width > 0,
            height > 0,
            groups(width, cell) * groups(height, cell) <= u32::MAX,
        ensures
            r.wf(),
            r.people@.len() == 0,
            r.grid.spans(width, height, cell),
    {
        CreatureIndex { grid: Grid::new(width, height, cell), people: Vec::new() }
    }

    pub fn rebuild(&mut self, creatures: &Vec<Creature>, tick: i64, kcfg: &KnowledgeConfig)
        requires
            old(self).grid.wf(),
            ids_ascend(people_of(creatures@)),
            creatures@.len() <= u32::MAX,
        ensures
            final(self).wf(),
            final(self).grid.same_shape(&old(self).grid),
            final(self).people@ == people_of(creatures@).map_values(|c: CreatureV| seen(c, tick, kcfg)),
    {
        let ghost shape = self.grid;
        self.grid.clear();
        self.people.clear();
        for i in 0..creatures.len()
            invariant
                ids_ascend(people_of(creatures@)),
                creatures@.len() <= u32::MAX,
                self.grid.wf(),
                self.grid.same_shape(&shape),
                self.grid.all_below(i as int),
                self.people@.len() == i,
                forall|j: int| 0 <= j < i ==> #[trigger] self.people@[j] == seen(creatures@[j]@, tick, kcfg),
                forall|cx: int, cy: int, j: u32| #[trigger]
                    self.grid.lists(cx, cy, j) <==> j < i && self.grid.falls_in(
                        self.people@[j as int].x,
                        self.people@[j as int].y,
                        cx,
                        cy,
                    ),
        {
            let c = &creatures[i];
            let p = Bystander {
                id: c.id,
                x: c.x,
                y: c.y,
                sex: c.sex,
                life_stage: c.life_stage,
                household_id: c.household_id,
                paired: c.mate_id.is_some(),
                guardian_id: c.guardian_id,
                health: c.health,
                hunger: c.hunger,
                known_kinds: known_kinds(&c.beliefs, tick, kcfg),
            };
            self.people.push(p);
            self.grid.put(c.x, c.y, i as u32);
        }
        assert forall|a: int, b: int| 0 <= a < b < self.people@.len() implies (#[trigger] self.people@[a]).id < (
        #[trigger] self.people@[b]).id by {
            assert(people_of(creatures@)[a].id < people_of(creatures@)[b].id);
        }
        assert(self.people@ == people_of(creatures@).map_values(|c: CreatureV| seen(c, tick, kcfg)));
    }

    /// The place of the person with an id, or the length.
    pub open spec fn person_at(&self, id: i64) -> int {
        first_where(self.people@, |p: Bystander| p.id == id)
    }

    pub fn get(&self, id: i64) -> (r: Option<&Bystander>)
        requires
            self.wf(),
        ensures
            r == if self.person_at(id) < self.people@.len() {
                Some(&self.people@[self.person_at(id)])
            } else {
                None
            },
            r matches Some(p) ==> p.id == id,
    {
        let ghost p = |p: Bystander| p.id == id;
        let mut lo: usize = 0;
        let mut hi: usize = self.people.len();
        while lo < hi
            invariant
                self.wf(),
                p == (|p: Bystander| p.id == id),
                lo <= hi <= self.people@.len(),
                forall|j: int| 0 <= j < lo ==> (#[trigger] self.people@[j]).id < id,
                forall|j: int| hi <= j < self.people@.len() ==> (#[trigger] self.people@[j]).id > id,
            decreases hi - lo,
        {
            let mid = lo + (hi - lo) / 2;
            if self.people[mid].id == id {
                proof {
                    assert forall|j: int| 0 <= j < mid implies !p(#[trigger] self.people@[j]) by {
                        assert(self.people@[j].id < self.people@[mid as int].id);
                    }
                    lemma_first_where_is(self.people@, p, mid as int);
                }
                return Some(&self.people[mid]);
            } else if self.people[mid].id < id {
                proof {
                    assert forall|j: int| 0 <= j < mid + 1 implies (#[trigger] self.people@[j]).id < id by {
                        if j < mid {
                            assert(self.people@[j].id < self.people@[mid as int].id);
                        }
                    }
                }
                lo = mid + 1;
            } else {
                proof {
                    assert forall|j: int| mid <= j < self.people@.len() implies (#[trigger] self.people@[j]).id > id by {
                        if j > mid {
                            assert(self.people@[mid as int].id < self.people@[j].id);
                        }
                    }
                }
                hi = mid;
            }
        }
        proof {
            lemma_first_where_is(self.people@, p, self.people@.len() as int);
        }
        None
    }

    pub fn len(&self) -> (r: usize)
        ensures
            r == self.people@.len(),
    {
        self.people.len()
    }

    pub fn is_empty(&self) -> (r: bool)
        ensures
            r == (self.people@.len() == 0),
    {
        self.people.len() == 0
    }

    /// How many creatures belong to a household.
    pub fn len_with_household(&self, household: Option<i64>) -> (r: usize)
        ensures
            r == match household {
                None => 0,
                Some(h) => count_where(self.people@, |p: Bystander| p.household_id == Some(h)),
            },
    {
        match household {
            None => 0,
            Some(h) => {
                let ghost belongs = |p: Bystander| p.household_id == Some(h);
                let mut n: usize = 0;
                for i in 0..self.people.len()
                    invariant
                        belongs == (|p: Bystander| p.household_id == Some(h)),
                        n == count_where(self.people@.take(i as int), belongs),
                        n <= i,
                {
                    proof {
                        assert(self.people@.take(i + 1).drop_last() == self.people@.take(i as int));
                    }
                    let member = match self.people[i].household_id {
                        Some(id) => id == h,
                        None => false,
                    };
                    if member {
                        n = n + 1;
                    }
                }
                assert(self.people@.take(self.people@.len() as int) == self.people@);
                n
            },
        }
    }

    /// Whether a person is somebody else near a tile.
    pub open spec fn is_near(&self, x: u32, y: u32, radius: u32, self_id: i64, i: int) -> bool {
        &&& 0 <= i < self.people@.len()
        &&& self.people@[i].id != self_id
        &&& dist2(self.people@[i].x, self.people@[i].y, x, y) <= square_of(radius)
        &&& self.grid.within_reach(x, y, radius, i as u32)
    }

    /// Whether one of the first candidates is somebody else near a tile.
    spec fn picked(
        &self,
        all: Seq<u32>,
        k: int,
        x: u32,
        y: u32,
        radius: u32,
        self_id: i64,
        p: Bystander,
    ) -> bool {
        exists|m: int|
            0 <= m < k && self.is_near(x, y, radius, self_id, all[m] as int) && self.people@[
            #[trigger] all[m] as int] == p
    }

    /// Everyone within `radius` of a tile, excluding `self_id`, in ascending
    /// creature-id order so the traversal never depends on grid layout.
    pub fn near(&self, x: u32, y: u32, radius: u32, self_id: i64, out: &mut Vec<Bystander>)
        requires
            self.wf(),
        ensures
            people_ascend(final(out)@),
            forall|p: Bystander| #[trigger]
                final(out)@.contains(p) <==> exists|i: int|
                    self.is_near(x, y, radius, self_id, i) && #[trigger] self.people@[i] == p,
    {
        out.clear();
        let candidates = self.grid.gather(x, y, radius);
        let r2 = square(radius);
        proof {
            assert(self.grid.all_below(self.people@.len() as int));
        }
        let ghost all = candidates@;
        let ghost people = self.people@;
        for k in 0..candidates.len()
            invariant
                self.wf(),
                people == self.people@,
                all == candidates@,
                self.grid.all_below(people.len() as int),
                r2 == square_of(radius),
                ascending(all),
                forall|i: u32| #[trigger] all.contains(i) <==> self.grid.within_reach(x, y, radius, i),
                people_ascend(out@),
                forall|j: int|
                    0 <= j < out@.len() ==> self.picked(all, k as int, x, y, radius, self_id, #[trigger] out@[j]),
                forall|m: int|
                    0 <= m < k && self.is_near(x, y, radius, self_id, #[trigger] all[m] as int) ==> out@.contains(
                        people[all[m] as int],
                    ),
        {
            let i = candidates[k];
            proof {
                assert(all.contains(i));
                self.grid.lemma_within_reach_below(x, y, radius, i, people.len() as int);
            }
            let p = self.people[i as usize];
            let ghost before = out@;
            if p.id != self_id && dist2(p.x, p.y, x, y) <= r2 {
                out.push(p);
            }
            proof {
                if self.is_near(x, y, radius, self_id, i as int) {
                    assert(out@ == before.push(p));
                    assert(out@[before.len() as int] == p);
                    assert forall|a: int, b: int| 0 <= a < b < out@.len() implies (#[trigger] out@[a]).id < (
                    #[trigger] out@[b]).id by {
                        if b == before.len() {
                            assert(self.picked(all, k as int, x, y, radius, self_id, before[a]));
                            let m = choose|m: int|
                                0 <= m < k && self.is_near(x, y, radius, self_id, all[m] as int) && people[
                                #[trigger] all[m] as int] == before[a];
                            assert(all[m] < all[k as int]);
                            assert(people[all[m] as int].id < people[i as int].id);
                        }
                    }
                } else {
                    assert(out@ == before);
                }
                assert forall|j: int| 0 <= j < out@.len() implies self.picked(
                    all,
                    k + 1,
                    x,
                    y,
                    radius,
                    self_id,
                    #[trigger] out@[j],
                ) by {
                    if j < before.len() {
                        assert(self.picked(all, k as int, x, y, radius, self_id, before[j]));
                        let m = choose|m: int|
                            0 <= m < k && self.is_near(x, y, radius, self_id, all[m] as int) && people[
                            #[trigger] all[m] as int] == before[j];
                        assert(people[all[m] as int] == out@[j]);
                    } else {
                        assert(people[all[k as int] as int] == out@[j]);
                    }
                }
                assert forall|m: int| 0 <= m < k + 1 && self.is_near(
                    x,
                    y,
                    radius,
                    self_id,
                    #[trigger] all[m] as int,
                ) implies out@.contains(people[all[m] as int]) by {
                    if m < k {
                        let q = before.index_of(people[all[m] as int]);
                        assert(out@[q] == people[all[m] as int]);
                    }
                }
            }
        }
        proof {
            assert forall|p: Bystander| #[trigger] out@.contains(p) <==> exists|i: int|
                self.is_near(x, y, radius, self_id, i) && #[trigger] self.people@[i] == p by {
                if out@.contains(p) {
                    let j = out@.index_of(p);
                    assert(self.picked(all, all.len() as int, x, y, radius, self_id, out@[j]));
                    let m = choose|m: int|
                        0 <= m < all.len() && self.is_near(x, y, radius, self_id, all[m] as int) && people[
                        #[trigger] all[m] as int] == p;
                    assert(self.people@[all[m] as int] == p);
                }
                if exists|i: int| self.is_near(x, y, radius, self_id, i) && #[trigger] self.people@[i] == p {
                    let i = choose|i: int| self.is_near(x, y, radius, self_id, i) && #[trigger] self.people@[i] == p;
                    assert(all.contains(i as u32));
                    let m = all.index_of(i as u32);
                    assert(all[m] == i);
                }
            }
        }
    }
}

/// Everyone near a tile but one, in ascending order of id.
pub open spec fn company(crowd: CrowdV, x: u32, y: u32, radius: u32, self_id: i64) -> Seq<Bystander> {
    let near = those_below(crowd.people.len() as int, |i: u32| crowd.is_near(x, y, radius, self_id, i as int));
    near.map_values(|i: u32| crowd.people[i as int])
}

/// A list in ascending order of id is settled by whom it holds.
pub proof fn lemma_company(index: &CreatureIndex, x: u32, y: u32, radius: u32, self_id: i64, out: Seq<Bystander>)
    requires
        index.wf(),
        people_ascend(out),
        forall|p: Bystander| #[trigger]
            out.contains(p) <==> exists|i: int|
                index.is_near(x, y, radius, self_id, i) && #[trigger] index.people@[i] == p,
    ensures
        out == company(index@, x, y, radius, self_id),
{
    let people = index.people@;
    let p = |i: u32| index@.is_near(x, y, radius, self_id, i as int);
    assert forall|i: int| #[trigger] index.is_near(x, y, radius, self_id, i) == index@.is_near(
        x,
        y,
        radius,
        self_id,
        i,
    ) by {
        index.grid.lemma_reach(x, y, radius, i as u32);
    }
    let places = Seq::new(
        out.len(),
        |k: int| (choose|i: int| index.is_near(x, y, radius, self_id, i) && #[trigger] people[i] == out[k]) as u32,
    );
    assert forall|k: int| 0 <= k < out.len() implies #[trigger] places[k] < people.len() && p(places[k])
        && people[places[k] as int] == out[k] by {
        assert(out.contains(out[k]));
    }
    assert forall|a: int, b: int| 0 <= a < b < places.len() implies places[a] < places[b] by {
        assert(out[a].id < out[b].id);
        assert(p(places[a]) && p(places[b]));
        if places[b] < places[a] {
            assert(people[places[b] as int].id < people[places[a] as int].id);
        }
    }
    assert forall|i: u32| #[trigger] places.contains(i) <==> i < people.len() && p(i) by {
        if places.contains(i) {
            let k = places.index_of(i);
            assert(p(places[k]));
        }
        if i < people.len() && p(i) {
            assert(people[i as int] == people[i as int]);
            assert(out.contains(people[i as int]));
            let k = out.index_of(people[i as int]);
            assert(p(places[k]));
            if places[k] < i {
                assert(people[places[k] as int].id < people[i as int].id);
            } else if i < places[k] {
                assert(people[i as int].id < people[places[k] as int].id);
            }
            assert(places[k] == i);
        }
    }
    lemma_those_below(places, people.len() as int, p);
    assert(out == company(index@, x, y, radius, self_id));
}

/// A social act, recorded while acting and applied in resolution, where there
/// is access to everybody.
#[derive(Debug, Clone, Copy, PartialEq, Eq, Structural)]
pub enum SocialIntent {
    Court { from: i64, to: i64 },
    Accept { from: i64, to: i64 },
    Reject { from: i64, to: i64 },
    GiveFood { from: i64, to: i64, quantity: Num },
    FeedInfant { from: i64, to: i64, quantity: Num },
    JoinHousehold { creature: i64, household: i64 },
    LeaveHousehold { creature: i64 },
    Share { from: i64, to: i64, topic: Option<BeliefKind> },
    Teach { from: i64, to: i64 },
}

/// A bystander is seen as they are: who and where they are, of what sex and age,
/// whose household and whose ward, whether paired, how well and how hungry.
pub proof fn law_a_bystander_is_seen_as_they_are(c: CreatureV, tick: i64, cfg: &KnowledgeConfig)
    ensures
        ({
            let b = seen(c, tick, cfg);
            &&& b.id == c.id && b.x == c.x && b.y == c.y
            &&& b.sex == c.sex && b.life_stage == c.life_stage
            &&& b.household_id == c.household_id && b.guardian_id == c.guardian_id
            &&& b.paired <==> c.mate_id is Some
            &&& b.health == c.health && b.hunger == c.hunger
            &&& b.known_kinds == known_of(c.beliefs, tick, cfg)
        }),
{
}

/// Company is whoever is near: everybody in it is within the radius and somebody
/// else.
pub proof fn law_company_is_near(crowd: CrowdV, x: u32, y: u32, radius: u32, self_id: i64, k: int)
    requires
        crowd.people.len() <= u32::MAX,
        0 <= k < company(crowd, x, y, radius, self_id).len(),
    ensures
        ({
            let p = company(crowd, x, y, radius, self_id)[k];
            &&& p.id != self_id
            &&& dist2(p.x, p.y, x, y) <= square_of(radius)
            &&& crowd.people.contains(p)
        }),
{
    let near = |i: u32| crowd.is_near(x, y, radius, self_id, i as int);
    let list = those_below(crowd.people.len() as int, near);
    lemma_company_listed(crowd.people.len() as int, near, k);
    assert(company(crowd, x, y, radius, self_id)[k] == crowd.people[list[k] as int]);
}

proof fn lemma_company_listed(n: int, p: spec_fn(u32) -> bool, k: int)
    requires
        0 <= k < those_below(n, p).len(),
        n <= u32::MAX,
    ensures
        p(those_below(n, p)[k]),
        those_below(n, p)[k] < n,
    decreases n,
{
    if n > 0 && k < those_below(n - 1, p).len() {
        lemma_company_listed(n - 1, p, k);
    }
}

} // verus!
