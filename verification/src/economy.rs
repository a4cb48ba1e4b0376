//! Resource nodes, regrowth, structures, spoilage, and the fuel economy.
//!
//! Two mechanics here look like flavour and are not:
//!
//! * **Spoilage** is what stops the three food sources collapsing into one
//!   fungible number. Forage feeds you today; meat must be eaten or shared
//!   within days; only grain accumulates.
//! * **Wood is fuel as well as timber.** Carried firewood is what puts distant
//!   discoveries in reach.

use crate::chance::{Stream, Tape};
use crate::config::WorldConfig;
use crate::creature::{Batch, Inventory, ItemKind};
use crate::grid::{grid_over, map_grid, Grid, GridV};
use crate::lists::{
    ascending, count_where, first_where, floor_mod, lemma_filter_start, lemma_filter_step, lemma_filtered,
    lemma_first_where, lemma_first_where_is,
};
use crate::num::{law_adding_leaves_no_less, num, Num, NOTHING, ONE};
use crate::terrain::Terrain;
use crate::text::same_text;
use crate::world::{groups, Ground, NodeKind, ResourceNode, World};
use vstd::prelude::*;

verus! {

pub open spec fn hour_of_spec(tick: i64) -> u32 {
    (tick as int % 24) as u32
}

#[verifier::when_used_as_spec(hour_of_spec)]
pub fn hour_of(tick: i64) -> (h: u32)
    ensures
        h == hour_of_spec(tick),
        h < 24,
{
    floor_mod(tick, 24) as u32
}

pub fn day_of(tick: i64) -> (d: i64)
    ensures
        d == tick as int / 24,
{
    if tick >= 0 {
        tick / 24
    } else {
        -1 - (-(tick + 1)) / 24
    }
}

pub open spec fn is_night_spec(tick: i64, cfg: &WorldConfig) -> bool {
    let hour = hour_of(tick);
    let start = cfg.actions.night_start_hour;
    let end = cfg.actions.night_end_hour;
    if start <= end {
        start <= hour < end
    } else {
        hour >= start || hour < end
    }
}

/// Whether this tick falls in the night window, which may span midnight.
#[verifier::when_used_as_spec(is_night_spec)]
pub fn is_night(tick: i64, cfg: &WorldConfig) -> (r: bool)
    ensures
        r == is_night_spec(tick, cfg),
{
    let hour = hour_of(tick);
    let start = cfg.actions.night_start_hour;
    let end = cfg.actions.night_end_hour;
    if start <= end {
        hour >= start && hour < end
    } else {
        hour >= start || hour < end
    }
}

#[derive(Debug, Clone, Copy, PartialEq, Eq, Structural)]
pub enum StructureKind {
    Shelter,
    Fire,
    Pen,
}

impl StructureKind {
    pub open spec fn text(self) -> Seq<char> {
        match self {
            StructureKind::Shelter => "SHELTER"@,
            StructureKind::Fire => "FIRE"@,
            StructureKind::Pen => "PEN"@,
        }
    }

    pub fn as_str(self) -> (s: &'static str)
        ensures
            s@ == self.text(),
    {
        match self {
            StructureKind::Shelter => "SHELTER",
            StructureKind::Fire => "FIRE",
            StructureKind::Pen => "PEN",
        }
    }

    /// Anything unknown reads as a shelter.
    pub fn parse(s: &str) -> (r: Self)
        ensures
            r == StructureKind::Fire <==> s@ == StructureKind::Fire.text(),
            r == StructureKind::Pen <==> s@ == StructureKind::Pen.text(),
    {
        proof {
            reveal_strlit("FIRE");
            reveal_strlit("PEN");
            assert("FIRE"@.len() != "PEN"@.len());
        }
        if same_text(s, "FIRE") {
            StructureKind::Fire
        } else if same_text(s, "PEN") {
            StructureKind::Pen
        } else {
            StructureKind::Shelter
        }
    }
}

#[derive(Debug, Clone, Copy)]
pub struct Structure {
    pub id: i64,
    pub kind: StructureKind,
    pub x: u32,
    pub y: u32,
    /// 0..1. A shelter decays and stops keeping the cold out.
    pub condition: Num,
    pub capacity: u32,
    pub occupants: u32,
    pub household_id: Option<i64>,
    pub built_tick: i64,
    /// Wood remaining in a fire.
    pub fuel_remaining: Num,
    pub lit_until_tick: Option<i64>,
    pub dirty: bool,
}

/// 0.15
pub const DERELICT: u32 = 0x3E19_999A;

impl Structure {
    pub open spec fn is_lit_spec(&self, tick: i64) -> bool {
        self.kind == StructureKind::Fire && self.fuel_remaining.gt(num(NOTHING)) && match self.lit_until_tick {
            Some(t) => tick <= t,
            None => true,
        }
    }

    #[verifier::when_used_as_spec(is_lit_spec)]
    pub fn is_lit(&self, tick: i64) -> (r: bool)
        ensures
            r == self.is_lit_spec(tick),
    {
        self.kind == StructureKind::Fire && self.fuel_remaining.gt(num(NOTHING)) && match self.lit_until_tick {
            Some(t) => tick <= t,
            None => true,
        }
    }

    pub open spec fn shelters_spec(&self) -> bool {
        self.kind == StructureKind::Shelter && self.condition.gt(num(DERELICT))
    }

    #[verifier::when_used_as_spec(shelters_spec)]
    pub fn shelters(&self) -> (r: bool)
        ensures
            r == self.shelters_spec(),
    {
        self.kind == StructureKind::Shelter && self.condition.gt(num(DERELICT))
    }

    pub open spec fn has_room_spec(&self) -> bool {
        self.occupants < self.capacity
    }

    #[verifier::when_used_as_spec(has_room_spec)]
    pub fn has_room(&self) -> (r: bool)
        ensures
            r == self.has_room_spec(),
    {
        self.occupants < self.capacity
    }
}

pub open spec fn dist2_spec(ax: u32, ay: u32, bx: u32, by: u32) -> i128 {
    ((ax - bx) * (ax - bx) + (ay - by) * (ay - by)) as i128
}

/// Squared distance between two tiles.
#[verifier::when_used_as_spec(dist2_spec)]
pub fn dist2(ax: u32, ay: u32, bx: u32, by: u32) -> (d: i128)
    ensures
        d == dist2_spec(ax, ay, bx, by),
        d == (ax - bx) * (ax - bx) + (ay - by) * (ay - by),
        d >= 0,
{
    let dx = ax as i128 - bx as i128;
    let dy = ay as i128 - by as i128;
    proof {
        assert(0 <= dx * dx <= 0x1_0000_0000 * 0x1_0000_0000) by (nonlinear_arith)
            requires
                -0x1_0000_0000 <= dx <= 0x1_0000_0000,
        ;
        assert(0 <= dy * dy <= 0x1_0000_0000 * 0x1_0000_0000) by (nonlinear_arith)
            requires
                -0x1_0000_0000 <= dy <= 0x1_0000_0000,
        ;
    }
    dx * dx + dy * dy
}

pub open spec fn square_of(r: u32) -> i128 {
    (r * r) as i128
}

pub fn square(r: u32) -> (s: i128)
    ensures
        s == square_of(r),
        s == r * r,
{
    proof {
        assert(0 <= r * r <= 0x1_0000_0000 * 0x1_0000_0000) by (nonlinear_arith)
            requires
                0 <= r <= 0x1_0000_0000,
        ;
    }
    r as i128 * r as i128
}

/// The structure with a property nearest to a tile and no farther than a
/// distance. Ties break on id, then on position in the list.
pub open spec fn nearest_where(
    items: Seq<Structure>,
    p: spec_fn(Structure) -> bool,
    x: u32,
    y: u32,
    max2: i128,
) -> Option<int>
    decreases items.len(),
{
    if items.len() == 0 {
        None
    } else {
        let s = items.last();
        let i = items.len() - 1;
        let d = dist2(s.x, s.y, x, y);
        let best = nearest_where(items.drop_last(), p, x, y, max2);
        if !p(s) || d > max2 {
            best
        } else {
            match best {
                Some(j) => {
                    let e = dist2(items[j].x, items[j].y, x, y);
                    if d < e || (d == e && s.id < items[j].id) {
                        Some(i as int)
                    } else {
                        best
                    }
                },
                None => Some(i as int),
            }
        }
    }
}

/// All structures in the world, kept in ascending id order so every traversal
/// is deterministic.
#[derive(Debug)]
pub struct Structures {
    pub items: Vec<Structure>,
    pub next_id: i64,
}

/// The place of the structure with an id, or the length.
pub open spec fn structure_at(items: Seq<Structure>, id: i64) -> int {
    first_where(items, |s: Structure| s.id == id)
}

impl Structures {
    pub fn new() -> (r: Self)
        ensures
            r.items@.len() == 0,
            r.next_id == 1,
    {
        Structures { items: Vec::new(), next_id: 1 }
    }

    pub fn with_next_id(next_id: i64) -> (r: Self)
        ensures
            r.items@.len() == 0,
            r.next_id == if next_id > 1 {
                next_id
            } else {
                1
            },
    {
        Structures {
            items: Vec::new(),
            next_id: if next_id > 1 {
                next_id
            } else {
                1
            },
        }
    }

    pub fn add(&mut self, s: Structure) -> (id: i64)
        requires
            old(self).next_id < i64::MAX,
        ensures
            id == old(self).next_id,
            final(self).next_id == old(self).next_id + 1,
            final(self).items@ == old(self).items@.push(Structure { id, dirty: true, ..s }),
    {
        let id = self.next_id;
        self.next_id = self.next_id + 1;
        let mut s = s;
        s.id = id;
        s.dirty = true;
        self.items.push(s);
        id
    }

    /// The place of the structure with an id, or the length.
    pub fn position(&self, id: i64) -> (i: usize)
        ensures
            i == structure_at(self.items@, id),
            i <= self.items@.len(),
            i < self.items@.len() ==> self.items@[i as int].id == id,
    {
        let mut i: usize = 0;
        while i < self.items.len() && self.items[i].id != id
            invariant
                i <= self.items@.len(),
                forall|j: int| 0 <= j < i ==> #[trigger] self.items@[j].id != id,
            decreases self.items@.len() - i,
        {
            i = i + 1;
        }
        proof {
            lemma_first_where_is(self.items@, |s: Structure| s.id == id, i as int);
        }
        i
    }

    pub fn get(&self, id: i64) -> (r: Option<&Structure>)
        ensures
            r == if structure_at(self.items@, id) < self.items@.len() {
                Some(&self.items@[structure_at(self.items@, id)])
            } else {
                None
            },
            r matches Some(s) ==> s.id == id,
    {
        let i = self.position(id);
        if i < self.items.len() {
            Some(&self.items[i])
        } else {
            None
        }
    }

    pub fn get_mut(&mut self, id: i64) -> (r: Option<&mut Structure>)
        ensures
            match r {
                Some(s) => {
                    let i = structure_at(old(self).items@, id);
                    &&& 0 <= i < old(self).items@.len()
                    &&& *s == old(self).items@[i]
                    &&& final(self).items@ == old(self).items@.update(i, *final(s))
                    &&& final(self).next_id == old(self).next_id
                },
                None => structure_at(old(self).items@, id) == old(self).items@.len() && *final(self) == *old(self),
            },
    {
        let i = self.position(id);
        if i < self.items.len() {
            Some(&mut self.items[i])
        } else {
            None
        }
    }

    pub fn next_id(&self) -> (r: i64)
        ensures
            r == self.next_id,
    {
        self.next_id
    }

    pub open spec fn nearest_shelter_at(&self, x: u32, y: u32, max_dist: u32) -> Option<int> {
        nearest_where(
            self.items@,
            |s: Structure| s.shelters() && s.has_room(),
            x,
            y,
            square_of(max_dist),
        )
    }

    /// The nearest usable shelter with room, by squared distance. Ties break on
    /// id so the choice never depends on insertion order.
    pub fn nearest_shelter(&self, x: u32, y: u32, max_dist: u32) -> (r: Option<&Structure>)
        ensures
            r == match self.nearest_shelter_at(x, y, max_dist) {
                Some(i) => Some(&self.items@[i]),
                None => None,
            },
            self.nearest_shelter_at(x, y, max_dist) matches Some(i) ==> 0 <= i < self.items@.len(),
    {
        let max2 = square(max_dist);
        let ghost p = |s: Structure| s.shelters() && s.has_room();
        let mut best: Option<usize> = None;
        for i in 0..self.items.len()
            invariant
                p == (|s: Structure| s.shelters() && s.has_room()),
                best matches Some(j) ==> j < i,
                nearest_where(self.items@.take(i as int), p, x, y, max2) == match best {
                    Some(j) => Some(j as int),
                    None => None,
                },
        {
            proof {
                assert(self.items@.take(i + 1).drop_last() == self.items@.take(i as int));
            }
            if self.items[i].shelters() && self.items[i].has_room() {
                best = closer(&self.items, best, i, x, y, max2);
            }
        }
        assert(self.items@.take(self.items@.len() as int) == self.items@);
        match best {
            Some(j) => Some(&self.items[j]),
            None => None,
        }
    }

    pub open spec fn fire_near_at(&self, x: u32, y: u32, radius: u32, tick: i64) -> Option<int> {
        nearest_where(self.items@, |s: Structure| s.is_lit(tick), x, y, square_of(radius))
    }

    /// A lit fire within warming range of a tile.
    pub fn fire_near(&self, x: u32, y: u32, radius: u32, tick: i64) -> (r: Option<&Structure>)
        ensures
            r == match self.fire_near_at(x, y, radius, tick) {
                Some(i) => Some(&self.items@[i]),
                None => None,
            },
            self.fire_near_at(x, y, radius, tick) matches Some(i) ==> 0 <= i < self.items@.len(),
    {
        let max2 = square(radius);
        let ghost p = |s: Structure| s.is_lit(tick);
        let mut best: Option<usize> = None;
        for i in 0..self.items.len()
            invariant
                p == (|s: Structure| s.is_lit(tick)),
                best matches Some(j) ==> j < i,
                nearest_where(self.items@.take(i as int), p, x, y, max2) == match best {
                    Some(j) => Some(j as int),
                    None => None,
                },
        {
            proof {
                assert(self.items@.take(i + 1).drop_last() == self.items@.take(i as int));
            }
            if self.items[i].is_lit(tick) {
                best = closer(&self.items, best, i, x, y, max2);
            }
        }
        assert(self.items@.take(self.items@.len() as int) == self.items@);
        match best {
            Some(j) => Some(&self.items[j]),
            None => None,
        }
    }
}

/// One candidate more in a search for the nearest.
fn closer(
    items: &Vec<Structure>,
    best: Option<usize>,
    i: usize,
    x: u32,
    y: u32,
    max2: i128,
) -> (r: Option<usize>)
    requires
        i < items@.len(),
        best matches Some(j) ==> j < i,
    ensures
        r == {
            let d = dist2(items@[i as int].x, items@[i as int].y, x, y);
            if d > max2 {
                best
            } else {
                match best {
                    Some(j) => {
                        let e = dist2(items@[j as int].x, items@[j as int].y, x, y);
                        if d < e || (d == e && items@[i as int].id < items@[j as int].id) {
                            Some(i)
                        } else {
                            best
                        }
                    },
                    None => Some(i),
                }
            }
        },
{
    let d = dist2(items[i].x, items[i].y, x, y);
    if d > max2 {
        return best;
    }
    match best {
        Some(j) => {
            let e = dist2(items[j].x, items[j].y, x, y);
            if d < e || (d == e && items[i].id < items[j].id) {
                Some(i)
            } else {
                best
            }
        },
        None => Some(i),
    }
}

/// What the search finds: a candidate in range that none is nearer than, and
/// that has the lowest id at its distance. It finds nothing only if there is
/// no candidate in range.
pub proof fn law_nearest_is_nearest(
    items: Seq<Structure>,
    p: spec_fn(Structure) -> bool,
    x: u32,
    y: u32,
    max2: i128,
)
    ensures
        match nearest_where(items, p, x, y, max2) {
            Some(i) => {
                &&& 0 <= i < items.len()
                &&& p(items[i])
                &&& dist2(items[i].x, items[i].y, x, y) <= max2
                &&& forall|j: int|
                    0 <= j < items.len() && p(#[trigger] items[j]) ==> dist2(items[i].x, items[i].y, x, y) < dist2(
                        items[j].x,
                        items[j].y,
                        x,
                        y,
                    ) || (dist2(items[i].x, items[i].y, x, y) == dist2(items[j].x, items[j].y, x, y)
                        && items[i].id <= items[j].id)
            },
            None => forall|j: int|
                0 <= j < items.len() && p(#[trigger] items[j]) ==> dist2(items[j].x, items[j].y, x, y) > max2,
        },
    decreases items.len(),
{
    if items.len() > 0 {
        let shorter = items.drop_last();
        law_nearest_is_nearest(shorter, p, x, y, max2);
        assert forall|j: int| 0 <= j < shorter.len() implies #[trigger] items[j] == shorter[j] by {}
        assert(items[items.len() - 1] == items.last());
    }
}

/// Shelf life in ticks, or nothing for food that keeps indefinitely.
pub open spec fn shelf_life_spec(kind: ItemKind, cfg: &WorldConfig) -> Option<u32> {
    if !cfg.features.spoilage {
        None
    } else {
        match kind {
            ItemKind::Forage => Some(cfg.resources.forage_spoil_ticks),
            ItemKind::Meat => Some(cfg.resources.meat_spoil_ticks),
            ItemKind::Grain => cfg.resources.grain_spoil_ticks,
            ItemKind::Wood => None,
        }
    }
}

/// Shelf life in ticks, or `None` for food that keeps indefinitely.
#[verifier::when_used_as_spec(shelf_life_spec)]
pub fn shelf_life(kind: ItemKind, cfg: &WorldConfig) -> (r: Option<u32>)
    ensures
        r == shelf_life_spec(kind, cfg),
{
    if !cfg.features.spoilage {
        return None;
    }
    match kind {
        ItemKind::Forage => Some(cfg.resources.forage_spoil_ticks),
        ItemKind::Meat => Some(cfg.resources.meat_spoil_ticks),
        ItemKind::Grain => cfg.resources.grain_spoil_ticks,
        ItemKind::Wood => None,
    }
}

/// Ticks until this batch spoils, or `None` if it keeps.
pub fn ticks_until_spoiled(b: &Batch, tick: i64, cfg: &WorldConfig) -> (r: Option<i64>)
    requires
        shelf_life(b.kind, cfg) matches Some(life) ==> i64::MIN <= b.harvested_tick + life - tick <= i64::MAX,
    ensures
        match r {
            Some(t) => shelf_life(b.kind, cfg) matches Some(life) && t == b.harvested_tick + life - tick,
            None => shelf_life(b.kind, cfg) is None,
        },
{
    match shelf_life(b.kind, cfg) {
        Some(life) => Some((b.harvested_tick as i128 + life as i128 - tick as i128) as i64),
        None => None,
    }
}

/// A batch past its shelf life.
pub open spec fn is_spoiled(b: Batch, tick: i64, cfg: &WorldConfig) -> bool {
    match shelf_life(b.kind, cfg) {
        Some(life) => tick - b.harvested_tick >= life,
        None => false,
    }
}

/// The total of what has spoiled.
pub open spec fn lost_of(batches: Seq<Batch>, tick: i64, cfg: &WorldConfig) -> Num
    decreases batches.len(),
{
    if batches.len() == 0 {
        num(NOTHING)
    } else {
        let before = lost_of(batches.drop_last(), tick, cfg);
        if is_spoiled(batches.last(), tick, cfg) {
            before + batches.last().quantity
        } else {
            before
        }
    }
}

/// What has not spoiled, in its order.
pub open spec fn unspoiled(batches: Seq<Batch>, tick: i64, cfg: &WorldConfig) -> Seq<Batch> {
    batches.filter(|b: Batch| !is_spoiled(b, tick, cfg))
}

/// Expires spoiled batches. Returns what was lost: food spoiled against food
/// eaten is how over-gathering of perishables shows.
pub fn spoil(inventory: &mut Inventory, tick: i64, cfg: &WorldConfig) -> (lost: Num)
    ensures
        lost == lost_of(old(inventory).batches@, tick, cfg),
        final(inventory).batches@ == unspoiled(old(inventory).batches@, tick, cfg),
{
    let ghost all = inventory.batches@;
    let ghost keep = |b: Batch| !is_spoiled(b, tick, cfg);
    let mut lost = num(NOTHING);
    let mut kept: Vec<Batch> = Vec::new();
    proof {
        lemma_filter_start(all, keep);
    }
    for i in 0..inventory.batches.len()
        invariant
            inventory.batches@ == all,
            keep == (|b: Batch| !is_spoiled(b, tick, cfg)),
            kept@ == all.take(i as int).filter(keep),
            lost == lost_of(all.take(i as int), tick, cfg),
    {
        proof {
            lemma_filter_step(all, keep, i as int);
            assert(all.take(i + 1).drop_last() == all.take(i as int));
        }
        let b = inventory.batches[i];
        let gone = match shelf_life(b.kind, cfg) {
            Some(life) => tick as i128 - b.harvested_tick as i128 >= life as i128,
            None => false,
        };
        if gone {
            lost = lost + b.quantity;
        } else {
            kept.push(b);
        }
    }
    inventory.batches = kept;
    lost
}

/// With spoilage off, and for wood and for grain without a shelf life, nothing
/// ever spoils.
pub proof fn law_what_keeps_is_kept(b: Batch, tick: i64, cfg: &WorldConfig)
    requires
        !cfg.features.spoilage || b.kind == ItemKind::Wood || (b.kind == ItemKind::Grain
            && cfg.resources.grain_spoil_ticks is None),
    ensures
        !is_spoiled(b, tick, cfg),
{
}

/// What a pass of spoilage leaves, the same pass leaves again; and what has
/// spoiled by a tick has spoiled at every later one.
pub proof fn law_spoilage_only_advances(batches: Seq<Batch>, tick: i64, later: i64, cfg: &WorldConfig)
    requires
        tick <= later,
    ensures
        unspoiled(unspoiled(batches, tick, cfg), later, cfg) == unspoiled(batches, later, cfg),
        unspoiled(unspoiled(batches, tick, cfg), tick, cfg) == unspoiled(batches, tick, cfg),
    decreases batches.len(),
{
    reveal(Seq::filter);
    if batches.len() > 0 {
        let shorter = batches.drop_last();
        law_spoilage_only_advances(shorter, tick, later, cfg);
        let kept = unspoiled(shorter, tick, cfg);
        if !is_spoiled(batches.last(), tick, cfg) {
            assert(kept.push(batches.last()).drop_last() == kept);
        }
    }
}

pub open spec fn regrown(n: ResourceNode) -> ResourceNode {
    if n.regen_rate.le(num(NOTHING)) || !n.quantity.lt(n.max_quantity) {
        n
    } else {
        ResourceNode { quantity: (n.quantity + n.regen_rate).min(n.max_quantity), ..n }
    }
}

/// Regrows nodes toward their maximum and advances crops: a planted node starts
/// at nothing and matures at the same rate.
pub fn regrow(world: &mut World, _cfg: &WorldConfig)
    ensures
        final(world).nodes@ == old(world).nodes@.map_values(|n: ResourceNode| regrown(n)),
        *final(world) == (World { nodes: final(world).nodes, ..*old(world) }),
{
    let ghost before = world.nodes@;
    let ghost start = *world;
    let len = world.nodes.len();
    for i in 0..len
        invariant
            len == before.len(),
            world.nodes@.len() == before.len(),
            forall|j: int| 0 <= j < i ==> #[trigger] world.nodes@[j] == regrown(before[j]),
            forall|j: int| i <= j < before.len() ==> #[trigger] world.nodes@[j] == before[j],
            *world == (World { nodes: world.nodes, ..start }),
    {
        let mut n = world.nodes[i];
        if !n.regen_rate.le(num(NOTHING)) && n.quantity.lt(n.max_quantity) {
            n.quantity = (n.quantity + n.regen_rate).min(n.max_quantity);
            world.nodes[i] = n;
        }
    }
    assert(world.nodes@ == before.map_values(|n: ResourceNode| regrown(n)));
}

/// Regrowth never carries a node past its maximum, and never changes anything
/// but the quantity.
pub proof fn law_regrowth_is_capped(n: ResourceNode)
    requires
        !n.max_quantity.is_nan(),
    ensures
        regrown(n) == (ResourceNode { quantity: regrown(n).quantity, ..n }),
        n.quantity.le(n.max_quantity) ==> regrown(n).quantity.le(n.max_quantity),
        regrown(n) != n ==> regrown(n).quantity.le(n.max_quantity),
{
}

/// 0.08
pub const WANDER_CHANCE: u32 = 0x3DA3_D70A;

/// 0.0016
pub const LAMB_CHANCE: u32 = 0x3AD1_B717;

/// 6.0
pub const SHEEP_MAX: u32 = 0x40C0_0000;

pub open spec fn live_sheep(n: ResourceNode) -> bool {
    n.kind == NodeKind::Sheep && !n.quantity.le(num(NOTHING))
}

/// A sheep after its chance to wander, and the stream after the draws. A step
/// that leaves the map or the grass is not taken.
pub open spec fn wandered(g: Ground, n: ResourceNode, s: Stream) -> (ResourceNode, Stream) {
    if s.unit_here().lt(num(WANDER_CHANCE)) {
        let s1 = s.stepped();
        let s2 = s1.ranged(-1, 1);
        let nx = n.x + s1.range_here(-1, 1);
        let ny = n.y + s2.range_here(-1, 1);
        if g.inside(nx, ny) && g.tile(nx, ny) == Terrain::Grass {
            (ResourceNode { x: nx as u32, y: ny as u32, ..n }, s2.ranged(-1, 1))
        } else {
            (n, s2.ranged(-1, 1))
        }
    } else {
        (n, s.stepped())
    }
}

/// The flock from node `i` on: where everything ends up, the stream, how many
/// sheep live, and where lambs are due.
pub open spec fn grazed(
    g: Ground,
    nodes: Seq<ResourceNode>,
    s: Stream,
    i: int,
    live: nat,
    births: Seq<(u32, u32)>,
) -> (Seq<ResourceNode>, Stream, nat, Seq<(u32, u32)>)
    decreases nodes.len() - i,
{
    if i < 0 || i >= nodes.len() {
        (nodes, s, live, births)
    } else if !live_sheep(nodes[i]) {
        grazed(g, nodes, s, i + 1, live, births)
    } else {
        let (n, s1) = wandered(g, nodes[i], s);
        let due = if s1.unit_here().lt(num(LAMB_CHANCE)) {
            births.push((n.x, n.y))
        } else {
            births
        };
        grazed(g, nodes.update(i, n), s1.stepped(), i + 1, live + 1, due)
    }
}

/// A slot left by a slaughtered sheep.
pub open spec fn is_empty_slot(n: ResourceNode) -> bool {
    n.kind == NodeKind::Sheep && n.quantity.le(num(NOTHING))
}

/// One lamb: into the first empty slot, else at the end of the list.
pub open spec fn with_lamb(nodes: Seq<ResourceNode>, x: u32, y: u32) -> Seq<ResourceNode> {
    let i = first_where(nodes, |n: ResourceNode| is_empty_slot(n));
    if i < nodes.len() {
        nodes.update(i, ResourceNode { x, y, quantity: num(ONE), ..nodes[i] })
    } else {
        nodes.push(
            ResourceNode {
                kind: NodeKind::Sheep,
                x,
                y,
                quantity: num(ONE),
                max_quantity: num(SHEEP_MAX),
                regen_rate: num(NOTHING),
            },
        )
    }
}

/// Lambs are born in turn until the flocks reach their cap.
pub open spec fn lambed(nodes: Seq<ResourceNode>, births: Seq<(u32, u32)>, live: nat, cap: nat) -> Seq<
    ResourceNode,
>
    decreases births.len(),
{
    if births.len() == 0 || live >= cap {
        nodes
    } else {
        lambed(with_lamb(nodes, births.first().0, births.first().1), births.drop_first(), live + 1, cap)
    }
}

/// The nodes and the stream after a tick of the flocks.
pub open spec fn flocks_after(g: Ground, nodes: Seq<ResourceNode>, cfg: &WorldConfig, s: Stream) -> (
    Seq<ResourceNode>,
    Stream,
) {
    if !cfg.features.sheep {
        (nodes, s)
    } else {
        let (moved, s1, live, births) = grazed(g, nodes, s, 0, 0, Seq::empty());
        (lambed(moved, births, live, (cfg.resources.sheep_flocks * 8) as nat), s1)
    }
}

/// Sheep wander and, slowly, breed against a cap. Node indices are the stable
/// handle a plan step holds, so entries are reused and appended, never removed.
pub fn sheep_tick(world: &mut World, cfg: &WorldConfig, rng: &mut Stream)
    requires
        old(world).wf(),
    ensures
        (final(world).nodes@, *final(rng)) == flocks_after(
            old(world).ground(),
            old(world).nodes@,
            cfg,
            *old(rng),
        ),
        *final(world) == (World { nodes: final(world).nodes, ..*old(world) }),
        final(world).nodes@.len() >= old(world).nodes@.len(),
        final(world).nodes@.len() <= 2 * old(world).nodes@.len(),
{
    if !cfg.features.sheep {
        return;
    }
    let ghost start = *world;
    let ghost s0 = *rng;
    let cap: u64 = cfg.resources.sheep_flocks as u64 * 8;
    let mut live: u64 = 0;
    let mut births: Vec<(u32, u32)> = Vec::new();
    let len = world.nodes.len();
    let mut tape = Tape::blank();
    let ghost whole = grazed(start.ground(), start.nodes@, s0, 0, 0, Seq::empty());
    for i in 0..len
        invariant
            tape.wf(),
            start.wf(),
            len == start.nodes@.len(),
            world.nodes@.len() == len,
            *world == (World { nodes: world.nodes, ..start }),
            live <= i,
            births@.len() <= i,
            whole == grazed(start.ground(), world.nodes@, *rng, i as int, live as nat, births@),
    {
        let n = world.nodes[i];
        if n.kind == NodeKind::Sheep && !n.quantity.le(num(NOTHING)) {
            live = live + 1;
            let ghost before = *rng;
            let mut moved = n;
            if rng.unit_from(&mut tape).lt(num(WANDER_CHANCE)) {
                let dx = rng.range(-1, 1);
                let dy = rng.range(-1, 1);
                let nx = n.x as i64 + dx;
                let ny = n.y as i64 + dy;
                if world.in_bounds(nx, ny) {
                    proof {
                        crate::world::lemma_tile_index(world.width, world.height, nx as int, ny as int);
                    }
                    if world.at(nx as u32, ny as u32) == Terrain::Grass {
                        moved.x = nx as u32;
                        moved.y = ny as u32;
                    }
                }
            }
            assert((moved, *rng) == wandered(start.ground(), n, before));
            world.nodes[i] = moved;
            if rng.unit_from(&mut tape).lt(num(LAMB_CHANCE)) {
                births.push((moved.x, moved.y));
            }
        }
    }
    let ghost grazed_nodes = world.nodes@;
    let ghost all = births@;
    let ghost live0 = live as nat;
    let mut k: usize = 0;
    assert(all.skip(0) == all);
    while k < births.len() && live < cap
        invariant
            k <= births@.len(),
            births@ == all,
            live <= len + k,
            births@.len() <= len,
            len == start.nodes@.len(),
            world.nodes@.len() >= start.nodes@.len(),
            world.nodes@.len() <= start.nodes@.len() + k,
            *world == (World { nodes: world.nodes, ..start }),
            lambed(grazed_nodes, all, live0, cap as nat) == lambed(
                world.nodes@,
                all.skip(k as int),
                live as nat,
                cap as nat,
            ),
            cap <= 0xFFFF_FFFF * 8,
        decreases births@.len() - k,
    {
        let (x, y) = births[k];
        let ghost nodes = world.nodes@;
        proof {
            assert(all.skip(k as int).first() == all[k as int]);
            assert(all.skip(k as int).drop_first() == all.skip(k + 1));
        }
        live = live + 1;
        let mut i: usize = 0;
        while i < world.nodes.len() && !(world.nodes[i].kind == NodeKind::Sheep && world.nodes[i].quantity.le(
            num(NOTHING),
        ))
            invariant
                i <= world.nodes@.len(),
                world.nodes@ == nodes,
                forall|j: int| 0 <= j < i ==> !is_empty_slot(#[trigger] nodes[j]),
            decreases nodes.len() - i,
        {
            i = i + 1;
        }
        proof {
            lemma_first_where_is(nodes, |n: ResourceNode| is_empty_slot(n), i as int);
        }
        if i < world.nodes.len() {
            let mut slot = world.nodes[i];
            slot.x = x;
            slot.y = y;
            slot.quantity = num(ONE);
            world.nodes[i] = slot;
        } else {
            world.nodes.push(
                ResourceNode {
                    kind: NodeKind::Sheep,
                    x,
                    y,
                    quantity: num(ONE),
                    max_quantity: num(SHEEP_MAX),
                    regen_rate: num(NOTHING),
                },
            );
        }
        assert(world.nodes@ == with_lamb(nodes, x, y));
        k = k + 1;
    }
}

/// Cold ashes: a fire out of wood for more than a day.
pub open spec fn is_ash(s: Structure, tick: i64) -> bool {
    s.kind == StructureKind::Fire && s.fuel_remaining.le(num(NOTHING)) && match s.lit_until_tick {
        Some(t) => tick - t > 24,
        None => false,
    }
}

/// A structure after a tick: a fire burns wood, anything else decays.
pub open spec fn weathered(s: Structure, cfg: &WorldConfig, tick: i64) -> Structure {
    if s.kind == StructureKind::Fire {
        if s.fuel_remaining.gt(num(NOTHING)) {
            let fuel = (s.fuel_remaining - cfg.resources.fire_fuel_burn_per_tick).max(num(NOTHING));
            Structure {
                fuel_remaining: fuel,
                dirty: true,
                lit_until_tick: if fuel.le(num(NOTHING)) {
                    Some(tick)
                } else {
                    s.lit_until_tick
                },
                ..s
            }
        } else {
            s
        }
    } else if s.condition.gt(num(NOTHING)) {
        Structure {
            condition: (s.condition - cfg.actions.shelter_decay_per_tick).max(num(NOTHING)),
            dirty: true,
            ..s
        }
    } else {
        s
    }
}

/// A fire that this tick burns its last wood.
pub open spec fn gutters(s: Structure, cfg: &WorldConfig) -> bool {
    s.kind == StructureKind::Fire && s.fuel_remaining.gt(num(NOTHING)) && (s.fuel_remaining
        - cfg.resources.fire_fuel_burn_per_tick).max(num(NOTHING)).le(num(NOTHING))
}

pub open spec fn standing(items: Seq<Structure>, tick: i64) -> Seq<Structure> {
    items.filter(|s: Structure| !is_ash(s, tick))
}

/// Clears cold ashes, burns fuel in lit fires, gutters the ones that run out,
/// and decays shelters. Returns the number of fires that went out this tick.
pub fn burn_and_decay(structures: &mut Structures, cfg: &WorldConfig, tick: i64) -> (guttered: u32)
    requires
        old(structures).items@.len() <= u32::MAX,
    ensures
        final(structures).next_id == old(structures).next_id,
        final(structures).items@ == standing(old(structures).items@, tick).map_values(
            |s: Structure| weathered(s, cfg, tick),
        ),
        guttered == count_where(standing(old(structures).items@, tick), |s: Structure| gutters(s, cfg)),
{
    let ghost all = structures.items@;
    let ghost keep = |s: Structure| !is_ash(s, tick);
    let ghost dims = |s: Structure| gutters(s, cfg);
    let mut kept: Vec<Structure> = Vec::new();
    let mut guttered: u32 = 0;
    proof {
        lemma_filter_start(all, keep);
    }
    for i in 0..structures.items.len()
        invariant
            structures.items@ == all,
            all.len() <= u32::MAX,
            keep == (|s: Structure| !is_ash(s, tick)),
            dims == (|s: Structure| gutters(s, cfg)),
            kept@ == all.take(i as int).filter(keep).map_values(|s: Structure| weathered(s, cfg, tick)),
            guttered == count_where(all.take(i as int).filter(keep), dims),
            guttered <= i,
    {
        let ghost before = all.take(i as int).filter(keep);
        proof {
            lemma_filter_step(all, keep, i as int);
        }
        let mut s = structures.items[i];
        let ghost s0 = s;
        let ash = s.kind == StructureKind::Fire && s.fuel_remaining.le(num(NOTHING)) && match s.lit_until_tick {
            Some(t) => tick as i128 - t as i128 > 24,
            None => false,
        };
        if !ash {
            match s.kind {
                StructureKind::Fire => {
                    if s.fuel_remaining.gt(num(NOTHING)) {
                        s.fuel_remaining = (s.fuel_remaining - cfg.resources.fire_fuel_burn_per_tick).max(
                            num(NOTHING),
                        );
                        s.dirty = true;
                        if s.fuel_remaining.le(num(NOTHING)) {
                            s.lit_until_tick = Some(tick);
                            guttered = guttered + 1;
                        }
                    }
                },
                StructureKind::Shelter | StructureKind::Pen => {
                    if s.condition.gt(num(NOTHING)) {
                        s.condition = (s.condition - cfg.actions.shelter_decay_per_tick).max(num(NOTHING));
                        s.dirty = true;
                    }
                },
            }
            assert(s == weathered(s0, cfg, tick));
            kept.push(s);
            assert(before.push(s0).drop_last() == before);
        }
    }
    structures.items = kept;
    guttered
}

/// A spatial index over resource nodes, rebuilt each tick.
///
/// Observation and target-seeking both need what is near a tile; a coarse grid
/// answers that without looking at every node.
pub struct NodeIndex {
    pub grid: Grid,
}

impl View for NodeIndex {
    type V = GridV;

    open spec fn view(&self) -> GridV {
        self.grid@
    }
}

/// Where the nodes stand that an index lists.
pub open spec fn stands_of(nodes: Seq<ResourceNode>) -> Seq<Option<(u32, u32)>> {
    nodes.map_values(
        |n: ResourceNode|
            if is_indexed(n) {
                Some((n.x, n.y))
            } else {
                None
            },
    )
}

/// Whether an index reports a node near a tile: it lists the node in a cell that
/// the radius reaches, and the node is within the radius.
pub open spec fn reported(index: GridV, nodes: Seq<ResourceNode>, x: u32, y: u32, radius: u32, i: u32) -> bool {
    &&& dist2(nodes[i as int].x, nodes[i as int].y, x, y) <= square_of(radius)
    &&& index.within_reach(x, y, radius, i)
}

/// A node the index lists: anything but a dead sheep.
pub open spec fn is_indexed(n: ResourceNode) -> bool {
    !(n.quantity.le(num(NOTHING)) && n.kind == NodeKind::Sheep)
}

impl NodeIndex {
    /// Every cell lists exactly the indexed nodes among the first `n` that fall
    /// in it.
    pub open spec fn covers(&self, nodes: Seq<ResourceNode>, n: int) -> bool {
        forall|cx: int, cy: int, i: u32| #[trigger]
            self.grid.lists(cx, cy, i) <==> i < n && is_indexed(nodes[i as int]) && self.grid.falls_in(
                nodes[i as int].x,
                nodes[i as int].y,
                cx,
                cy,
            )
    }

    /// The index is settled by the nodes it covers.
    pub proof fn lemma_chart(&self, nodes: Seq<ResourceNode>)
        requires
            self.grid.wf(),
            nodes.len() <= u32::MAX,
            self.covers(nodes, nodes.len() as int),
        ensures
            self@ == grid_over(self.grid.cell, self.grid.cols, self.grid.rows, stands_of(nodes)),
    {
        let places = stands_of(nodes);
        assert forall|cx: int, cy: int, i: u32| #[trigger]
            self.grid.lists(cx, cy, i) <==> i < places.len() && places[i as int] is Some && self.grid.falls_in(
                places[i as int]->Some_0.0,
                places[i as int]->Some_0.1,
                cx,
                cy,
            ) by {
            if i < nodes.len() {
                assert(places[i as int] is Some <==> is_indexed(nodes[i as int]));
            }
        }
        self.grid.lemma_grid_over(places);
    }

    /// Every listed node exists.
    pub open spec fn refers_into(&self, nodes: Seq<ResourceNode>) -> bool {
        self.grid.all_below(nodes.len() as int)
    }

    pub fn new(world: &World, cell: u32) -> (r: Self)
        requires
            cell > 0,
            world.width > 0,
            world.height > 0,
            groups(world.width, cell) * groups(world.height, cell) <= u32::MAX,
            world.nodes@.len() <= u32::MAX,
        ensures
            r.grid.wf(),
            r.grid.spans(world.width, world.height, cell),
            r.covers(world.nodes@, world.nodes@.len() as int),
            r.refers_into(world.nodes@),
            r@ == map_grid(world.width, world.height, cell, stands_of(world.nodes@)),
    {
        let mut me = NodeIndex { grid: Grid::new(world.width, world.height, cell) };
        me.rebuild(world);
        me
    }

    pub fn rebuild(&mut self, world: &World)
        requires
            old(self).grid.wf(),
            world.nodes@.len() <= u32::MAX,
        ensures
            final(self).grid.wf(),
            final(self).grid.same_shape(&old(self).grid),
            final(self).covers(world.nodes@, world.nodes@.len() as int),
            final(self).refers_into(world.nodes@),
            final(self)@ == grid_over(
                old(self).grid.cell,
                old(self).grid.cols,
                old(self).grid.rows,
                stands_of(world.nodes@),
            ),
    {
        let ghost start = self.grid;
        self.grid.clear();
        for i in 0..world.nodes.len()
            invariant
                world.nodes@.len() <= u32::MAX,
                self.grid.wf(),
                self.grid.same_shape(&start),
                self.grid.all_below(i as int),
                self.covers(world.nodes@, i as int),
        {
            let n = world.nodes[i];
            if !(n.quantity.le(num(NOTHING)) && n.kind == NodeKind::Sheep) {
                self.grid.put(n.x, n.y, i as u32);
            }
        }
        proof {
            self.lemma_chart(world.nodes@);
        }
    }

    /// The first listed node of a kind on exactly a tile with something left.
    pub open spec fn found_at(&self, world: &World, kind: NodeKind, x: u32, y: u32) -> Option<u32> {
        if x >= world.width || y >= world.height {
            None
        } else {
            let listed = self.grid.listed_with(x, y);
            let k = first_where(listed, |i: u32| stands_at(world.nodes@[i as int], kind, x, y));
            if k < listed.len() {
                Some(listed[k])
            } else {
                None
            }
        }
    }

    /// The live node of this kind standing on exactly this tile, if any.
    pub fn find_at(&self, world: &World, kind: NodeKind, x: u32, y: u32) -> (r: Option<u32>)
        requires
            self.grid.wf(),
            self.refers_into(world.nodes@),
        ensures
            r == self.found_at(world, kind, x, y),
            r matches Some(i) ==> i < world.nodes@.len() && stands_at(world.nodes@[i as int], kind, x, y),
    {
        if x >= world.width || y >= world.height {
            return None;
        }
        let listed = self.grid.cell_with(x, y);
        let mut k: usize = 0;
        while k < listed.len()
            invariant
                self.refers_into(world.nodes@),
                x < world.width && y < world.height,
                self.grid.wf(),
                listed@ == self.grid.listed_with(x, y),
                k <= listed@.len(),
                forall|j: int| 0 <= j < k ==> !stands_at(world.nodes@[#[trigger] listed@[j] as int], kind, x, y),
            decreases listed@.len() - k,
        {
            let i = listed[k];
            proof {
                self.grid.lemma_listed_with(x, y, k as int);
            }
            let n = world.nodes[i as usize];
            if n.kind == kind && n.x == x && n.y == y && n.quantity.gt(num(TRACE)) {
                proof {
                    lemma_first_where_is(
                        listed@,
                        |i: u32| stands_at(world.nodes@[i as int], kind, x, y),
                        k as int,
                    );
                }
                return Some(i);
            }
            k = k + 1;
        }
        proof {
            lemma_first_where_is(listed@, |i: u32| stands_at(world.nodes@[i as int], kind, x, y), k as int);
        }
        None
    }

    /// Whether a listed node belongs to what is near a tile: listed in a cell
    /// that the radius reaches, and itself within the radius.
    pub open spec fn reports(&self, nodes: Seq<ResourceNode>, x: u32, y: u32, radius: u32, i: u32) -> bool {
        &&& dist2(nodes[i as int].x, nodes[i as int].y, x, y) <= square_of(radius)
        &&& self.grid.within_reach(x, y, radius, i)
    }

    /// Node indices within `radius` tiles of (x, y), in ascending order whatever
    /// the layout of the cells.
    pub fn near(&self, world: &World, x: u32, y: u32, radius: u32, out: &mut Vec<u32>)
        requires
            self.grid.wf(),
            self.refers_into(world.nodes@),
        ensures
            ascending(final(out)@),
            forall|i: u32| #[trigger] final(out)@.contains(i) <==> self.reports(world.nodes@, x, y, radius, i),
            forall|k: int| 0 <= k < final(out)@.len() ==> (#[trigger] final(out)@[k]) < world.nodes@.len(),
    {
        out.clear();
        let candidates = self.grid.gather(x, y, radius);
        let r2 = square(radius);
        let ghost nodes = world.nodes@;
        let ghost all = candidates@;
        for k in 0..candidates.len()
            invariant
                nodes == world.nodes@,
                all == candidates@,
                self.refers_into(nodes),
                self.grid.wf(),
                r2 == square_of(radius),
                ascending(all),
                forall|i: u32| #[trigger] all.contains(i) <==> self.grid.within_reach(x, y, radius, i),
                ascending(out@),
                forall|j: int| 0 <= j < out@.len() ==> (#[trigger] out@[j]) < nodes.len() && all.take(
                    k as int,
                ).contains(out@[j]),
                forall|i: u32|
                    #[trigger] out@.contains(i) <==> all.take(k as int).contains(i) && dist2(
                        nodes[i as int].x,
                        nodes[i as int].y,
                        x,
                        y,
                    ) <= r2,
        {
            let i = candidates[k];
            proof {
                assert(all.contains(i));
                self.grid.lemma_within_reach_below(x, y, radius, i, nodes.len() as int);
            }
            let n = &world.nodes[i as usize];
            let ghost before = out@;
            let close = dist2(n.x, n.y, x, y) <= r2;
            if close {
                out.push(i);
            }
            proof {
                let prior = all.take(k as int);
                let now = all.take(k + 1);
                assert forall|j: u32| #[trigger] now.contains(j) <==> prior.contains(j) || j == i by {
                    if prior.contains(j) {
                        let m = prior.index_of(j);
                        assert(now[m] == j);
                    }
                    assert(now[k as int] == i);
                    if now.contains(j) && j != i {
                        let m = now.index_of(j);
                        assert(prior[m] == j);
                    }
                }
                assert(!prior.contains(i)) by {
                    if prior.contains(i) {
                        let m = prior.index_of(i);
                        assert(all[m] < all[k as int]);
                    }
                }
                if close {
                    assert forall|a: int, b: int| 0 <= a < b < out@.len() implies out@[a] < out@[b] by {
                        if b == before.len() {
                            assert(prior.contains(before[a]));
                            let m = prior.index_of(before[a]);
                            assert(all[m] < all[k as int]);
                        }
                    }
                    assert forall|j: u32| #[trigger] out@.contains(j) <==> before.contains(j) || j == i by {
                        if before.contains(j) {
                            let m = before.index_of(j);
                            assert(out@[m] == j);
                        }
                        assert(out@[before.len() as int] == i);
                        if out@.contains(j) && j != i {
                            let m = out@.index_of(j);
                            assert(before[m] == j);
                        }
                    }
                }
                assert forall|j: int| 0 <= j < out@.len() implies (#[trigger] out@[j]) < nodes.len() && now.contains(
                    out@[j],
                ) by {
                    if j < before.len() {
                        assert(prior.contains(before[j]));
                    }
                }
            }
        }
        assert(all.take(all.len() as int) == all);
    }
}

/// 0.01: less than this is nothing left.
pub const TRACE: u32 = 0x3C23_D70A;

pub open spec fn stands_at(n: ResourceNode, kind: NodeKind, x: u32, y: u32) -> bool {
    n.kind == kind && n.x == x && n.y == y && n.quantity.gt(num(TRACE))
}

proof fn lemma_axis(a: u32, b: u32, other: int, radius: u32)
    requires
        (a - b) * (a - b) + other * other <= radius * radius,
    ensures
        b - radius <= a <= b + radius,
{
    let d = a - b;
    assert(-radius <= d <= radius) by (nonlinear_arith)
        requires
            d * d + other * other <= radius * radius,
            radius >= 0,
    ;
}

/// From a tile of the map, an index that covers the nodes reports exactly the
/// nodes it lists that lie within the radius: no cell layout hides one.
pub proof fn law_near_is_complete(
    index: &NodeIndex,
    nodes: Seq<ResourceNode>,
    x: u32,
    y: u32,
    radius: u32,
    i: u32,
)
    requires
        index.grid.wf(),
        index.covers(nodes, nodes.len() as int),
        x / index.grid.cell < index.grid.cols,
        y / index.grid.cell < index.grid.rows,
        i < nodes.len(),
    ensures
        index.reports(nodes, x, y, radius, i) <==> is_indexed(nodes[i as int]) && dist2(
            nodes[i as int].x,
            nodes[i as int].y,
            x,
            y,
        ) <= square_of(radius),
{
    let n = nodes[i as int];
    if index.reports(nodes, x, y, radius, i) {
        let (a, b) = choose|a: int, b: int|
            index.grid.reaches(x, y, radius, a, b) && #[trigger] index.grid.lists(a, b, i);
        assert(index.grid.lists(a, b, i));
    }
    if is_indexed(n) && dist2(n.x, n.y, x, y) <= square_of(radius) {
        lemma_in_square(n.x, n.y, x, y, radius);
        let (cx, cy) = index.grid.lemma_square_is_reached(n.x, n.y, x, y, radius);
        assert(index.grid.lists(cx, cy, i));
    }
}

/// Whatever lies within a distance lies within the square of that radius.
pub proof fn lemma_in_square(ax: u32, ay: u32, bx: u32, by: u32, radius: u32)
    requires
        dist2(ax, ay, bx, by) <= square_of(radius),
    ensures
        bx - radius <= ax <= bx + radius,
        by - radius <= ay <= by + radius,
{
    let dx = ax - bx;
    let dy = ay - by;
    assert(0 <= dx * dx + dy * dy < 0x1_0000_0000 * 0x1_0000_0000 * 2) by (nonlinear_arith)
        requires
            -0x1_0000_0000 < dx < 0x1_0000_0000,
            -0x1_0000_0000 < dy < 0x1_0000_0000,
    ;
    assert(0 <= radius * radius < 0x1_0000_0000 * 0x1_0000_0000) by (nonlinear_arith)
        requires
            0 <= radius < 0x1_0000_0000,
    ;
    lemma_axis(ax, bx, dy, radius);
    assert(dy * dy + dx * dx <= radius * radius);
    lemma_axis(ay, by, dx, radius);
}

/// The hours go round every day, and night is where day is not: with its start and
/// its end exchanged, every hour changes sides.
pub proof fn law_night_is_not_day(tick: i64, night: &WorldConfig, day: &WorldConfig)
    requires
        day.actions.night_start_hour == night.actions.night_end_hour,
        day.actions.night_end_hour == night.actions.night_start_hour,
        night.actions.night_start_hour != night.actions.night_end_hour,
        0 <= tick < i64::MAX - 24,
    ensures
        is_night(tick, night) <==> !is_night(tick, day),
        hour_of(tick) < 24,
        hour_of((tick + 24) as i64) == hour_of(tick),
        hour_of(tick) == night.actions.night_start_hour ==> is_night(tick, night),
        hour_of(tick) == night.actions.night_end_hour ==> !is_night(tick, night),
{
    assert((tick + 24) % 24 == tick as int % 24);
}

/// A fire burns as long as there is something in it and no longer; what keeps the
/// weather off is a shelter that has not fallen in; and there is room where fewer
/// are inside than it holds.
pub proof fn law_what_a_structure_is_good_for(s: Structure, tick: i64)
    ensures
        s.is_lit(tick) ==> s.kind == StructureKind::Fire && num(0).lt(s.fuel_remaining),
        s.kind == StructureKind::Fire && num(0).lt(s.fuel_remaining) && s.lit_until_tick is None ==> s.is_lit(tick),
        s.shelters() <==> s.kind == StructureKind::Shelter && num(0x3E19_999A).lt(s.condition),
        s.has_room() <==> s.occupants < s.capacity,
{
}

/// Fires burn down and buildings wear: a tick takes its burn from the fuel of a fire
/// and its decay from the condition of anything else, neither below nothing, and
/// nothing else. A fire that has burned out went out in that tick.
pub proof fn law_a_tick_wears_what_stands(s: Structure, cfg: &WorldConfig, tick: i64)
    ensures
        ({
            let t = weathered(s, cfg, tick);
            let fire = s.kind == StructureKind::Fire;
            &&& t == (Structure {
                fuel_remaining: t.fuel_remaining,
                condition: t.condition,
                lit_until_tick: t.lit_until_tick,
                dirty: t.dirty,
                ..s
            })
            &&& fire ==> t.condition == s.condition
            &&& !fire ==> t.fuel_remaining == s.fuel_remaining && t.lit_until_tick == s.lit_until_tick
            &&& fire && num(0).lt(s.fuel_remaining) ==> t.fuel_remaining == (s.fuel_remaining
                - cfg.resources.fire_fuel_burn_per_tick).max(num(0))
            &&& !fire && num(0).lt(s.condition) ==> t.condition == (s.condition - cfg.actions.shelter_decay_per_tick).max(
                num(0),
            )
            &&& fire && num(0).lt(s.fuel_remaining) && t.fuel_remaining.le(num(0)) ==> t.lit_until_tick == Some(tick)
            &&& gutters(s, cfg) <==> fire && num(0).lt(s.fuel_remaining) && t.fuel_remaining.le(num(0))
            &&& fire && !num(0).lt(s.fuel_remaining) ==> t == s
        }),
{
}

/// Ash is what is left of a fire a day after it went out, and is all that is ever
/// cleared away.
pub proof fn law_only_ash_is_cleared(items: Seq<Structure>, tick: i64, s: Structure)
    ensures
        standing(items, tick).contains(s) <==> items.contains(s) && !is_ash(s, tick),
        is_ash(s, tick) ==> s.kind == StructureKind::Fire && s.fuel_remaining.le(num(0)),
        is_ash(s, tick) <==> s.kind == StructureKind::Fire && s.fuel_remaining.le(num(0)) && (s.lit_until_tick matches Some(
            out,
        ) && tick > out + 24),
{
    lemma_filtered(items, |s: Structure| !is_ash(s, tick), s);
}

/// Each food keeps for its own time, and spoils when that is up; what has spoiled is
/// thrown out and what has not is kept.
pub proof fn law_each_food_keeps_its_own_time(batches: Seq<Batch>, b: Batch, tick: i64, cfg: &WorldConfig)
    requires
        cfg.features.spoilage,
    ensures
        b.kind == ItemKind::Forage ==> (is_spoiled(b, tick, cfg) <==> tick - b.harvested_tick
            >= cfg.resources.forage_spoil_ticks),
        b.kind == ItemKind::Meat ==> (is_spoiled(b, tick, cfg) <==> tick - b.harvested_tick
            >= cfg.resources.meat_spoil_ticks),
        b.kind == ItemKind::Grain && cfg.resources.grain_spoil_ticks is Some ==> (is_spoiled(b, tick, cfg) <==> tick
            - b.harvested_tick >= cfg.resources.grain_spoil_ticks->0),
        unspoiled(batches, tick, cfg).contains(b) <==> batches.contains(b) && !is_spoiled(b, tick, cfg),
{
    lemma_filtered(batches, |b: Batch| !is_spoiled(b, tick, cfg), b);
}

/// What is lost to rot is what is thrown out: nothing where nothing has spoiled, and
/// of one more batch its quantity if it has and nothing if it has not.
pub proof fn law_what_rots_is_counted(batches: Seq<Batch>, b: Batch, tick: i64, cfg: &WorldConfig)
    ensures
        (forall|i: int| 0 <= i < batches.len() ==> !is_spoiled(#[trigger] batches[i], tick, cfg)) ==> lost_of(
            batches,
            tick,
            cfg,
        ) == num(0),
        lost_of(batches.push(b), tick, cfg) == if is_spoiled(b, tick, cfg) {
            lost_of(batches, tick, cfg) + b.quantity
        } else {
            lost_of(batches, tick, cfg)
        },
    decreases batches.len(),
{
    assert(batches.push(b).drop_last() == batches);
    if batches.len() > 0 {
        let shorter = batches.drop_last();
        law_what_rots_is_counted(shorter, b, tick, cfg);
        assert(forall|i: int| 0 <= i < shorter.len() ==> #[trigger] shorter[i] == batches[i]);
        assert(batches[batches.len() - 1] == batches.last());
    }
}

/// What grows grows by its rate: a node that is not full and has a rate gains it, or
/// what was missing if that is less; a full one, or one without, stays.
pub proof fn law_what_grows_grows_by_its_rate(n: ResourceNode)
    requires
        n.quantity.finite(),
    ensures
        num(0).lt(n.regen_rate) && n.quantity.lt(n.max_quantity) ==> regrown(n).quantity == (n.quantity
            + n.regen_rate).min(n.max_quantity) && n.quantity.le(regrown(n).quantity),
        !n.quantity.lt(n.max_quantity) || n.regen_rate.le(num(0)) ==> regrown(n) == n,
{
    if num(0).lt(n.regen_rate) {
        law_adding_leaves_no_less(n.quantity, n.regen_rate);
    }
}

/// Sheep wander by a tile at a time and only onto grass, and one that stays or is
/// dead is where it was. Wandering changes nothing but the place.
pub proof fn law_sheep_wander_on_grass(g: Ground, n: ResourceNode, s: Stream)
    requires
        -1 <= s.stepped().range_here(-1, 1) <= 1,
        -1 <= s.stepped().ranged(-1, 1).range_here(-1, 1) <= 1,
    ensures
        ({
            let (m, t) = wandered(g, n, s);
            &&& m == (ResourceNode { x: m.x, y: m.y, ..n })
            &&& (m.x, m.y) != (n.x, n.y) ==> g.tile(m.x as int, m.y as int) == Terrain::Grass && g.inside(
                m.x as int,
                m.y as int,
            )
            &&& (m.x, m.y) != (n.x, n.y) ==> s.unit_here().lt(num(0x3DA3_D70A))
            &&& n.x - 1 <= m.x <= n.x + 1 && n.y - 1 <= m.y <= n.y + 1
        }),
{
}

/// What the flocks do leaves everything else alone: no node but a sheep changes, no
/// node changes its kind or goes, and where sheep are switched off nothing changes
/// at all.
pub proof fn law_only_sheep_roam(g: Ground, nodes: Seq<ResourceNode>, cfg: &WorldConfig, s: Stream, k: int)
    requires
        0 <= k < nodes.len(),
    ensures
        !cfg.features.sheep ==> flocks_after(g, nodes, cfg, s) == (nodes, s),
        flocks_after(g, nodes, cfg, s).0.len() >= nodes.len(),
        flocks_after(g, nodes, cfg, s).0[k].kind == nodes[k].kind,
        nodes[k].kind != NodeKind::Sheep ==> flocks_after(g, nodes, cfg, s).0[k] == nodes[k],
{
    let (moved, s1, live, births) = grazed(g, nodes, s, 0, 0, Seq::empty());
    lemma_grazed_keeps(g, nodes, s, 0, 0, Seq::empty(), k);
    lemma_lambed_keeps(moved, births, live, (cfg.resources.sheep_flocks * 8) as nat, k);
}

proof fn lemma_grazed_keeps(
    g: Ground,
    nodes: Seq<ResourceNode>,
    s: Stream,
    i: int,
    live: nat,
    births: Seq<(u32, u32)>,
    k: int,
)
    requires
        0 <= k < nodes.len(),
        0 <= i,
    ensures
        grazed(g, nodes, s, i, live, births).0.len() == nodes.len(),
        grazed(g, nodes, s, i, live, births).0[k].kind == nodes[k].kind,
        nodes[k].kind != NodeKind::Sheep ==> grazed(g, nodes, s, i, live, births).0[k] == nodes[k],
    decreases nodes.len() - i,
{
    if i < nodes.len() {
        if !live_sheep(nodes[i]) {
            lemma_grazed_keeps(g, nodes, s, i + 1, live, births, k);
        } else {
            let (n, s1) = wandered(g, nodes[i], s);
            let due = if s1.unit_here().lt(num(LAMB_CHANCE)) {
                births.push((n.x, n.y))
            } else {
                births
            };
            lemma_grazed_keeps(g, nodes.update(i, n), s1.stepped(), i + 1, live + 1, due, k);
        }
    }
}

proof fn lemma_lambed_keeps(nodes: Seq<ResourceNode>, births: Seq<(u32, u32)>, live: nat, cap: nat, k: int)
    requires
        0 <= k < nodes.len(),
    ensures
        lambed(nodes, births, live, cap).len() >= nodes.len(),
        lambed(nodes, births, live, cap)[k].kind == nodes[k].kind,
        nodes[k].kind != NodeKind::Sheep ==> lambed(nodes, births, live, cap)[k] == nodes[k],
    decreases births.len(),
{
    if births.len() > 0 && live < cap {
        let (x, y) = births.first();
        law_a_lamb_is_one_sheep_more(nodes, x, y);
        lemma_lambed_keeps(with_lamb(nodes, x, y), births.drop_first(), live + 1, cap, k);
    }
}

/// A lamb is one live sheep where it was born: it takes the place of the first dead
/// one, or a new one if there is none, and no other node changes.
pub proof fn law_a_lamb_is_one_sheep_more(nodes: Seq<ResourceNode>, x: u32, y: u32)
    ensures
        ({
            let after = with_lamb(nodes, x, y);
            &&& nodes.len() <= after.len() <= nodes.len() + 1
            &&& exists|i: int|
                0 <= i < after.len() && (#[trigger] after[i]).kind == NodeKind::Sheep && after[i].x == x && after[i].y == y
                    && after[i].quantity == num(0x3F80_0000) && (i < nodes.len() ==> nodes[i].quantity.le(num(0))) && (
                forall|j: int| 0 <= j < nodes.len() && j != i ==> #[trigger] after[j] == nodes[j])
            &&& forall|j: int|
                0 <= j < nodes.len() && !((#[trigger] nodes[j]).kind == NodeKind::Sheep && nodes[j].quantity.le(num(0)))
                    ==> after[j] == nodes[j]
            &&& forall|j: int| 0 <= j < nodes.len() ==> (#[trigger] after[j]).kind == nodes[j].kind
        }),
{
    let p = |n: ResourceNode| is_empty_slot(n);
    lemma_first_where(nodes, p);
    let i = first_where(nodes, p);
    let after = with_lamb(nodes, x, y);
    if i < nodes.len() {
        assert(p(nodes[i]));
        assert(after[i].kind == NodeKind::Sheep);
    } else {
        assert(after[nodes.len() as int].kind == NodeKind::Sheep);
    }
}

/// The nearest shelter is one that stands, with room, within the distance, and none
/// such is nearer; the nearest fire likewise is one that is lit.
pub proof fn law_the_nearest_shelter_and_fire(s: &Structures, x: u32, y: u32, reach: u32, tick: i64, k: int)
    requires
        0 <= k < s.items@.len(),
    ensures
        s.nearest_shelter_at(x, y, reach) matches Some(i) ==> {
            let t = s.items@[i];
            &&& 0 <= i < s.items@.len()
            &&& t.kind == StructureKind::Shelter && num(0x3E19_999A).lt(t.condition) && t.occupants < t.capacity
            &&& dist2(t.x, t.y, x, y) <= reach * reach
            &&& s.items@[k].shelters() && s.items@[k].has_room() ==> dist2(t.x, t.y, x, y) <= dist2(
                s.items@[k].x,
                s.items@[k].y,
                x,
                y,
            )
        },
        s.nearest_shelter_at(x, y, reach) is None && s.items@[k].shelters() && s.items@[k].has_room() ==> dist2(
            s.items@[k].x,
            s.items@[k].y,
            x,
            y,
        ) > reach * reach,
        s.fire_near_at(x, y, reach, tick) matches Some(i) ==> 0 <= i < s.items@.len() && s.items@[i].is_lit(tick) && dist2(
            s.items@[i].x,
            s.items@[i].y,
            x,
            y,
        ) <= reach * reach,
        s.fire_near_at(x, y, reach, tick) is None && s.items@[k].is_lit(tick) ==> dist2(
            s.items@[k].x,
            s.items@[k].y,
            x,
            y,
        ) > reach * reach,
{
    let open = |t: Structure| t.shelters() && t.has_room();
    let lit = |t: Structure| t.is_lit(tick);
    law_nearest_is_nearest(s.items@, open, x, y, square_of(reach));
    law_nearest_is_nearest(s.items@, lit, x, y, square_of(reach));
    assert(reach * reach <= u32::MAX * u32::MAX) by (nonlinear_arith)
        requires
            0 <= reach <= u32::MAX,
    ;
    assert(0 <= reach * reach) by (nonlinear_arith);
    assert(square_of(reach) == reach * reach);
    assert(open(s.items@[k]) == (s.items@[k].shelters() && s.items@[k].has_room()));
    assert(lit(s.items@[k]) == s.items@[k].is_lit(tick));
    if let Some(i) = s.nearest_shelter_at(x, y, reach) {
        assert(open(s.items@[i]));
    }
    if let Some(i) = s.fire_near_at(x, y, reach, tick) {
        assert(lit(s.items@[i]));
    }
}

/// What is found at a place is there, is what was looked for, and is not used up.
pub proof fn law_what_is_found_is_there(index: &NodeIndex, world: &World, kind: NodeKind, x: u32, y: u32)
    ensures
        index.found_at(world, kind, x, y) matches Some(i) ==> {
            let n = world.nodes@[i as int];
            n.kind == kind && n.x == x && n.y == y && num(0x3C23_D70A).lt(n.quantity)
        },
        x >= world.width || y >= world.height ==> index.found_at(world, kind, x, y) is None,
{
    let listed = index.grid.listed_with(x, y);
    let p = |i: u32| stands_at(world.nodes@[i as int], kind, x, y);
    lemma_first_where(listed, p);
    let k = first_where(listed, p);
    if k < listed.len() {
        assert(p(listed[k]));
    }
}

} // verus!
