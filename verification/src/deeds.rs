//! What each kind of work comes to: what it takes, what it leaves behind, and what
//! it leaves alone.

use crate::actions::{
    craft_spec, executed, haul, is_wheat_on, least_fire, legal, near, paced, pursued, released, severity,
    shelter_beside, sown, AbortReason, Deed, Goal, Outcome, Setting, StepV, Target, DIAGONAL, INJURY_SPAN,
    LEAST_INJURY,
};
use crate::config::WorldConfig;
use crate::creature::{
    food_of, is_amount, law_the_oldest_food_is_picked, law_what_is_taken_is_gone, oldest_food_of, total_of, weight_of,
    with_added, with_taken, Batch, CreatureV, DeathCause, ItemKind, LifeStage,
};
use crate::economy::{dist2, law_nearest_is_nearest, square_of, structure_at, Structure, StructureKind};
use crate::event::EventKind;
use crate::lists::{first_where, lemma_first_where, lemma_first_where_is};
use crate::num::{
    law_a_share_is_no_more, law_a_share_of_something_is_finite, law_adding_leaves_no_less, law_no_product_is_negative,
    law_product_is_a_number, law_taking_leaves_no_more, num, of_int, Num,
};
use crate::records::one_more;
use crate::terrain::Terrain;
use crate::world::{Ground, NodeKind, ResourceNode};
use vstd::prelude::*;

verus! {

/// Drinking, at fresh water, slakes thirst by what a drink restores and never beyond
/// a hundred, and does nothing else to the drinker or the world. Anywhere else it
/// fails and changes nothing.
pub proof fn law_drinking_slakes_thirst(d: Deed, s: Setting)
    requires
        d.step.goal == Goal::Drink,
    ensures
        ({
            let (e, out) = pursued(d, s);
            if s.ground.tile(d.c.x as int, d.c.y as int) == Terrain::ShallowWater {
                &&& out == Outcome::StepComplete
                &&& e.c == (CreatureV {
                    thirst: (d.c.thirst + s.cfg.actions.drink_restore).min(num(0x42C8_0000)),
                    ..d.c
                })
                &&& e == (Deed { c: e.c, log: e.log, ..d })
                &&& e.log.len() == d.log.len() + 1
                &&& e.log.last().kind == EventKind::Drank
            } else {
                out == Outcome::Failed(AbortReason::PreconditionFailed) && e == d
            }
        }),
{
    reveal(pursued);
}

/// Eating takes a portion of the oldest food carried, or all of it if it is less,
/// and stills hunger by the amount times what that food is worth: six for forage,
/// fourteen for meat, eleven for grain. What was eaten is out of the pack and in the
/// count, and nothing else changes. Whoever carries no food eats nothing.
pub proof fn law_eating_stills_hunger(d: Deed, s: Setting, k: int)
    requires
        d.step.goal == Goal::EatFromInventory,
        forall|i: int| 0 <= i < d.c.pack.len() ==> is_amount((#[trigger] d.c.pack[i]).quantity),
        num(0).lt(s.cfg.actions.eat_portion),
    ensures
        ({
            let (e, out) = pursued(d, s);
            let pack = d.c.pack;
            &&& (forall|l: int| 0 <= l < pack.len() ==> (#[trigger] pack[l]).kind == ItemKind::Wood) ==> out
                == Outcome::Failed(AbortReason::PreconditionFailed) && e == d
            &&& 0 <= k < pack.len() && pack[k].kind != ItemKind::Wood && num(0).lt(pack[k].quantity) && (forall|l: int|
                0 <= l < pack.len() && (#[trigger] pack[l]).kind != ItemKind::Wood ==> pack[k].harvested_tick
                    < pack[l].harvested_tick || (pack[k].harvested_tick == pack[l].harvested_tick && k <= l)) ==> {
                let portion = s.cfg.actions.eat_portion.min(pack[k].quantity);
                let worth = num(
                    if pack[k].kind == ItemKind::Forage {
                        0x40C0_0000
                    } else if pack[k].kind == ItemKind::Meat {
                        0x4160_0000
                    } else {
                        0x4130_0000
                    },
                );
                let drained = pack.update(k, Batch { quantity: pack[k].quantity - portion, ..pack[k] });
                &&& out == Outcome::StepComplete
                &&& e.c == (CreatureV {
                    hunger: (d.c.hunger + portion * worth).min(num(0x42C8_0000)),
                    pack: e.c.pack,
                    ..d.c
                })
                &&& forall|b: Batch| #[trigger]
                    e.c.pack.contains(b) <==> drained.contains(b) && num(0x38D1_B717).lt(b.quantity)
                &&& e.eaten == d.eaten + portion
                &&& e == (Deed { c: e.c, eaten: e.eaten, log: e.log, ..d })
                &&& e.log.last().kind == EventKind::Ate
            }
        }),
{
    reveal(pursued);
    let pack = d.c.pack;
    law_the_oldest_food_is_picked(pack);
    if 0 <= k < pack.len() && pack[k].kind != ItemKind::Wood && num(0).lt(pack[k].quantity) && (forall|l: int|
        0 <= l < pack.len() && (#[trigger] pack[l]).kind != ItemKind::Wood ==> pack[k].harvested_tick
            < pack[l].harvested_tick || (pack[k].harvested_tick == pack[l].harvested_tick && k <= l)) {
        let o = oldest_food_of(pack)->0;
        let k2 = choose|k2: int|
            0 <= k2 < pack.len() && #[trigger] pack[k2] == o && forall|l: int|
                0 <= l < pack.len() && (#[trigger] pack[l]).kind != ItemKind::Wood ==> o.harvested_tick
                    < pack[l].harvested_tick || (o.harvested_tick == pack[l].harvested_tick && k2 <= l);
        assert(pack[k2] == o && pack[k] == pack[k]);
        assert(k2 == k);
        law_what_is_taken_is_gone(pack, pack[k].kind, s.cfg.actions.eat_portion.min(pack[k].quantity), k);
    }
}

/// Rest lifts fatigue, and that alone, by more under a roof as far as the rates say
/// so, and never beyond a hundred. It goes on until the sleeper is at ninety-nine or
/// the time for it is up.
pub proof fn law_rest_lifts_fatigue(d: Deed, s: Setting)
    requires
        d.step.goal == Goal::Rest,
    ensures
        ({
            let (e, out) = pursued(d, s);
            let by = if d.c.in_shelter is Some {
                s.cfg.actions.rest_restore_sheltered
            } else {
                s.cfg.actions.rest_restore
            };
            &&& e.c == (CreatureV { fatigue: (d.c.fatigue + by).min(num(0x42C8_0000)), ..d.c })
            &&& e == (Deed { c: e.c, log: e.log, ..d })
            &&& out == if num(0x42C6_0000).le(e.c.fatigue) || d.step.elapsed >= d.step.est_ticks {
                Outcome::StepComplete
            } else {
                Outcome::Working
            }
        }),
{
    reveal(pursued);
}

/// Somebody beside a standing shelter with room goes in: they are in that shelter,
/// and it houses one more. Somebody already inside stays, and where there is none
/// within a step nobody goes in anywhere.
pub proof fn law_going_in_fills_a_place(d: Deed, s: Setting)
    requires
        d.step.goal == Goal::Shelter,
        forall|i: int, j: int|
            0 <= i < j < d.structures.len() ==> (#[trigger] d.structures[i]).id != (#[trigger] d.structures[j]).id,
    ensures
        ({
            let (e, out) = pursued(d, s);
            let open = |t: Structure|
                t.kind == StructureKind::Shelter && num(0x3E19_999A).lt(t.condition) && t.occupants < t.capacity
                    && dist2(t.x, t.y, d.c.x, d.c.y) <= 1;
            &&& d.c.in_shelter is Some ==> e == d && out == Outcome::StepComplete
            &&& d.c.in_shelter is None && (exists|k: int| 0 <= k < d.structures.len() && open(#[trigger] d.structures[k]))
                ==> {
                &&& out == Outcome::StepComplete
                &&& exists|k: int|
                    0 <= k < d.structures.len() && open(#[trigger] d.structures[k]) && e.c == (CreatureV {
                        in_shelter: Some(d.structures[k].id),
                        ..d.c
                    }) && e.structures == d.structures.update(
                        k,
                        Structure { occupants: (d.structures[k].occupants + 1) as u32, dirty: true, ..d.structures[k] },
                    )
            }
            &&& d.c.in_shelter is None && !(exists|k: int|
                0 <= k < d.structures.len() && open(#[trigger] d.structures[k])) ==> e == d && out == Outcome::Failed(
                AbortReason::PreconditionFailed,
            )
        }),
{
    reveal(pursued);
    let p = |t: Structure| t.shelters() && t.has_room();
    assert(square_of(1) == 1) by {
        assert(1 * 1 == 1);
    }
    law_nearest_is_nearest(d.structures, p, d.c.x, d.c.y, square_of(1));
    if d.c.in_shelter is None {
        if let Some(k) = shelter_beside(d.structures, d.c.x, d.c.y) {
            assert(p(d.structures[k]));
            let id = d.structures[k].id;
            let named = |t: Structure| t.id == id;
            assert forall|j: int| 0 <= j < k implies !named(#[trigger] d.structures[j]) by {
                assert(d.structures[j].id != d.structures[k].id);
            }
            lemma_first_where_is(d.structures, named, k);
            assert(structure_at(d.structures, id) == k);
        }
    }
}

/// Coming out empties a place: somebody who was in a shelter is in none, and that
/// shelter houses one less. Going in and coming out again leaves as many inside as
/// before.
pub proof fn law_coming_out_empties_a_place(d: Deed, k: int)
    requires
        0 <= k < d.structures.len(),
        forall|i: int, j: int|
            0 <= i < j < d.structures.len() ==> (#[trigger] d.structures[i]).id != (#[trigger] d.structures[j]).id,
        d.c.in_shelter == Some(d.structures[k].id),
    ensures
        ({
            let e = released(d);
            let t = d.structures[k];
            &&& e.c == (CreatureV { in_shelter: None, ..d.c })
            &&& e.structures.len() == d.structures.len()
            &&& e.structures[k].occupants == if t.occupants > 0 {
                t.occupants - 1
            } else {
                0
            }
            &&& e.structures[k] == (Structure { occupants: e.structures[k].occupants, dirty: true, ..t })
            &&& forall|j: int| 0 <= j < d.structures.len() && j != k ==> #[trigger] e.structures[j] == d.structures[j]
        }),
{
    let id = d.structures[k].id;
    let named = |t: Structure| t.id == id;
    assert forall|j: int| 0 <= j < k implies !named(#[trigger] d.structures[j]) by {
        assert(d.structures[j].id != d.structures[k].id);
    }
    lemma_first_where_is(d.structures, named, k);
    assert(structure_at(d.structures, id) == k);
}

/// Whoever sets about anything but resting, eating and sheltering comes out of their
/// shelter first, and does not go in; resting and eating are done where one is.
pub proof fn law_work_is_done_outside(d: Deed, s: Setting)
    ensures
        ({
            let g = d.step.goal;
            let e = executed(d, s).0;
            &&& g != Goal::Rest && g != Goal::EatFromInventory && g != Goal::Shelter ==> e.c.in_shelter is None
            &&& g == Goal::Rest || g == Goal::EatFromInventory ==> e.c.in_shelter == d.c.in_shelter
        }),
{
    reveal(executed);
    let begun = Deed { step: StepV { elapsed: one_more(d.step.elapsed), ..d.step }, ..d };
    lemma_stays_out(begun, s);
    lemma_stays_out(released(begun), s);
    assert(released(begun).c.in_shelter is None);
}

/// Only sheltering takes anybody in or out.
#[verifier::rlimit(60)]
#[verifier::spinoff_prover]
proof fn lemma_stays_out(d: Deed, s: Setting)
    ensures
        d.step.goal != Goal::Shelter ==> pursued(d, s).0.c.in_shelter == d.c.in_shelter,
{
    reveal(pursued);
    match d.step.goal {
        Goal::GatherForage | Goal::ChopWood | Goal::HarvestWheat => {},
        Goal::MoveTo | Goal::Explore | Goal::Verify => {},
        Goal::FeedFire => {},
        Goal::RepairShelter => {},
        Goal::EatFromInventory => {},
        _ => {},
    }
}

/// Lighting a fire costs wood and makes a fire: what the wood cost took from the
/// pack is what the fire burns, it burns where it was lit, and it is lit. Without
/// the wood, or where fires are switched off, nothing happens.
pub proof fn law_a_fire_is_lit_from_wood(d: Deed, s: Setting)
    requires
        d.step.goal == Goal::BuildFire,
        d.next_id < i64::MAX,
    ensures
        ({
            let (e, out) = pursued(d, s);
            let cost = s.cfg.actions.fire_wood_cost;
            if s.cfg.features.fires && !total_of(d.c.pack, ItemKind::Wood).lt(cost) {
                let f = e.structures.last();
                &&& out == Outcome::StepComplete
                &&& e.c == (CreatureV { pack: with_taken(d.c.pack, ItemKind::Wood, cost).0, ..d.c })
                &&& e.structures == d.structures.push(f)
                &&& f.id == d.next_id && e.next_id == d.next_id + 1
                &&& f.kind == StructureKind::Fire
                &&& f.x == d.c.x && f.y == d.c.y
                &&& f.fuel_remaining == with_taken(d.c.pack, ItemKind::Wood, cost).1
                &&& num(0).lt(f.fuel_remaining) ==> f.is_lit(s.tick)
                &&& f.built_tick == s.tick
                &&& e.nodes == d.nodes
                &&& e.log.last().kind == EventKind::FireLit
            } else {
                out == Outcome::Failed(AbortReason::PreconditionFailed) && e == d
            }
        }),
{
    reveal(pursued);
}

/// Wood put on a fire burns there: of the fires within a step, the one of least
/// number gains what the pack loses, up to two, and is lit again. No other fire
/// changes.
pub proof fn law_wood_feeds_the_fire(d: Deed, s: Setting, k: int)
    requires
        d.step.goal == Goal::FeedFire,
        0 <= k < d.structures.len(),
        forall|i: int, j: int|
            0 <= i < j < d.structures.len() ==> (#[trigger] d.structures[i]).id != (#[trigger] d.structures[j]).id,
        d.structures[k].kind == StructureKind::Fire,
        near(d.structures[k].x, d.structures[k].y, d.c.x, d.c.y, 1),
        forall|j: int|
            0 <= j < d.structures.len() && (#[trigger] d.structures[j]).kind == StructureKind::Fire && near(
                d.structures[j].x,
                d.structures[j].y,
                d.c.x,
                d.c.y,
                1,
            ) ==> d.structures[k].id <= d.structures[j].id,
        num(0).lt(with_taken(d.c.pack, ItemKind::Wood, num(0x4000_0000)).1),
    ensures
        ({
            let (e, out) = pursued(d, s);
            let (pack, wood) = with_taken(d.c.pack, ItemKind::Wood, num(0x4000_0000));
            let f = d.structures[k];
            &&& out == Outcome::StepComplete
            &&& e.c == (CreatureV { pack, ..d.c })
            &&& e.structures == d.structures.update(
                k,
                Structure { fuel_remaining: f.fuel_remaining + wood, lit_until_tick: None, dirty: true, ..f },
            )
            &&& e.nodes == d.nodes
            &&& e.log.last().kind == EventKind::FireFed
        }),
{
    reveal(pursued);
    lemma_least_fire(d.structures, d.c.x, d.c.y, k);
    let id = d.structures[k].id;
    let named = |t: Structure| t.id == id;
    assert forall|j: int| 0 <= j < k implies !named(#[trigger] d.structures[j]) by {
        assert(d.structures[j].id != d.structures[k].id);
    }
    lemma_first_where_is(d.structures, named, k);
    assert(structure_at(d.structures, id) == k);
}

proof fn lemma_least_fire(structures: Seq<Structure>, x: u32, y: u32, k: int)
    requires
        0 <= k < structures.len(),
        structures[k].kind == StructureKind::Fire,
        near(structures[k].x, structures[k].y, x, y, 1),
        forall|j: int|
            0 <= j < structures.len() && (#[trigger] structures[j]).kind == StructureKind::Fire && near(
                structures[j].x,
                structures[j].y,
                x,
                y,
                1,
            ) ==> structures[k].id <= structures[j].id,
    ensures
        least_fire(structures, x, y) == Some(structures[k].id),
    decreases structures.len(),
{
    let shorter = structures.drop_last();
    assert(forall|j: int| 0 <= j < shorter.len() ==> #[trigger] shorter[j] == structures[j]);
    if k < shorter.len() {
        lemma_least_fire(shorter, x, y, k);
        assert(structures[structures.len() - 1] == structures.last());
    } else {
        lemma_no_less(shorter, x, y, structures[k].id);
    }
}

proof fn lemma_no_less(structures: Seq<Structure>, x: u32, y: u32, id: i64)
    requires
        forall|j: int|
            0 <= j < structures.len() && (#[trigger] structures[j]).kind == StructureKind::Fire && near(
                structures[j].x,
                structures[j].y,
                x,
                y,
                1,
            ) ==> id <= structures[j].id,
    ensures
        least_fire(structures, x, y) matches Some(other) ==> id <= other,
    decreases structures.len(),
{
    if structures.len() > 0 {
        let shorter = structures.drop_last();
        assert(forall|j: int| 0 <= j < shorter.len() ==> #[trigger] shorter[j] == structures[j]);
        lemma_no_less(shorter, x, y, id);
        assert(structures[structures.len() - 1] == structures.last());
    }
}

/// Each kind of node gives its own goods: forage gives forage, trees wood, a field
/// grain. Night slows foraging by its scale and nothing else.
pub proof fn law_each_node_gives_its_own(cfg: &WorldConfig, night: bool)
    ensures
        craft_spec(NodeKind::Forage, cfg, night).1 == ItemKind::Forage,
        craft_spec(NodeKind::Wood, cfg, night).1 == ItemKind::Wood,
        craft_spec(NodeKind::Wheat, cfg, night).1 == ItemKind::Grain,
        craft_spec(NodeKind::Wood, cfg, night).0 == cfg.actions.chop_wood_per_tick,
        craft_spec(NodeKind::Wheat, cfg, night).0 == cfg.actions.harvest_wheat_per_tick,
        craft_spec(NodeKind::Forage, cfg, true).0 == cfg.actions.gather_forage_per_tick
            * cfg.actions.night_forage_scale,
        craft_spec(NodeKind::Forage, cfg, false).0 == cfg.actions.gather_forage_per_tick * num(0x3F80_0000),
        craft_spec(NodeKind::Forage, cfg, night).2 == EventKind::Gathered,
        craft_spec(NodeKind::Wood, cfg, night).2 == EventKind::Chopped,
        craft_spec(NodeKind::Wheat, cfg, night).2 == EventKind::Harvested,
{
}

/// Nobody takes more from a node than it holds, than they have room for, or than
/// they can work in a tick, and nobody takes less than nothing. Who is held up by
/// none of these takes one of them exactly.
pub proof fn law_a_haul_has_three_limits(c: CreatureV, kind: NodeKind, left: Num, s: Setting)
    requires
        num(0).le(left),
    ensures
        ({
            let h = haul(c, kind, left, s);
            let room = c.carry_capacity(&s.cfg) - weight_of(c.pack);
            let work = craft_spec(kind, &s.cfg, s.night).0 * c.life_stage.work_rate();
            &&& num(0).le(h)
            &&& h.le(left)
            &&& num(0).le(room) ==> h.le(room)
            &&& num(0).le(work) ==> h.le(work)
            &&& h == work || h == left || h == room || h == num(0)
            &&& work.le(num(0)) || room.le(num(0)) ==> h.le(num(0))
        }),
{
}

/// Killing a sheep ends it and gives meat: what it yields, or as much as there is
/// room for. Nothing else on the map changes.
pub proof fn law_a_sheep_gives_meat(d: Deed, s: Setting, i: u32)
    requires
        d.step.goal == Goal::SlaughterSheep,
        d.step.target == Target::Node(i),
        i < d.nodes.len(),
        d.nodes[i as int].kind == NodeKind::Sheep,
        num(0).lt(d.nodes[i as int].quantity),
        near(d.nodes[i as int].x, d.nodes[i as int].y, d.c.x, d.c.y, 1),
    ensures
        ({
            let (e, out) = pursued(d, s);
            let room = (d.c.carry_capacity(&s.cfg) - weight_of(d.c.pack)).max(num(0));
            let meat = s.cfg.actions.slaughter_yield.min(room);
            &&& out == Outcome::StepComplete
            &&& e.c == (CreatureV { pack: with_added(d.c.pack, ItemKind::Meat, meat, s.tick), ..d.c })
            &&& e.nodes.len() == d.nodes.len()
            &&& e.nodes[i as int] == (ResourceNode { quantity: num(0), ..d.nodes[i as int] })
            &&& forall|k: int| 0 <= k < d.nodes.len() && k != i ==> #[trigger] e.nodes[k] == d.nodes[k]
            &&& e.gathered == d.gathered + meat
            &&& e.structures == d.structures
            &&& e.log.last().kind == EventKind::Slaughtered
        }),
{
    reveal(pursued);
}

/// Wheat is sown on soil, where the sower stands, and comes up from nothing: after
/// the time that planting takes there is a field there, empty, that grows to
/// twenty-four in the time that wheat takes. No other node changes, and nowhere else
/// is anything sown.
pub proof fn law_wheat_is_sown_on_soil(d: Deed, s: Setting)
    requires
        d.step.goal == Goal::PlantWheat,
        s.cfg.resources.wheat_growth_ticks > 0,
    ensures
        ({
            let (e, out) = pursued(d, s);
            let at = d.step.target.tile_in(d.nodes);
            let growing = ResourceNode {
                kind: NodeKind::Wheat,
                x: d.c.x,
                y: d.c.y,
                quantity: num(0),
                max_quantity: num(0x41C0_0000),
                regen_rate: num(0x41C0_0000) / of_int(s.cfg.resources.wheat_growth_ticks as int),
            };
            &&& out == Outcome::StepComplete ==> {
                &&& at == Some((d.c.x, d.c.y))
                &&& s.ground.tile(d.c.x as int, d.c.y as int) == Terrain::Soil
                &&& d.step.elapsed >= s.cfg.actions.plant_ticks
                &&& e.nodes.contains(growing)
                &&& forall|k: int|
                    0 <= k < d.nodes.len() && !((#[trigger] d.nodes[k]).kind == NodeKind::Wheat && d.nodes[k].x == d.c.x
                        && d.nodes[k].y == d.c.y) ==> e.nodes[k] == d.nodes[k]
                &&& e.nodes.len() <= d.nodes.len() + 1
                &&& e.log.last().kind == EventKind::Planted
            }
            &&& out != Outcome::StepComplete ==> e.nodes == d.nodes
            &&& at == Some((d.c.x, d.c.y)) && s.ground.tile(d.c.x as int, d.c.y as int) == Terrain::Soil
                && d.step.elapsed >= s.cfg.actions.plant_ticks ==> out == Outcome::StepComplete
            &&& e.c == d.c && e.structures == d.structures
        }),
{
    reveal(pursued);
    let p = is_wheat_on(d.c.x, d.c.y);
    lemma_first_where(d.nodes, p);
    let k = first_where(d.nodes, p);
    let e = pursued(d, s).0;
    if pursued(d, s).1 == Outcome::StepComplete {
        if k < d.nodes.len() {
            assert(p(d.nodes[k]));
            assert(e.nodes[k].kind == NodeKind::Wheat);
        } else {
            assert(e.nodes[d.nodes.len() as int].kind == NodeKind::Wheat);
        }
    }
}

/// Tending a crop makes it grow by twice its rate and never beyond what it can
/// hold; it is done within a step of it and changes nothing else on the map.
pub proof fn law_tending_makes_a_crop_grow(d: Deed, s: Setting, i: u32)
    requires
        d.step.goal == Goal::TendCrop,
        d.step.target == Target::Node(i),
        i < d.nodes.len(),
        d.nodes[i as int].kind == NodeKind::Wheat,
        near(d.nodes[i as int].x, d.nodes[i as int].y, d.c.x, d.c.y, 1),
    ensures
        ({
            let (e, out) = pursued(d, s);
            let n = d.nodes[i as int];
            &&& e.nodes.len() == d.nodes.len()
            &&& e.nodes[i as int] == (ResourceNode {
                quantity: (n.quantity + n.regen_rate * num(0x4000_0000)).min(n.max_quantity),
                ..n
            })
            &&& forall|k: int| 0 <= k < d.nodes.len() && k != i ==> #[trigger] e.nodes[k] == d.nodes[k]
            &&& e.c == d.c && e.structures == d.structures
            &&& out == if d.step.elapsed >= s.cfg.actions.tend_ticks {
                Outcome::StepComplete
            } else {
                Outcome::Working
            }
        }),
{
    reveal(pursued);
}

/// A shelter is built where the builder stands, from the wood it costs and after
/// the time it takes: it is new, sound, empty and holds as many as shelters hold.
pub proof fn law_a_shelter_is_built_from_wood(d: Deed, s: Setting)
    requires
        d.step.goal == Goal::BuildShelter,
        d.next_id < i64::MAX,
    ensures
        ({
            let (e, out) = pursued(d, s);
            let cost = s.cfg.actions.shelter_wood_cost;
            let ready = d.step.target.tile_in(d.nodes) == Some((d.c.x, d.c.y)) && !total_of(d.c.pack, ItemKind::Wood).lt(
                cost,
            ) && d.step.elapsed >= s.cfg.actions.shelter_build_ticks;
            &&& out == Outcome::StepComplete <==> ready
            &&& !ready ==> e == d
            &&& ready ==> {
                let t = e.structures.last();
                &&& e.c == (CreatureV { pack: with_taken(d.c.pack, ItemKind::Wood, cost).0, ..d.c })
                &&& e.structures == d.structures.push(t)
                &&& t.id == d.next_id && e.next_id == d.next_id + 1
                &&& t.kind == StructureKind::Shelter
                &&& t.x == d.c.x && t.y == d.c.y
                &&& t.condition == num(0x3F80_0000)
                &&& t.capacity == s.cfg.actions.shelter_capacity && t.occupants == 0
                &&& t.shelters()
                &&& e.nodes == d.nodes
                &&& e.log.last().kind == EventKind::ShelterBuilt
            }
        }),
{
    reveal(pursued);
}

/// Mending a shelter costs up to two wood and makes it sounder by 0.15 for each, up
/// to whole. Only that shelter changes.
pub proof fn law_mending_makes_a_shelter_sounder(d: Deed, s: Setting, k: int)
    requires
        d.step.goal == Goal::RepairShelter,
        0 <= k < d.structures.len(),
        forall|i: int, j: int|
            0 <= i < j < d.structures.len() ==> (#[trigger] d.structures[i]).id != (#[trigger] d.structures[j]).id,
        d.step.target == Target::Structure(d.structures[k].id),
        num(0).lt(with_taken(d.c.pack, ItemKind::Wood, num(0x4000_0000)).1),
    ensures
        ({
            let (e, out) = pursued(d, s);
            let (pack, wood) = with_taken(d.c.pack, ItemKind::Wood, num(0x4000_0000));
            let f = d.structures[k];
            &&& out == Outcome::StepComplete
            &&& e.c == (CreatureV { pack, ..d.c })
            &&& e.structures == d.structures.update(
                k,
                Structure {
                    condition: (f.condition + wood * num(0x3E19_999A)).min(num(0x3F80_0000)),
                    dirty: true,
                    ..f
                },
            )
            &&& e.nodes == d.nodes
            &&& e.log.last().kind == EventKind::ShelterRepaired
        }),
{
    reveal(pursued);
    let id = d.structures[k].id;
    let named = |t: Structure| t.id == id;
    assert forall|j: int| 0 <= j < k implies !named(#[trigger] d.structures[j]) by {
        assert(d.structures[j].id != d.structures[k].id);
    }
    lemma_first_where_is(d.structures, named, k);
    assert(structure_at(d.structures, id) == k);
}

/// What fails changes nothing but the worker's own place and pack: no node and no
/// structure is touched, no need is met, nothing is counted or told.
#[verifier::rlimit(60)]
#[verifier::spinoff_prover]
pub proof fn law_failed_work_leaves_no_mark(d: Deed, s: Setting)
    requires
        pursued(d, s).1 is Failed,
    ensures
        ({
            let e = pursued(d, s).0;
            &&& e.nodes == d.nodes && e.structures == d.structures && e.next_id == d.next_id
            &&& e.log == d.log && e.rng == d.rng
            &&& e.gathered == d.gathered && e.eaten == d.eaten
            &&& e.c == (CreatureV { x: e.c.x, y: e.c.y, pack: e.c.pack, ..d.c })
        }),
{
    reveal(pursued);
    match d.step.goal {
        Goal::GatherForage | Goal::ChopWood | Goal::HarvestWheat => {},
        Goal::MoveTo | Goal::Explore | Goal::Verify => {},
        Goal::FeedFire => {},
        Goal::RepairShelter => {},
        Goal::EatFromInventory => {},
        _ => {},
    }
}

/// Only felling and slaughter are dangerous, and only when they go on. Then one
/// draw against the accident rate decides: below it the worker is hurt, by six or
/// more, down to nothing at worst, and it is remembered as an accident of that tick
/// and told; otherwise no harm is done.
pub proof fn law_only_hard_work_hurts(d: Deed, s: Setting)
    ensures
        ({
            let (e, out) = executed(d, s);
            let hard = (d.step.goal == Goal::ChopWood || d.step.goal == Goal::SlaughterSheep) && !(out is Failed);
            &&& !hard ==> e.rng == d.rng && e.c.health == d.c.health && e.c.trauma == d.c.trauma
            &&& hard && !d.rng.unit_here().lt(s.cfg.hazards.accident_per_tick) ==> e.c.health == d.c.health
                && e.c.trauma == d.c.trauma || d.rng.unit_here().is_nan() || s.cfg.hazards.accident_per_tick.is_nan()
            &&& hard && d.rng.unit_here().lt(s.cfg.hazards.accident_per_tick) ==> {
                &&& e.c.trauma == Some((DeathCause::Accident, s.tick))
                &&& e.c.health == (d.c.health - severity(d.rng.stepped().unit_here())).max(num(0))
                &&& e.log.last().kind == EventKind::Injured
            }
        }),
{
    reveal(executed);
    let begun = Deed { step: StepV { elapsed: one_more(d.step.elapsed), ..d.step }, ..d };
    lemma_work_itself_is_safe(begun, s);
    lemma_work_itself_is_safe(released(begun), s);
}

/// What is done is safe in itself, whatever the risk that goes with it.
#[verifier::rlimit(60)]
#[verifier::spinoff_prover]
proof fn lemma_work_itself_is_safe(d: Deed, s: Setting)
    ensures
        ({
            let e = pursued(d, s).0;
            e.rng == d.rng && e.c.health == d.c.health && e.c.trauma == d.c.trauma
        }),
{
    reveal(pursued);
    match d.step.goal {
        Goal::GatherForage | Goal::ChopWood | Goal::HarvestWheat => {},
        Goal::MoveTo | Goal::Explore | Goal::Verify => {},
        Goal::FeedFire => {},
        Goal::RepairShelter => {},
        Goal::EatFromInventory => {},
        _ => {},
    }
}

/// An injury takes at least six, and leaves nobody healthier.
pub proof fn law_an_injury_costs_health(c: Num, roll: Num)
    requires
        c.finite(),
        num(0).le(roll),
        roll.lt(num(0x3F80_0000)),
    ensures
        num(0x40C0_0000).le(severity(roll)),
        (c - severity(roll)).le(c),
{
    law_a_share_is_no_more(num(0x3F80_0000), roll.abs());
    law_no_product_is_negative(roll, roll);
    law_product_is_a_number(roll, roll);
    lemma_cubed(roll);
    let cube = roll * roll * roll;
    law_no_product_is_negative(cube, num(INJURY_SPAN));
    law_adding_leaves_no_less(num(LEAST_INJURY), cube * num(INJURY_SPAN));
    law_taking_leaves_no_more(c, severity(roll));
}

proof fn lemma_cubed(roll: Num)
    requires
        num(0).le(roll),
        roll.lt(num(0x3F80_0000)),
    ensures
        num(0).le(roll * roll * roll),
        (roll * roll * roll).finite(),
{
    law_a_share_of_something_is_finite(roll, roll);
    law_a_share_of_something_is_finite(roll * roll, roll);
}

/// Whatever is finished is told, by its own name and by the one who did it.
pub proof fn law_each_deed_is_told(d: Deed, s: Setting)
    requires
        pursued(d, s).1 == Outcome::StepComplete,
    ensures
        ({
            let g = d.step.goal;
            let e = pursued(d, s).0;
            let silent = g == Goal::MoveTo || g == Goal::Explore || (g == Goal::Shelter && d.c.in_shelter is Some);
            let word = match g {
                Goal::Drink => EventKind::Drank,
                Goal::EatFromInventory => EventKind::Ate,
                Goal::Rest => EventKind::Rested,
                Goal::Shelter => EventKind::Sheltered,
                Goal::BuildFire => EventKind::FireLit,
                Goal::FeedFire => EventKind::FireFed,
                Goal::GatherForage => EventKind::Gathered,
                Goal::ChopWood => EventKind::Chopped,
                Goal::HarvestWheat => EventKind::Harvested,
                Goal::SlaughterSheep => EventKind::Slaughtered,
                Goal::PlantWheat => EventKind::Planted,
                Goal::TendCrop => EventKind::Tended,
                Goal::BuildShelter => EventKind::ShelterBuilt,
                Goal::RepairShelter => EventKind::ShelterRepaired,
                _ => EventKind::Verified,
            };
            &&& silent ==> e.log == d.log
            &&& !silent ==> e.log == d.log.push(e.log.last()) && e.log.last().kind == word && e.log.last().actor_id
                == Some(d.c.id) && e.log.last().tick == s.tick
        }),
{
    reveal(pursued);
}

/// Moving ends where it was headed: a journey is over only on the tile it was
/// meant for, and it changes nothing but where the traveller is and how far along.
pub proof fn law_a_journey_ends_at_its_goal(d: Deed, s: Setting)
    requires
        d.step.goal == Goal::MoveTo || d.step.goal == Goal::Explore || d.step.goal == Goal::Verify,
    ensures
        ({
            let (e, out) = pursued(d, s);
            let goal = d.step.target.tile_in(d.nodes);
            &&& e.c == (CreatureV { x: e.c.x, y: e.c.y, ..d.c })
            &&& e == (Deed { c: e.c, step: e.step, log: e.log, ..d })
            &&& goal is None ==> out == Outcome::Failed(AbortReason::TargetGone)
            &&& goal == Some((d.c.x, d.c.y)) ==> out == Outcome::StepComplete && e.c == d.c
            &&& out == Outcome::StepComplete && d.step.path_ready ==> goal == Some((e.c.x, e.c.y))
        }),
{
    reveal(pursued);
}

/// Whoever has a way to go and the speed to go gets at least one tile further, and
/// always stands on the way or where they were.
pub proof fn law_walking_gets_somewhere(
    g: Ground,
    path: Seq<(u32, u32)>,
    x: u32,
    y: u32,
    pos: nat,
    budget: Num,
    moved: bool,
)
    ensures
        ({
            let (nx, ny, after) = paced(g, path, x, y, pos, budget, moved);
            &&& pos <= path.len() ==> pos <= after <= path.len()
            &&& after > pos ==> (nx, ny) == path[after - 1]
            &&& after <= pos ==> (nx, ny) == (x, y)
            &&& num(0).lt(budget) && pos < path.len() && !moved ==> after > pos
        }),
    decreases path.len() - pos,
{
    if budget.gt(num(0)) && pos < path.len() {
        let (nx, ny) = path[pos as int];
        let cost = g.tile(nx as int, ny as int).move_cost() * num(
            if nx != x && ny != y {
                DIAGONAL
            } else {
                0x3F80_0000
            },
        );
        if !(cost.gt(budget) && moved) {
            law_walking_gets_somewhere(g, path, nx, ny, pos + 1, budget - cost, true);
        }
    }
}

/// What a grown creature may set about: to go where one can stand, to drink from
/// fresh water, to eat if there is food, to gather what is there while there is room
/// for it, to sow free soil, to tend what is not yet ripe, and to build, burn and
/// mend while there is the wood for it.
pub proof fn law_what_may_be_done(
    c: CreatureV,
    goal: Goal,
    target: Target,
    g: Ground,
    nodes: Seq<ResourceNode>,
    structures: Seq<Structure>,
    cfg: &WorldConfig,
)
    requires
        c.life_stage != LifeStage::Infant,
    ensures
        ({
            let at = target.tile_in(nodes);
            let spot = g.tile((at->0).0 as int, (at->0).1 as int);
            let wood = total_of(c.pack, ItemKind::Wood);
            let roomy = weight_of(c.pack).lt(c.carry_capacity(cfg) - num(0x3C23_D70A));
            let stocked = |kind: NodeKind|
                target matches Target::Node(i) && i < nodes.len() && nodes[i as int].kind == kind && num(
                    0x3C23_D70A,
                ).lt(nodes[i as int].quantity);
            let may = legal(c, goal, target, g, nodes, structures, cfg);
            &&& goal == Goal::MoveTo || goal == Goal::Explore || goal == Goal::Verify ==> (may <==> at is Some
                && g.inside((at->0).0 as int, (at->0).1 as int) && spot != Terrain::DeepWater)
            &&& goal == Goal::Drink ==> (may <==> at is Some && spot == Terrain::ShallowWater)
            &&& goal == Goal::EatFromInventory ==> (may <==> num(0).lt(food_of(c.pack)))
            &&& goal == Goal::Rest ==> may
            &&& goal == Goal::GatherForage ==> (may <==> stocked(NodeKind::Forage) && roomy)
            &&& goal == Goal::ChopWood ==> (may <==> stocked(NodeKind::Wood) && roomy)
            &&& goal == Goal::HarvestWheat ==> (may <==> cfg.features.wheat && stocked(NodeKind::Wheat) && roomy)
            &&& goal == Goal::SlaughterSheep ==> (may <==> cfg.features.sheep && stocked(NodeKind::Sheep) && roomy)
            &&& goal == Goal::PlantWheat && may ==> cfg.features.wheat && at is Some && spot == Terrain::Soil
            &&& goal == Goal::BuildFire ==> (may <==> cfg.features.fires && cfg.actions.fire_wood_cost.le(wood))
            &&& goal == Goal::FeedFire && may ==> cfg.features.fires && num(0x3F80_0000).le(wood)
            &&& goal == Goal::BuildShelter ==> (may <==> cfg.actions.shelter_wood_cost.le(wood) && at is Some && spot
                != Terrain::DeepWater && spot != Terrain::ShallowWater)
            &&& goal == Goal::RepairShelter && may ==> num(0x3F80_0000).le(wood)
        }),
{
}

} // verus!
