//! What a tick does to the world itself: growth, flocks, fires and rot.

use crate::actions::ActionCtx;
use crate::chance::Stream;
use crate::config::WorldConfig;
use crate::creature::{people_of, Batch, Creature, CreatureV};
use crate::economy::{
    burn_and_decay, flocks_after, gutters, is_ash, is_spoiled, law_only_ash_is_cleared, law_only_sheep_roam, lost_of,
    regrow, regrown, sheep_tick, spoil, standing, unspoiled, weathered, Structure,
};
use crate::event::{event_of, log_of, Event, EventKind, EventV};
use crate::lists::{count_where, lemma_filtered};
use crate::needs::lemma_people_update;
use crate::num::{num, Num, NOTHING};
use crate::social::{homes_of, Household, HouseholdV};
use crate::town::say;
use crate::world::{Ground, NodeKind, ResourceNode, World};
use vstd::prelude::*;

verus! {

/// A creature after what it carries has rotted.
pub open spec fn rotted(c: CreatureV, tick: i64, cfg: &WorldConfig) -> CreatureV {
    CreatureV {
        pack: unspoiled(c.pack, tick, cfg),
        dirty: c.dirty || lost_of(c.pack, tick, cfg).gt(num(NOTHING)),
        ..c
    }
}

pub open spec fn rotting(tick: i64, cfg: &WorldConfig) -> spec_fn(CreatureV) -> CreatureV {
    |c: CreatureV| rotted(c, tick, cfg)
}

/// A home after what it stores has rotted. That stores rot too is the whole point
/// of their holding batches rather than totals.
pub open spec fn stale(h: HouseholdV, tick: i64, cfg: &WorldConfig) -> HouseholdV {
    if h.dissolved_tick is None {
        HouseholdV {
            store: unspoiled(h.store, tick, cfg),
            dirty: h.dirty || lost_of(h.store, tick, cfg).gt(num(NOTHING)),
            ..h
        }
    } else {
        h
    }
}

pub open spec fn staling(tick: i64, cfg: &WorldConfig) -> spec_fn(HouseholdV) -> HouseholdV {
    |h: HouseholdV| stale(h, tick, cfg)
}

/// A total with a loss added, if there was one.
pub open spec fn with_loss(total: Num, lost: Num) -> Num {
    if lost.gt(num(NOTHING)) {
        total + lost
    } else {
        total
    }
}

/// How much the first `n` of a population lose to rot.
pub open spec fn carried_loss(people: Seq<CreatureV>, n: nat, tick: i64, cfg: &WorldConfig) -> Num
    decreases n,
{
    if n == 0 {
        num(NOTHING)
    } else {
        with_loss(
            carried_loss(people, (n - 1) as nat, tick, cfg),
            lost_of(people[n - 1].pack, tick, cfg),
        )
    }
}

/// What the standing ones among the first `n` homes lose, on top of a total.
pub open spec fn stored_loss(total: Num, homes: Seq<HouseholdV>, n: nat, tick: i64, cfg: &WorldConfig) -> Num
    decreases n,
{
    if n == 0 {
        total
    } else {
        let before = stored_loss(total, homes, (n - 1) as nat, tick, cfg);
        if homes[n - 1].dissolved_tick is None {
            with_loss(before, lost_of(homes[n - 1].store, tick, cfg))
        } else {
            before
        }
    }
}

fn rot_packs(creatures: &mut Vec<Creature>, tick: i64, cfg: &WorldConfig) -> (lost: Num)
    ensures
        people_of(final(creatures)@) == people_of(old(creatures)@).map_values(rotting(tick, cfg)),
        lost == carried_loss(people_of(old(creatures)@), old(creatures)@.len(), tick, cfg),
        final(creatures)@.len() == old(creatures)@.len(),
{
    let ghost start = people_of(creatures@);
    let n: usize = creatures.len();
    let mut total = num(NOTHING);
    for i in 0..n
        invariant
            n == creatures@.len() == start.len(),
            forall|j: int| 0 <= j < i ==> #[trigger] people_of(creatures@)[j] == rotted(start[j], tick, cfg),
            forall|j: int| i <= j < n ==> #[trigger] people_of(creatures@)[j] == start[j],
            total == carried_loss(start, i as nat, tick, cfg),
    {
        let ghost before = creatures@;
        assert(people_of(before)[i as int] == start[i as int]);
        let c = &mut creatures[i];
        let lost = spoil(&mut c.inventory, tick, cfg);
        if lost.gt(num(NOTHING)) {
            total = total + lost;
            c.dirty = true;
        }
        proof {
            lemma_people_update(before, i as int, creatures@[i as int]);
            assert(creatures@ == before.update(i as int, creatures@[i as int]));
        }
    }
    assert(people_of(creatures@) == start.map_values(rotting(tick, cfg)));
    total
}

fn rot_stores(homes: &mut Vec<Household>, total: Num, tick: i64, cfg: &WorldConfig) -> (lost: Num)
    ensures
        homes_of(final(homes)@) == homes_of(old(homes)@).map_values(staling(tick, cfg)),
        lost == stored_loss(total, homes_of(old(homes)@), old(homes)@.len(), tick, cfg),
{
    let ghost start = homes_of(homes@);
    let n: usize = homes.len();
    let mut lost_so_far = total;
    for i in 0..n
        invariant
            n == homes@.len() == start.len(),
            forall|j: int| 0 <= j < i ==> #[trigger] homes_of(homes@)[j] == stale(start[j], tick, cfg),
            forall|j: int| i <= j < n ==> #[trigger] homes_of(homes@)[j] == start[j],
            lost_so_far == stored_loss(total, start, i as nat, tick, cfg),
    {
        let ghost before = homes@;
        assert(homes_of(before)[i as int] == start[i as int]);
        if homes[i].is_alive() {
            let h = &mut homes[i];
            let lost = spoil(&mut h.store, tick, cfg);
            if lost.gt(num(NOTHING)) {
                lost_so_far = lost_so_far + lost;
                h.dirty = true;
            }
        }
        proof {
            assert(homes@ == before.update(i as int, homes@[i as int]));
            assert(homes_of(homes@) == homes_of(before).update(i as int, homes@[i as int]@));
        }
    }
    assert(homes_of(homes@) == start.map_values(staling(tick, cfg)));
    lost_so_far
}

/// The world a tick begins with.
#[verifier::ext_equal]
pub struct Season {
    pub nodes: Seq<ResourceNode>,
    pub structures: Seq<Structure>,
    pub people: Seq<CreatureV>,
    pub homes: Seq<HouseholdV>,
    pub rng: Stream,
    pub log: Seq<EventV>,
    /// All that was lost to rot.
    pub spoiled: Num,
}

pub open spec fn growing() -> spec_fn(ResourceNode) -> ResourceNode {
    |n: ResourceNode| regrown(n)
}

pub open spec fn season_of(creatures: Seq<Creature>, homes: Seq<Household>, ctx: &ActionCtx, spoiled: Num) -> Season {
    Season {
        nodes: ctx.world.nodes@,
        structures: ctx.structures.items@,
        people: people_of(creatures),
        homes: homes_of(homes),
        rng: ctx.rng,
        log: log_of(ctx.events@),
        spoiled,
    }
}

pub open spec fn guttering(cfg: &WorldConfig) -> spec_fn(Structure) -> bool {
    |s: Structure| gutters(s, cfg)
}

pub open spec fn weathering(cfg: &WorldConfig, tick: i64) -> spec_fn(Structure) -> Structure {
    |s: Structure| weathered(s, cfg, tick)
}

/// How the season turns. The rot told of is that of what people carry; the rot
/// counted is that of their homes as well.
pub open spec fn turned(a: Season, g: Ground, cfg: &WorldConfig, tick: i64) -> Season {
    let (nodes, rng) = flocks_after(g, a.nodes.map_values(growing()), cfg, a.rng);
    let guttered = count_where(standing(a.structures, tick), guttering(cfg));
    let said = if guttered > 0 {
        a.log.push(event_of(tick, EventKind::FireOut, 0).with_int("count"@, guttered as int))
    } else {
        a.log
    };
    let carried = carried_loss(a.people, a.people.len(), tick, cfg);
    Season {
        nodes,
        structures: standing(a.structures, tick).map_values(weathering(cfg, tick)),
        people: a.people.map_values(rotting(tick, cfg)),
        homes: a.homes.map_values(staling(tick, cfg)),
        rng,
        log: if carried.gt(num(NOTHING)) {
            said.push(event_of(tick, EventKind::Spoiled, 0).with_num("qty"@, carried))
        } else {
            said
        },
        spoiled: stored_loss(carried, a.homes, a.homes.len(), tick, cfg),
    }
}

/// Regrowth, crops, sheep, fires and spoilage. Gives what was lost to rot.
pub fn phase_world(creatures: &mut Vec<Creature>, homes: &mut Vec<Household>, ctx: &mut ActionCtx) -> (spoiled: Num)
    requires
        old(ctx).world.wf(),
        old(ctx).structures.items@.len() <= u32::MAX,
    ensures
        season_of(final(creatures)@, final(homes)@, final(ctx), spoiled) == turned(
            season_of(old(creatures)@, old(homes)@, old(ctx), num(NOTHING)),
            old(ctx).world.ground(),
            &old(ctx).cfg,
            old(ctx).tick,
        ),
        *final(ctx) == (ActionCtx {
            world: final(ctx).world,
            structures: final(ctx).structures,
            rng: final(ctx).rng,
            events: final(ctx).events,
            ..*old(ctx)
        }),
        final(ctx).world == (World { nodes: final(ctx).world.nodes, ..old(ctx).world }),
        final(ctx).structures.next_id == old(ctx).structures.next_id,
        final(ctx).world.nodes@.len() >= old(ctx).world.nodes@.len(),
        final(ctx).world.nodes@.len() <= 2 * old(ctx).world.nodes@.len(),
        final(creatures)@.len() == old(creatures)@.len(),
{
    let ghost a = season_of(creatures@, homes@, ctx, num(NOTHING));
    let ghost cfg = ctx.cfg;
    let tick = ctx.tick;
    regrow(&mut ctx.world, &ctx.cfg);
    assert(ctx.world.nodes@ == a.nodes.map_values(growing()));
    sheep_tick(&mut ctx.world, &ctx.cfg, &mut ctx.rng);
    let guttered = burn_and_decay(&mut ctx.structures, &ctx.cfg, tick);
    assert(ctx.structures.items@ == standing(a.structures, tick).map_values(weathering(&cfg, tick)));
    assert(guttering(&cfg) =~= (|s: Structure| gutters(s, &cfg)));
    if guttered > 0 {
        say(&mut ctx.events, Event::new(tick, EventKind::FireOut, 0).with_int("count", guttered as i64));
    }
    let carried = rot_packs(creatures, tick, &ctx.cfg);
    if carried.gt(num(NOTHING)) {
        say(&mut ctx.events, Event::new(tick, EventKind::Spoiled, 0).with_num("qty", carried));
    }
    rot_stores(homes, carried, tick, &ctx.cfg)
}

/// A tick of weather and rot takes nothing that keeps and gives nothing: everybody
/// is who and where they were, with what has not spoiled of what they carried; the
/// stores of living households likewise; and what was in the store of one that is
/// gone is left alone.
pub proof fn law_only_what_spoils_is_lost(a: Season, g: Ground, cfg: &WorldConfig, tick: i64, k: int, b: Batch)
    ensures
        ({
            let after = turned(a, g, cfg, tick);
            &&& after.people.len() == a.people.len() && after.homes.len() == a.homes.len()
            &&& 0 <= k < a.people.len() ==> {
                &&& after.people[k] == (CreatureV { pack: after.people[k].pack, dirty: after.people[k].dirty, ..a.people[k] })
                &&& after.people[k].pack.contains(b) <==> a.people[k].pack.contains(b) && !is_spoiled(b, tick, cfg)
            }
            &&& 0 <= k < a.homes.len() && a.homes[k].dissolved_tick is None ==> {
                &&& after.homes[k] == (HouseholdV { store: after.homes[k].store, dirty: after.homes[k].dirty, ..a.homes[k] })
                &&& after.homes[k].store.contains(b) <==> a.homes[k].store.contains(b) && !is_spoiled(b, tick, cfg)
            }
            &&& 0 <= k < a.homes.len() && a.homes[k].dissolved_tick is Some ==> after.homes[k] == a.homes[k]
        }),
{
    let p = |b: Batch| !is_spoiled(b, tick, cfg);
    if 0 <= k < a.people.len() {
        lemma_filtered(a.people[k].pack, p, b);
    }
    if 0 <= k < a.homes.len() {
        lemma_filtered(a.homes[k].store, p, b);
    }
}

/// Every node but the sheep grows by its own rule in every tick, whatever else
/// happens; and what stands and is not ash stands on, a tick more worn.
pub proof fn law_everything_grows_and_wears(a: Season, g: Ground, cfg: &WorldConfig, tick: i64, k: int)
    ensures
        ({
            let after = turned(a, g, cfg, tick);
            &&& 0 <= k < a.nodes.len() && a.nodes[k].kind != NodeKind::Sheep ==> after.nodes[k] == regrown(a.nodes[k])
            &&& 0 <= k < a.structures.len() && !is_ash(a.structures[k], tick) ==> after.structures.contains(
                weathered(a.structures[k], cfg, tick),
            )
            &&& after.structures.len() == standing(a.structures, tick).len()
        }),
{
    let after = turned(a, g, cfg, tick);
    let grown = a.nodes.map_values(growing());
    if 0 <= k < a.nodes.len() {
        law_only_sheep_roam(g, grown, cfg, a.rng, k);
        assert(grown[k] == regrown(a.nodes[k]));
    }
    if 0 <= k < a.structures.len() && !is_ash(a.structures[k], tick) {
        let s = a.structures[k];
        law_only_ash_is_cleared(a.structures, tick, s);
        assert(a.structures.contains(s));
        let i = standing(a.structures, tick).index_of(s);
        assert(after.structures[i] == weathered(s, cfg, tick));
    }
}

/// What has spoiled is counted: what everybody carried and what every living
/// household stored, and of each just what is thrown out.
pub proof fn law_what_spoils_is_counted(people: Seq<CreatureV>, homes: Seq<HouseholdV>, n: nat, total: Num, tick: i64, cfg: &WorldConfig)
    ensures
        n < people.len() ==> carried_loss(people, n + 1, tick, cfg) == if num(0).lt(
            lost_of(people[n as int].pack, tick, cfg),
        ) {
            carried_loss(people, n, tick, cfg) + lost_of(people[n as int].pack, tick, cfg)
        } else {
            carried_loss(people, n, tick, cfg)
        },
        carried_loss(people, 0, tick, cfg) == num(0),
        n < homes.len() ==> stored_loss(total, homes, n + 1, tick, cfg) == if homes[n as int].dissolved_tick is None && num(
            0,
        ).lt(lost_of(homes[n as int].store, tick, cfg)) {
            stored_loss(total, homes, n, tick, cfg) + lost_of(homes[n as int].store, tick, cfg)
        } else {
            stored_loss(total, homes, n, tick, cfg)
        },
        stored_loss(total, homes, 0, tick, cfg) == total,
{
}

} // verus!
