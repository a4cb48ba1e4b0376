//! How creatures come into the world.

use crate::actions::ActionCtx;
use crate::chance::Stream;
use crate::config::WorldConfig;
use crate::creature::{name_at, name_for, named, people_of, Creature, CreatureV, Inventory, LifeStage, Sex, Traits};
use crate::economy::NodeIndex;
use crate::event::{event_of, log_of, Event, EventKind, EventV};
use crate::grid::GridV;
use crate::keeping::{lemma_spawned_is_sound, sound};
use crate::needs::timely;
use crate::num::{num, of_int, Num, FULL, NOTHING};
use crate::pathfind::is_map;
use crate::perception::{at_home, seed_local_knowledge, WorldCache};
use crate::records::{count_one, more_by, swell, swelled};
use crate::social::ids_ascend;
use crate::town::say;
use crate::world::{lemma_tile_index, Founder, Ground, ResourceNode, World};
use crate::worldgen::{is_dry_land, tile_at};
use vstd::prelude::*;

verus! {

/// 0.9
pub const LEAST_CONSTITUTION: u32 = 0x3F66_6666;

/// 0.2
pub const CONSTITUTION_SPAN: u32 = 0x3E4C_CCCD;

/// 70.0
pub const LEAST_NEED: u32 = 0x428C_0000;

/// 30.0
pub const NEED_SPAN: u32 = 0x41F0_0000;

/// How far from the hearth people are scattered.
pub const SCATTER: u32 = 34;

/// Places tried before somebody is put at the hearth itself.
pub const SCATTER_TRIES: u32 = 64;

/// Who has been born, and who is still to be recorded.
pub struct Register {
    pub next_id: i64,
    pub total_births: u64,
    /// Born since the last write. A creature should exist in the record from the
    /// moment it is born.
    pub pending: Vec<i64>,
}

/// The people, the register, the log and the stream, as a birth finds them.
#[verifier::ext_equal]
pub struct Brood {
    pub people: Seq<CreatureV>,
    pub next_id: i64,
    pub total_births: u64,
    pub pending: Seq<i64>,
    pub log: Seq<EventV>,
    pub rng: Stream,
}

pub open spec fn brood_of(creatures: &Vec<Creature>, register: &Register, ctx: &ActionCtx) -> Brood {
    Brood {
        people: people_of(creatures@),
        next_id: register.next_id,
        total_births: register.total_births,
        pending: register.pending@,
        log: log_of(ctx.events@),
        rng: ctx.rng,
    }
}

/// The place a birth happens in.
#[verifier::ext_equal]
pub struct Place {
    pub ground: Ground,
    pub nodes: Seq<ResourceNode>,
    pub index: GridV,
    pub cfg: WorldConfig,
    pub tick: i64,
}

pub open spec fn place_of(ctx: &ActionCtx, index: GridV) -> Place {
    Place {
        ground: ctx.world.ground(),
        nodes: ctx.world.nodes@,
        index,
        cfg: ctx.cfg,
        tick: ctx.tick,
    }
}

/// A need somewhere near full.
pub open spec fn need_at(s: Stream) -> Num {
    num(LEAST_NEED) + s.unit_here() * num(NEED_SPAN)
}

/// The stream after a creature's traits and name.
pub open spec fn after_name(s: Stream) -> Stream {
    named(Traits::after(s))
}

/// A creature as it is put into the world, before it knows anything. A little
/// spread in constitution keeps identical circumstances from producing identical
/// deaths.
pub open spec fn arrival(
    id: i64,
    x: u32,
    y: u32,
    sex: Sex,
    age: i64,
    generation: i32,
    cfg: &WorldConfig,
    tick: i64,
    rng: Stream,
) -> CreatureV {
    let s = after_name(rng);
    let a = s.stepped();
    let b = a.stepped();
    let c = b.stepped();
    let d = c.stepped();
    CreatureV {
        id,
        name: name_at(Traits::after(rng)),
        sex,
        generation,
        mother_id: None,
        father_id: None,
        household_id: None,
        birth_tick: (tick - age) as i64,
        death_tick: None,
        death_cause: None,
        x,
        y,
        life_stage: LifeStage::of(age, &cfg.lifespan),
        hunger: need_at(a),
        thirst: need_at(b),
        fatigue: need_at(c),
        warmth: need_at(d),
        health: num(FULL),
        lifespan_ticks: of_int(cfg.lifespan.baseline_ticks as int) * (num(LEAST_CONSTITUTION) + s.unit_here() * num(
            CONSTITUTION_SPAN,
        )),
        wear: num(NOTHING),
        traits: Traits::drawn(rng),
        pack: Seq::empty(),
        plan: None,
        beliefs: Seq::empty(),
        last_deliberation_tick: None,
        deliberation_pressure: num(NOTHING),
        lifetime_deliberations: 0,
        lifetime_think_fatigue: num(NOTHING),
        in_shelter: None,
        exposed_ticks: 0,
        at_fire: false,
        trauma: None,
        mate_id: None,
        paired_tick: None,
        pregnancy: None,
        last_birth_tick: None,
        children_born: 0,
        guardian_id: None,
        taught_count: 0,
        shared_count: 0,
        dirty: true,
    }
}

/// The stream after a creature has been put into the world.
pub open spec fn after_arrival(s: Stream) -> Stream {
    after_name(s).stepped().stepped().stepped().stepped().stepped()
}

/// A creature put into the world knowing the ground around it.
pub open spec fn spawned(b: Brood, p: Place, x: u32, y: u32, sex: Sex, age: i64, generation: i32) -> Brood {
    let blank = arrival(b.next_id, x, y, sex, age, generation, &p.cfg, p.tick, b.rng);
    let c = CreatureV {
        beliefs: at_home(blank, p.ground, p.nodes, p.index, &p.cfg, p.tick),
        ..blank
    };
    Brood {
        people: b.people.push(c),
        next_id: (b.next_id + 1) as i64,
        total_births: swelled(b.total_births, 1),
        pending: b.pending.push(b.next_id),
        log: b.log.push(
            event_of(p.tick, EventKind::Born, b.next_id).at(x, y).with("sex"@, sex.text()).with_int(
                "age"@,
                age as int,
            ),
        ),
        rng: after_arrival(b.rng),
    }
}

/// The world can take a newcomer.
pub open spec fn welcomes(ctx: &ActionCtx, cache: &WorldCache, index: &NodeIndex) -> bool {
    &&& is_map(ctx.world.ground())
    &&& cache.maps(ctx.world.ground())
    &&& index.grid.wf()
    &&& index.refers_into(ctx.world.nodes@)
    &&& ctx.world.nodes@.len() < u32::MAX
    &&& ctx.cfg.knowledge.observation_radius * 4 <= u32::MAX
    &&& timely(ctx.tick as int)
}

/// Only the log and the stream have moved on.
pub open spec fn only_told(after: &ActionCtx, before: &ActionCtx) -> bool {
    *after == (ActionCtx { events: after.events, rng: after.rng, ..*before })
}

pub fn spawn_at(
    creatures: &mut Vec<Creature>,
    register: &mut Register,
    ctx: &mut ActionCtx,
    cache: &WorldCache,
    index: &NodeIndex,
    scratch: &mut Vec<u32>,
    x: u32,
    y: u32,
    sex: Sex,
    age: i64,
    generation: i32,
) -> (id: i64)
    requires
        welcomes(old(ctx), cache, index),
        old(ctx).world.inside(x as int, y as int),
        old(register).next_id < i64::MAX,
        timely(age as int),
    ensures
        id == old(register).next_id,
        brood_of(final(creatures), final(register), final(ctx)) == spawned(
            brood_of(old(creatures), old(register), old(ctx)),
            place_of(old(ctx), index@),
            x,
            y,
            sex,
            age,
            generation,
        ),
        only_told(final(ctx), old(ctx)),
        final(creatures)@.len() == old(creatures)@.len() + 1,
{
    let id = register.next_id;
    register.next_id = register.next_id + 1;
    let tick = ctx.tick;
    let traits = Traits::random(&mut ctx.rng);
    let name = name_for(&mut ctx.rng);
    let life_stage = LifeStage::of(age, &ctx.cfg.lifespan);
    let span = Num::from_u64(ctx.cfg.lifespan.baseline_ticks as u64) * (num(LEAST_CONSTITUTION) + ctx.rng.unit() * num(
        CONSTITUTION_SPAN,
    ));
    let hunger = num(LEAST_NEED) + ctx.rng.unit() * num(NEED_SPAN);
    let thirst = num(LEAST_NEED) + ctx.rng.unit() * num(NEED_SPAN);
    let fatigue = num(LEAST_NEED) + ctx.rng.unit() * num(NEED_SPAN);
    let warmth = num(LEAST_NEED) + ctx.rng.unit() * num(NEED_SPAN);
    let mut c = Creature {
        id,
        name,
        sex,
        generation,
        mother_id: None,
        father_id: None,
        household_id: None,
        birth_tick: tick - age,
        death_tick: None,
        death_cause: None,
        x,
        y,
        life_stage,
        hunger,
        thirst,
        fatigue,
        warmth,
        health: num(FULL),
        lifespan_ticks: span,
        wear: num(NOTHING),
        traits,
        inventory: Inventory::new(),
        plan: None,
        beliefs: Vec::new(),
        last_deliberation_tick: None,
        deliberation_pressure: num(NOTHING),
        lifetime_deliberations: 0,
        lifetime_think_fatigue: num(NOTHING),
        in_shelter: None,
        exposed_ticks: 0,
        at_fire: false,
        trauma: None,
        mate_id: None,
        paired_tick: None,
        pregnancy: None,
        last_birth_tick: None,
        children_born: 0,
        guardian_id: None,
        taught_count: 0,
        shared_count: 0,
        dirty: true,
    };
    assert(c@ == arrival(id, x, y, sex, age, generation, &ctx.cfg, tick, old(ctx).rng));
    seed_local_knowledge(&mut c, &ctx.world, cache, index, scratch, &ctx.cfg, tick);
    say(
        &mut ctx.events,
        Event::new(tick, EventKind::Born, id).at(x, y).with("sex", sex.as_str()).with_int("age", age),
    );
    let ghost before = people_of(creatures@);
    let ghost row = c@;
    creatures.push(c);
    assert(people_of(creatures@) == before.push(row));
    register.pending.push(id);
    register.total_births = swell(register.total_births, 1);
    id
}

/// A place for somebody around a hearth: the first of so many tries that falls
/// on dry land, or the hearth itself. Also the stream after it.
pub open spec fn scattered_near(
    g: Ground,
    hx: u32,
    hy: u32,
    radius: int,
    tried: nat,
    rng: Stream,
) -> ((u32, u32), Stream)
    decreases SCATTER_TRIES - tried,
{
    if tried >= SCATTER_TRIES {
        ((hx, hy), rng)
    } else {
        let x = hx + rng.range_here(-radius, radius);
        let s = rng.ranged(-radius, radius);
        let y = hy + s.range_here(-radius, radius);
        let t = s.ranged(-radius, radius);
        match tile_at(g.width, g.height, g.tiles, x, y) {
            Some(ground) if is_dry_land(ground) => ((x as u32, y as u32), t),
            _ => scattered_near(g, hx, hy, radius, tried + 1, t),
        }
    }
}

pub fn scatter_near(world: &World, rng: &mut Stream, hx: u32, hy: u32, radius: u32) -> (r: (u32, u32))
    requires
        world.wf(),
    ensures
        (r, *final(rng)) == scattered_near(world.ground(), hx, hy, radius as int, 0, *old(rng)),
        world.inside(hx as int, hy as int) ==> world.inside(r.0 as int, r.1 as int),
{
    let ghost g = world.ground();
    let ghost whole = scattered_near(g, hx, hy, radius as int, 0, *rng);
    let mut tried: u32 = 0;
    while tried < SCATTER_TRIES
        invariant
            world.wf(),
            g == world.ground(),
            tried <= SCATTER_TRIES,
            whole == scattered_near(g, hx, hy, radius as int, 0, *old(rng)),
            whole == scattered_near(g, hx, hy, radius as int, tried as nat, *rng),
        decreases SCATTER_TRIES - tried,
    {
        let dx = rng.range(-(radius as i64), radius as i64);
        let dy = rng.range(-(radius as i64), radius as i64);
        let (x, y) = (hx as i64 + dx, hy as i64 + dy);
        if world.in_bounds(x, y) {
            proof {
                lemma_tile_index(g.width, g.height, x as int, y as int);
            }
            let t = world.at(x as u32, y as u32);
            if t.passable() && !t.is_water() {
                assert(tile_at(g.width, g.height, g.tiles, x as int, y as int) == Some(t));
                return (x as u32, y as u32);
            }
        }
        tried = tried + 1;
    }
    (hx, hy)
}

pub open spec fn sex_of(coin: bool) -> Sex {
    if coin {
        Sex::Female
    } else {
        Sex::Male
    }
}

/// A coin decides.
pub fn coin_flip_sex(rng: &mut Stream) -> (r: Sex)
    ensures
        r == sex_of(old(rng).coin_here()),
        *final(rng) == old(rng).stepped(),
{
    if rng.coin() {
        Sex::Female
    } else {
        Sex::Male
    }
}

/// The place people gather around: that of the first founder, or the middle of
/// the map.
pub open spec fn hearth_of(g: Ground, founders: Seq<Founder>) -> (u32, u32) {
    if founders.len() > 0 {
        (founders[0].x, founders[0].y)
    } else {
        (g.width / 2, g.height / 2)
    }
}

pub fn hearth(world: &World) -> (r: (u32, u32))
    ensures
        r == hearth_of(world.ground(), world.founders@),
{
    if world.founders.len() > 0 {
        (world.founders[0].x, world.founders[0].y)
    } else {
        (world.width / 2, world.height / 2)
    }
}

/// The founders put into the world as established adults: they are the people
/// who were already here.
pub open spec fn settled_by(b: Brood, p: Place, founders: Seq<Founder>, n: nat) -> Brood
    decreases n,
{
    if n == 0 {
        b
    } else {
        let so_far = settled_by(b, p, founders, (n - 1) as nat);
        let f = founders[n - 1];
        let age = so_far.rng.range_here(180, 319);
        spawned(
            Brood { rng: so_far.rng.ranged(180, 319), ..so_far },
            p,
            f.x,
            f.y,
            sex_of(f.female),
            age as i64,
            1,
        )
    }
}

/// A population seeded around the hearth, with staggered ages so that a cohort
/// does not all reach old age in the same fortnight.
pub open spec fn populated(b: Brood, p: Place, hearth: (u32, u32), n: nat) -> Brood
    decreases n,
{
    if n == 0 {
        b
    } else {
        let so_far = populated(b, p, hearth, (n - 1) as nat);
        let (at, s) = scattered_near(p.ground, hearth.0, hearth.1, SCATTER as int, 0, so_far.rng);
        let t = s.stepped();
        spawned(
            Brood { rng: t.ranged(0, 559), ..so_far },
            p,
            at.0,
            at.1,
            sex_of(s.coin_here()),
            t.range_here(0, 559) as i64,
            1,
        )
    }
}

pub fn spawn_founders(
    creatures: &mut Vec<Creature>,
    register: &mut Register,
    ctx: &mut ActionCtx,
    cache: &WorldCache,
    index: &NodeIndex,
    scratch: &mut Vec<u32>,
)
    requires
        welcomes(old(ctx), cache, index),
        forall|i: int|
            0 <= i < old(ctx).world.founders@.len() ==> old(ctx).world.inside(
                (#[trigger] old(ctx).world.founders@[i]).x as int,
                old(ctx).world.founders@[i].y as int,
            ),
        old(register).next_id + old(ctx).world.founders@.len() < i64::MAX,
    ensures
        brood_of(final(creatures), final(register), final(ctx)) == settled_by(
            brood_of(old(creatures), old(register), old(ctx)),
            place_of(old(ctx), index@),
            old(ctx).world.founders@,
            old(ctx).world.founders@.len(),
        ),
        only_told(final(ctx), old(ctx)),
        0 <= old(ctx).tick && sound(
            old(ctx).world.ground(),
            people_of(old(creatures)@),
            old(register).next_id,
        ) ==> sound(old(ctx).world.ground(), people_of(final(creatures)@), final(register).next_id),
{
    let ghost start = brood_of(creatures, register, ctx);
    let ghost p = place_of(ctx, index@);
    let ghost founders = ctx.world.founders@;
    let n: usize = ctx.world.founders.len();
    for i in 0..n
        invariant
            n == founders.len(),
            founders == ctx.world.founders@,
            welcomes(ctx, cache, index),
            p == place_of(ctx, index@),
            only_told(ctx, old(ctx)),
            forall|k: int|
                0 <= k < n ==> ctx.world.inside((#[trigger] founders[k]).x as int, founders[k].y as int),
            register.next_id == start.next_id + i,
            start.next_id + n < i64::MAX,
            brood_of(creatures, register, ctx) == settled_by(start, p, founders, i as nat),
            0 <= old(ctx).tick && sound(p.ground, start.people, start.next_id) ==> sound(
                p.ground,
                people_of(creatures@),
                register.next_id,
            ),
    {
        let f = ctx.world.founders[i];
        let sex = if f.female {
            Sex::Female
        } else {
            Sex::Male
        };
        let age = ctx.rng.range(180, 319);
        proof {
            assert(ctx.world.inside(founders[i as int].x as int, founders[i as int].y as int));
        }
        let ghost b = brood_of(creatures, register, ctx);
        spawn_at(creatures, register, ctx, cache, index, scratch, f.x, f.y, sex, age, 1);
        proof {
            if 0 <= old(ctx).tick && sound(p.ground, start.people, start.next_id) {
                lemma_spawned_is_sound(b, p, f.x, f.y, sex, age, 1);
            }
        }
    }
}

pub fn spawn_population(
    creatures: &mut Vec<Creature>,
    register: &mut Register,
    ctx: &mut ActionCtx,
    cache: &WorldCache,
    index: &NodeIndex,
    scratch: &mut Vec<u32>,
    n: u32,
)
    requires
        welcomes(old(ctx), cache, index),
        old(ctx).world.founders@.len() > 0 ==> old(ctx).world.inside(
            old(ctx).world.founders@[0].x as int,
            old(ctx).world.founders@[0].y as int,
        ),
        old(register).next_id + n < i64::MAX,
    ensures
        brood_of(final(creatures), final(register), final(ctx)) == populated(
            brood_of(old(creatures), old(register), old(ctx)),
            place_of(old(ctx), index@),
            hearth_of(old(ctx).world.ground(), old(ctx).world.founders@),
            n as nat,
        ),
        only_told(final(ctx), old(ctx)),
        0 <= old(ctx).tick && sound(
            old(ctx).world.ground(),
            people_of(old(creatures)@),
            old(register).next_id,
        ) ==> sound(old(ctx).world.ground(), people_of(final(creatures)@), final(register).next_id),
{
    let ghost start = brood_of(creatures, register, ctx);
    let ghost p = place_of(ctx, index@);
    let (hx, hy) = hearth(&ctx.world);
    for i in 0..n
        invariant
            welcomes(ctx, cache, index),
            p == place_of(ctx, index@),
            only_told(ctx, old(ctx)),
            ctx.world.inside(hx as int, hy as int),
            register.next_id == start.next_id + i,
            start.next_id + n < i64::MAX,
            brood_of(creatures, register, ctx) == populated(start, p, (hx, hy), i as nat),
            0 <= old(ctx).tick && sound(p.ground, start.people, start.next_id) ==> sound(
                p.ground,
                people_of(creatures@),
                register.next_id,
            ),
    {
        let (x, y) = scatter_near(&ctx.world, &mut ctx.rng, hx, hy, SCATTER);
        let sex = coin_flip_sex(&mut ctx.rng);
        let age = ctx.rng.range(0, 559);
        let ghost b = brood_of(creatures, register, ctx);
        spawn_at(creatures, register, ctx, cache, index, scratch, x, y, sex, age, 1);
        proof {
            if 0 <= old(ctx).tick && sound(p.ground, start.people, start.next_id) {
                lemma_spawned_is_sound(b, p, x, y, sex, age, 1);
            }
        }
    }
}

/// The last event told as a settling rather than a birth.
pub open spec fn told_as_settling(log: Seq<EventV>) -> Seq<EventV> {
    log.update(log.len() - 1, EventV { kind: EventKind::Settled, ..log[log.len() - 1] })
}

/// So many settlers sent in around the hearth, young but past infancy.
pub open spec fn settled(b: Brood, p: Place, hearth: (u32, u32), n: nat) -> Brood
    decreases n,
{
    if n == 0 {
        b
    } else {
        let so_far = settled(b, p, hearth, (n - 1) as nat);
        let (at, s) = scattered_near(p.ground, hearth.0, hearth.1, SCATTER as int, 0, so_far.rng);
        let t = s.stepped();
        let after = spawned(
            Brood { rng: t.ranged(0, 39), ..so_far },
            p,
            at.0,
            at.1,
            sex_of(s.coin_here()),
            (p.cfg.lifespan.infant_until_tick + t.range_here(0, 39)) as i64,
            1,
        );
        Brood { log: told_as_settling(after.log), ..after }
    }
}

/// How many are missing from a census.
pub open spec fn missing(people: Seq<CreatureV>, target: u32) -> nat {
    if people.len() < target {
        (target - people.len()) as nat
    } else {
        0
    }
}

/// Holds the census by sending in settlers. They are counted apart from births.
pub fn hold_census(
    creatures: &mut Vec<Creature>,
    register: &mut Register,
    ctx: &mut ActionCtx,
    cache: &WorldCache,
    index: &NodeIndex,
    scratch: &mut Vec<u32>,
    target: u32,
    settlers: &mut u32,
)
    requires
        welcomes(old(ctx), cache, index),
        old(ctx).world.founders@.len() > 0 ==> old(ctx).world.inside(
            old(ctx).world.founders@[0].x as int,
            old(ctx).world.founders@[0].y as int,
        ),
        old(register).next_id + missing(people_of(old(creatures)@), target) < i64::MAX,
    ensures
        brood_of(final(creatures), final(register), final(ctx)) == settled(
            brood_of(old(creatures), old(register), old(ctx)),
            place_of(old(ctx), index@),
            hearth_of(old(ctx).world.ground(), old(ctx).world.founders@),
            missing(people_of(old(creatures)@), target),
        ),
        *final(settlers) == more_by(*old(settlers), missing(people_of(old(creatures)@), target)),
        only_told(final(ctx), old(ctx)),
        0 <= old(ctx).tick && sound(
            old(ctx).world.ground(),
            people_of(old(creatures)@),
            old(register).next_id,
        ) ==> sound(old(ctx).world.ground(), people_of(final(creatures)@), final(register).next_id),
        old(creatures)@.len() <= target ==> final(creatures)@.len() == target,
        old(creatures)@.len() > target ==> final(creatures)@.len() == old(creatures)@.len(),
{
    let ghost start = brood_of(creatures, register, ctx);
    let ghost p = place_of(ctx, index@);
    let (hx, hy) = hearth(&ctx.world);
    let mut sent: u32 = 0;
    while creatures.len() < target as usize
        invariant
            welcomes(ctx, cache, index),
            p == place_of(ctx, index@),
            only_told(ctx, old(ctx)),
            ctx.world.inside(hx as int, hy as int),
            register.next_id == start.next_id + sent,
            start.next_id + missing(start.people, target) < i64::MAX,
            creatures@.len() == start.people.len() + sent,
            sent <= missing(start.people, target),
            brood_of(creatures, register, ctx) == settled(start, p, (hx, hy), sent as nat),
            0 <= old(ctx).tick && sound(p.ground, start.people, start.next_id) ==> sound(
                p.ground,
                people_of(creatures@),
                register.next_id,
            ),
            *settlers == more_by(*old(settlers), sent as nat),
        decreases target - creatures@.len(),
    {
        let (x, y) = scatter_near(&ctx.world, &mut ctx.rng, hx, hy, SCATTER);
        let sex = coin_flip_sex(&mut ctx.rng);
        let age = ctx.cfg.lifespan.infant_until_tick as i64 + ctx.rng.range(0, 39);
        let ghost b = brood_of(creatures, register, ctx);
        spawn_at(creatures, register, ctx, cache, index, scratch, x, y, sex, age, 1);
        proof {
            if 0 <= old(ctx).tick && sound(p.ground, start.people, start.next_id) {
                lemma_spawned_is_sound(b, p, x, y, sex, age, 1);
            }
        }
        let ghost log = log_of(ctx.events@);
        let ghost events = ctx.events@;
        assert(log == log.drop_last().push(log.last()));
        let last = ctx.events.len() - 1;
        assert(log[last as int] == events[last as int]@);
        ctx.events[last].kind = EventKind::Settled;
        assert(log_of(ctx.events@) == told_as_settling(log));
        sent = sent + 1;
        *settlers = count_one(*settlers);
    }
}

/// Whoever comes is added at the end, under the next id, and changes nobody else:
/// alive, unpaired, without a home, of the stage of life that their age makes them,
/// counted as born and told of. Ids that ascended go on ascending.
pub proof fn law_a_newcomer_is_added(b: Brood, p: Place, x: u32, y: u32, sex: Sex, age: i64, generation: i32)
    requires
        ids_ascend(b.people),
        forall|i: int| 0 <= i < b.people.len() ==> (#[trigger] b.people[i]).id < b.next_id,
        b.next_id < i64::MAX,
        i64::MIN <= p.tick - age <= i64::MAX,
    ensures
        ({
            let after = spawned(b, p, x, y, sex, age, generation);
            let c = after.people.last();
            &&& after.people == b.people.push(c)
            &&& after.next_id == b.next_id + 1
            &&& ids_ascend(after.people)
            &&& forall|i: int| 0 <= i < after.people.len() ==> (#[trigger] after.people[i]).id < after.next_id
            &&& c.id == b.next_id
            &&& c.x == x && c.y == y && c.sex == sex && c.generation == generation
            &&& c.birth_tick == p.tick - age
            &&& c.life_stage == LifeStage::of(age, &p.cfg.lifespan)
            &&& c.death_tick is None
            &&& c.mate_id is None
            &&& c.household_id is None
            &&& after.total_births == swelled(b.total_births, 1)
            &&& after.pending == b.pending.push(b.next_id)
            &&& after.log.len() == b.log.len() + 1
            &&& after.log.drop_last() == b.log
            &&& after.log.last().kind == EventKind::Born
            &&& after.log.last().actor_id == Some(b.next_id)
        }),
{
    let after = spawned(b, p, x, y, sex, age, generation);
    assert(after.log.drop_last() == b.log);
    assert forall|i: int, j: int| 0 <= i < j < after.people.len() implies (#[trigger] after.people[i]).id < (
    #[trigger] after.people[j]).id by {
        if j < b.people.len() {
            assert(b.people[i].id < b.people[j].id);
        } else {
            assert(b.people[i].id < b.next_id);
        }
    }
}

/// Newcomers who settle are grown, in their prime: at least of age and less than forty
/// ticks past it; and it is told as settling, not as a birth.
pub proof fn law_settlers_come_of_age(b: Brood, p: Place, hearth: (u32, u32), n: nat)
    requires
        ({
            let s = scattered_near(p.ground, hearth.0, hearth.1, 34, 0, settled(b, p, hearth, n).rng).1;
            let age = p.cfg.lifespan.infant_until_tick + s.stepped().range_here(0, 39);
            0 <= s.stepped().range_here(0, 39) <= 39 && i64::MIN <= age <= i64::MAX && i64::MIN <= p.tick - age
                <= i64::MAX
        }),
    ensures
        ({
            let (before, after) = (settled(b, p, hearth, n), settled(b, p, hearth, n + 1));
            let c = after.people.last();
            &&& after.people == before.people.push(c)
            &&& p.cfg.lifespan.infant_until_tick <= p.tick - c.birth_tick <= p.cfg.lifespan.infant_until_tick + 39
            &&& c.generation == 1
            &&& after.log.len() == before.log.len() + 1
            &&& after.log.last().kind == EventKind::Settled
            &&& after.log.last().actor_id == Some(c.id)
        }),
{
}

/// The hearth is where the first founder was put, or the middle of the map if there
/// was none.
pub proof fn law_where_the_hearth_is(g: Ground, founders: Seq<Founder>)
    ensures
        founders.len() > 0 ==> hearth_of(g, founders) == (founders[0].x, founders[0].y),
        founders.len() == 0 ==> hearth_of(g, founders) == (g.width / 2, g.height / 2),
        sex_of(true) == Sex::Female && sex_of(false) == Sex::Male,
{
}

} // verus!
