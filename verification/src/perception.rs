//! Turning the world into beliefs.
//!
//! Observation is passive and free: a creature simply sees what is within its
//! observation radius and forms firsthand beliefs about it.
//!
//! Seeing is also how a wrong belief gets corrected. A creature that walks to a
//! remembered clearing and finds it stripped overwrites what it believed on the
//! same tick, which turns a stale belief into a legible disappointment.

use crate::config::{KnowledgeConfig, WorldConfig};
use crate::creature::{Creature, CreatureV};
use crate::economy::{is_indexed, reported, NodeIndex};
use crate::grid::GridV;
use crate::event::{event_of, log_of, Event, EventKind, EventV};
use crate::flood::{apart, flood, is_nearest, law_open_ground_is_walked_straight, lemma_back, reached, within};
use crate::knowledge::{same_place, upsert, with_upsert, Belief, BeliefKind, Estimate};
use crate::lists::{first_where, lemma_first_where, lemma_first_where_is, lemma_those_below, those_below};
use crate::num::{num, Num, NOTHING};
use crate::terrain::Terrain;
use crate::world::{lemma_tile_index, tile_index, Ground, NodeKind, ResourceNode, World};
use vstd::prelude::*;

verus! {

/// 1.0
pub const CERTAIN: u32 = 0x3F80_0000;

/// 0.85
pub const HOME_CONFIDENCE: u32 = 0x3F59_999A;

/// Precomputed fields that never change while the terrain does not: how far the
/// nearest fresh water is from each tile, and which tile it is.
pub struct WorldCache {
    pub water_dist: Vec<u32>,
    pub nearest_water: Vec<u32>,
}

/// A tile of fresh water, by its place in the list.
pub open spec fn is_drinkable(g: Ground, s: int) -> bool {
    0 <= s < g.tiles.len() && g.tiles[s].is_fresh_water()
}

/// The fresh water nearest to a tile, the first in row order among equals.
pub open spec fn is_nearest_water(g: Ground, i: int, s: int) -> bool {
    &&& is_drinkable(g, s)
    &&& forall|r: int| #[trigger]
        is_drinkable(g, r) ==> apart(g.width as int, s, i) <= apart(g.width as int, r, i) && (r < s ==> apart(
            g.width as int,
            s,
            i,
        ) < apart(g.width as int, r, i))
}

/// The nearest fresh water to a tile, where a radius reaches that far.
pub open spec fn water_seen(g: Ground, x: u32, y: u32, radius: u32) -> Option<(u32, u32)> {
    let i = tile_index(g.width, x as int, y as int);
    if exists|s: int| is_nearest_water(g, i, s) {
        let s = choose|s: int| is_nearest_water(g, i, s);
        if apart(g.width as int, s, i) <= radius {
            Some(((s % g.width as int) as u32, (s / g.width as int) as u32))
        } else {
            None
        }
    } else {
        None
    }
}

/// There is one nearest fresh water at most.
proof fn lemma_nearest_water(g: Ground, i: int, s: int, t: int)
    requires
        is_nearest_water(g, i, s),
        is_nearest_water(g, i, t),
    ensures
        s == t,
{
    assert(is_drinkable(g, s) && is_drinkable(g, t));
}

impl WorldCache {
    /// Each tile knows the fewest steps to fresh water and, of the water that is
    /// so near, the first in row order; where there is no fresh water at all,
    /// both fields hold `u32::MAX`.
    pub open spec fn maps(&self, g: Ground) -> bool {
        &&& g.tiles.len() <= u32::MAX
        &&& self.water_dist@.len() == g.tiles.len()
        &&& self.nearest_water@.len() == g.tiles.len()
        &&& forall|i: int|
            0 <= i < g.tiles.len() ==> {
                let s = self.nearest_water@[i];
                if #[trigger] self.water_dist@[i] == u32::MAX {
                    s == u32::MAX && forall|r: int| !#[trigger] is_drinkable(g, r)
                } else {
                    &&& is_drinkable(g, s as int)
                    &&& self.water_dist@[i] == apart(g.width as int, s as int, i)
                    &&& forall|r: int| #[trigger]
                        is_drinkable(g, r) ==> self.water_dist@[i] <= apart(g.width as int, r, i) && (r < s
                            ==> self.water_dist@[i] < apart(g.width as int, r, i))
                }
            }
    }

    pub fn build(world: &World) -> (r: Self)
        requires
            world.wf(),
            world.tiles@.len() <= u32::MAX,
        ensures
            r.maps(world.ground()),
    {
        let n: usize = world.tiles.len();
        let mut open: Vec<bool> = Vec::new();
        let mut source: Vec<bool> = Vec::new();
        for i in 0..n
            invariant
                n == world.tiles@.len(),
                open@.len() == i,
                source@.len() == i,
                forall|k: int| 0 <= k < i ==> #[trigger] open@[k],
                forall|k: int| 0 <= k < i ==> #[trigger] source@[k] == world.tiles@[k].is_fresh_water(),
        {
            open.push(true);
            source.push(world.tiles[i].is_fresh_water());
        }
        let f = flood(world.width, world.height, &open, &source);
        let r = WorldCache { water_dist: f.dist, nearest_water: f.from };
        proof {
            let (w, h, o) = (world.width as int, world.height as int, open@);
            assert forall|i: int| 0 <= i < n implies {
                let s = r.nearest_water@[i];
                if #[trigger] r.water_dist@[i] == u32::MAX {
                    s == u32::MAX && forall|q: int| !#[trigger] is_drinkable(world.ground(), q)
                } else {
                    &&& is_drinkable(world.ground(), s as int)
                    &&& r.water_dist@[i] == apart(w, s as int, i)
                    &&& forall|q: int| #[trigger]
                        is_drinkable(world.ground(), q) ==> r.water_dist@[i] <= apart(w, q, i) && (q < s ==> r.water_dist@[i]
                            < apart(w, q, i))
                }
            } by {
                let d = f.dist@[i];
                let s = f.from@[i];
                assert forall|q: int| #[trigger] is_drinkable(world.ground(), q) implies reached(w, o, q, i, apart(w, q, i)) && within(
                    w,
                    o,
                    source@,
                    i,
                    apart(w, q, i),
                ) by {
                    law_open_ground_is_walked_straight(w, h, o, q, i, apart(w, q, i));
                    assert(source@[q]);
                }
                if d == u32::MAX {
                } else {
                    assert(is_nearest(w, o, source@, i, d as nat, s as int));
                    assert(is_drinkable(world.ground(), s as int));
                    law_open_ground_is_walked_straight(w, h, o, s as int, i, d as nat);
                    assert forall|q: int| #[trigger] is_drinkable(world.ground(), q) implies d <= apart(w, q, i) && (q < s ==> d
                        < apart(w, q, i)) by {
                        assert(within(w, o, source@, i, apart(w, q, i)));
                        if q < s {
                            law_open_ground_is_walked_straight(w, h, o, q, i, d as nat);
                            assert(!reached(w, o, q, i, d as nat));
                        }
                    }
                }
            }
        }
        r
    }

    pub fn water_within(&self, world: &World, x: u32, y: u32, radius: u32) -> (r: Option<(u32, u32)>)
        requires
            self.maps(world.ground()),
            world.wf(),
            world.inside(x as int, y as int),
        ensures
            r == water_seen(world.ground(), x, y, radius),
            r matches Some(at) ==> world.inside(at.0 as int, at.1 as int) && world.tile(
                at.0 as int,
                at.1 as int,
            ).is_fresh_water(),
    {
        proof {
            lemma_tile_index(world.width, world.height, x as int, y as int);
            assert(world.tiles@.len() == world.tiles.len());
        }
        let i = world.idx(x, y);
        let src = self.nearest_water[i];
        proof {
            let g = world.ground();
            if self.water_dist@[i as int] == u32::MAX {
                assert forall|s: int| !is_nearest_water(g, i as int, s) by {
                    assert(!is_drinkable(g, s));
                }
            } else {
                assert(is_nearest_water(g, i as int, src as int));
                lemma_nearest_water(g, i as int, src as int, choose|s: int| is_nearest_water(g, i as int, s));
            }
        }
        if src == u32::MAX {
            return None;
        }
        if self.water_dist[i] > radius {
            return None;
        }
        proof {
            lemma_back(world.width as int, world.height as int, src as int);
        }
        Some((src % world.width, src / world.width))
    }
}

/// A belief formed by seeing for oneself.
pub open spec fn witnessed_spec(
    kind: BeliefKind,
    x: u32,
    y: u32,
    estimate: Estimate,
    confidence: Num,
    id: i64,
    tick: i64,
) -> Belief {
    Belief {
        kind,
        x,
        y,
        estimate,
        confidence,
        learned_tick: tick,
        last_verified_tick: tick,
        source_creature_id: None,
        hops: 0,
        origin_creature_id: Some(id),
        origin_tick: tick,
    }
}

#[verifier::when_used_as_spec(witnessed_spec)]
pub fn witnessed(
    kind: BeliefKind,
    x: u32,
    y: u32,
    estimate: Estimate,
    confidence: Num,
    id: i64,
    tick: i64,
) -> (b: Belief)
    ensures
        b == witnessed_spec(kind, x, y, estimate, confidence, id, tick),
{
    Belief {
        kind,
        x,
        y,
        estimate,
        confidence,
        learned_tick: tick,
        last_verified_tick: tick,
        source_creature_id: None,
        hops: 0,
        origin_creature_id: Some(id),
        origin_tick: tick,
    }
}

/// How many beliefs a head holds.
pub open spec fn capacity_of(k: &KnowledgeConfig) -> nat {
    if k.max_beliefs_held < 8 {
        8
    } else {
        k.max_beliefs_held as nat
    }
}

pub fn belief_capacity(k: &KnowledgeConfig) -> (n: usize)
    ensures
        n == capacity_of(k),
{
    if k.max_beliefs_held < 8 {
        8
    } else {
        k.max_beliefs_held as usize
    }
}

/// What a look around has come to so far.
pub struct Look {
    pub beliefs: Seq<Belief>,
    /// How many things were not known before.
    pub discovered: nat,
    /// The last resource node or patch of soil among them.
    pub last: Option<(u32, u32, BeliefKind)>,
}

/// Who is looking, and when.
pub struct Eye {
    pub id: i64,
    pub tick: i64,
    pub confidence: Num,
}

pub open spec fn node_belief(n: ResourceNode, eye: Eye) -> Belief {
    witnessed(
        BeliefKind::of_node(n.kind),
        n.x,
        n.y,
        Estimate::of(n.quantity, n.max_quantity),
        eye.confidence,
        eye.id,
        eye.tick,
    )
}

/// After taking in the nodes of a list, in order.
pub open spec fn look_at(
    start: Look,
    nodes: Seq<ResourceNode>,
    list: Seq<u32>,
    eye: Eye,
    k: &KnowledgeConfig,
) -> Look
    decreases list.len(),
{
    if list.len() == 0 {
        start
    } else {
        let so_far = look_at(start, nodes, list.drop_last(), eye, k);
        let n = nodes[list.last() as int];
        if is_indexed(n) {
            let (beliefs, new) = with_upsert(so_far.beliefs, node_belief(n, eye), k, capacity_of(k), eye.tick);
            if new {
                Look {
                    beliefs,
                    discovered: so_far.discovered + 1,
                    last: Some((n.x, n.y, BeliefKind::of_node(n.kind))),
                }
            } else {
                Look { beliefs, ..so_far }
            }
        } else {
            so_far
        }
    }
}

proof fn lemma_look_bound(start: Look, nodes: Seq<ResourceNode>, list: Seq<u32>, eye: Eye, k: &KnowledgeConfig)
    ensures
        look_at(start, nodes, list, eye, k).discovered <= start.discovered + list.len(),
    decreases list.len(),
{
    if list.len() > 0 {
        lemma_look_bound(start, nodes, list.drop_last(), eye, k);
    }
}

/// The nodes an index reports from a tile, in order.
pub open spec fn in_sight(index: GridV, nodes: Seq<ResourceNode>, x: u32, y: u32, radius: u32) -> Seq<u32> {
    those_below(nodes.len() as int, |i: u32| reported(index, nodes, x, y, radius, i))
}

/// Water is taken in first, as plentiful.
pub open spec fn look_for_water(
    beliefs: Seq<Belief>,
    water: Option<(u32, u32)>,
    eye: Eye,
    k: &KnowledgeConfig,
) -> Look {
    match water {
        Some(at) => {
            let b = witnessed(BeliefKind::Water, at.0, at.1, Estimate::Plentiful, num(CERTAIN), eye.id, eye.tick);
            let (beliefs, new) = with_upsert(beliefs, b, k, capacity_of(k), eye.tick);
            Look {
                beliefs,
                discovered: if new {
                    1
                } else {
                    0
                },
                last: None,
            }
        },
        None => Look { beliefs, discovered: 0, last: None },
    }
}

/// Everything a creature at a tile takes in: water in sight, nodes in sight,
/// and farmable ground underfoot.
#[verifier::opaque]
pub open spec fn observed(
    c: CreatureV,
    g: Ground,
    stock: Seq<ResourceNode>,
    index: GridV,
    cfg: &WorldConfig,
    tick: i64,
) -> Look {
    let k = &cfg.knowledge;
    let eye = Eye { id: c.id, tick, confidence: num(CERTAIN) };
    let water = water_seen(g, c.x, c.y, k.observation_radius);
    let nodes = in_sight(index, stock, c.x, c.y, k.observation_radius);
    let look = look_at(look_for_water(c.beliefs, water, eye, k), stock, nodes, eye, k);
    if g.tile(c.x as int, c.y as int) == Terrain::Soil {
        let b = witnessed(BeliefKind::SoilPatch, c.x, c.y, Estimate::Moderate, num(CERTAIN), c.id, tick);
        let (beliefs, new) = with_upsert(look.beliefs, b, k, capacity_of(k), tick);
        if new {
            Look { beliefs, discovered: look.discovered + 1, last: Some((c.x, c.y, BeliefKind::SoilPatch)) }
        } else {
            Look { beliefs, ..look }
        }
    } else {
        look
    }
}

/// The word that a look around turned up something new.
pub open spec fn discovery(c: CreatureV, look: Look, tick: i64) -> EventV {
    let (x, y, kind) = match look.last {
        Some(l) => l,
        None => (c.x, c.y, BeliefKind::Water),
    };
    event_of(tick, EventKind::Discovered, c.id).at(x, y).with("kind"@, kind.text()).with_int(
        "count"@,
        look.discovered as int,
    )
}

/// Takes in the nodes of a list.
fn take_in(
    beliefs: &mut Vec<Belief>,
    world: &World,
    list: &Vec<u32>,
    confidence: Num,
    id: i64,
    k: &KnowledgeConfig,
    tick: i64,
    Ghost(start): Ghost<Look>,
) -> (r: (u32, Option<(u32, u32, BeliefKind)>))
    requires
        old(beliefs)@ == start.beliefs,
        start.last is None,
        start.discovered + list@.len() <= u32::MAX,
        forall|i: int| 0 <= i < list@.len() ==> (#[trigger] list@[i]) < world.nodes@.len(),
    ensures
        ({
            let look = look_at(start, world.nodes@, list@, (Eye { id, tick, confidence }), k);
            &&& final(beliefs)@ == look.beliefs
            &&& r.0 + start.discovered == look.discovered
            &&& r.1 == look.last
        }),
{
    let cap = belief_capacity(k);
    let mut discovered: u32 = 0;
    let mut last: Option<(u32, u32, BeliefKind)> = None;
    let ghost eye = Eye { id, tick, confidence };
    let ghost nodes = world.nodes@;
    assert(list@.take(0) == Seq::<u32>::empty());
    for i in 0..list.len()
        invariant
            nodes == world.nodes@,
            cap == capacity_of(k),
            eye == (Eye { id, tick, confidence }),
            start.discovered + list@.len() <= u32::MAX,
            forall|j: int| 0 <= j < list@.len() ==> (#[trigger] list@[j]) < nodes.len(),
            beliefs@ == look_at(start, nodes, list@.take(i as int), eye, k).beliefs,
            discovered + start.discovered == look_at(start, nodes, list@.take(i as int), eye, k).discovered,
            last == look_at(start, nodes, list@.take(i as int), eye, k).last,
            discovered <= i,
    {
        proof {
            assert(list@.take(i + 1).drop_last() == list@.take(i as int));
        }
        let n = world.nodes[list[i] as usize];
        if !(n.kind == NodeKind::Sheep && n.quantity.le(num(NOTHING))) {
            let kind = BeliefKind::of_node(n.kind);
            let estimate = Estimate::of(n.quantity, n.max_quantity);
            let b = witnessed(kind, n.x, n.y, estimate, confidence, id, tick);
            if upsert(beliefs, b, (n.x, n.y), k, cap, tick) {
                discovered = discovered + 1;
                last = Some((n.x, n.y, kind));
            }
        }
    }
    assert(list@.take(list@.len() as int) == list@);
    (discovered, last)
}

/// Everything one creature can see this tick, folded into its beliefs.
///
/// Returns the number of genuinely new discoveries, which is what makes an
/// explorer's trip legible in the event log.
pub fn observe(
    c: &mut Creature,
    world: &World,
    cache: &WorldCache,
    nodes: &NodeIndex,
    scratch: &mut Vec<u32>,
    cfg: &WorldConfig,
    tick: i64,
    events: &mut Vec<Event>,
) -> (discovered: u32)
    requires
        world.wf(),
        world.inside(old(c).x as int, old(c).y as int),
        cache.maps(world.ground()),
        nodes.grid.wf(),
        nodes.refers_into(world.nodes@),
        world.nodes@.len() + 1 < u32::MAX,
    ensures
        discovered == observed(old(c)@, world.ground(), world.nodes@, nodes@, cfg, tick).discovered,
        final(c).beliefs@ == observed(old(c)@, world.ground(), world.nodes@, nodes@, cfg, tick).beliefs,
        final(c)@ == (CreatureV { beliefs: final(c).beliefs@, ..old(c)@ }),
        log_of(final(events)@) == if discovered > 0 {
            log_of(old(events)@).push(discovery(old(c)@, observed(old(c)@, world.ground(), world.nodes@, nodes@, cfg, tick), tick))
        } else {
            log_of(old(events)@)
        },
{
    proof {
        reveal(observed);
    }
    let k = &cfg.knowledge;
    let radius = k.observation_radius;
    let cap = belief_capacity(k);
    let mut discovered: u32 = 0;
    let ghost eye = Eye { id: c.id, tick, confidence: num(CERTAIN) };
    let ghost first = look_for_water(c.beliefs@, water_seen(world.ground(), c.x, c.y, radius), eye, k);

    // Water is seen at a distance because a lake is a large visible thing.
    if let Some((wx, wy)) = cache.water_within(world, c.x, c.y, radius) {
        let b = witnessed(BeliefKind::Water, wx, wy, Estimate::Plentiful, num(CERTAIN), c.id, tick);
        if upsert(&mut c.beliefs, b, (c.x, c.y), k, cap, tick) {
            discovered = 1;
        }
    }
    nodes.near(world, c.x, c.y, radius, scratch);
    proof {
        let p = |i: u32| reported(nodes@, world.nodes@, c.x, c.y, radius, i);
        assert forall|i: u32| #[trigger] scratch@.contains(i) <==> i < world.nodes@.len() && p(i) by {
            nodes.grid.lemma_reach(c.x, c.y, radius, i);
            if scratch@.contains(i) {
                let m = scratch@.index_of(i);
                assert(scratch@[m] < world.nodes@.len());
            }
        }
        lemma_those_below(scratch@, world.nodes@.len() as int, p);
        lemma_ascending_len(scratch@, world.nodes@.len());
    }
    let (more, mut last) = take_in(&mut c.beliefs, world, scratch, num(CERTAIN), c.id, k, tick, Ghost(first));
    proof {
        lemma_look_bound(first, world.nodes@, scratch@, eye, k);
        lemma_tile_index(world.width, world.height, c.x as int, c.y as int);
    }
    discovered = discovered + more;
    if world.at(c.x, c.y) == Terrain::Soil {
        let b = witnessed(BeliefKind::SoilPatch, c.x, c.y, Estimate::Moderate, num(CERTAIN), c.id, tick);
        if upsert(&mut c.beliefs, b, (c.x, c.y), k, cap, tick) {
            discovered = discovered + 1;
            last = Some((c.x, c.y, BeliefKind::SoilPatch));
        }
    }
    if discovered > 0 {
        let (x, y, kind) = match last {
            Some(l) => l,
            None => (c.x, c.y, BeliefKind::Water),
        };
        let e = Event::new(tick, EventKind::Discovered, c.id).at(x, y).with("kind", kind.as_str()).with_int(
            "count",
            discovered as i64,
        );
        events.push(e);
        assert(log_of(events@) == log_of(old(events)@).push(e@));
    }
    discovered
}

/// An ascending list of numbers below a bound is no longer than the bound.
proof fn lemma_ascending_len(s: Seq<u32>, n: nat)
    requires
        crate::lists::ascending(s),
        forall|k: int| 0 <= k < s.len() ==> (#[trigger] s[k]) < n,
    ensures
        s.len() <= n,
{
    if s.len() > 0 {
        lemma_ascending_from(s, s.len() - 1);
        assert(s[s.len() - 1] < n);
    }
}

proof fn lemma_ascending_from(s: Seq<u32>, k: int)
    requires
        crate::lists::ascending(s),
        0 <= k < s.len(),
    ensures
        k <= s[k],
    decreases k,
{
    if k > 0 {
        lemma_ascending_from(s, k - 1);
        assert(s[k - 1] < s[k]);
    }
}

/// What a creature that lives somewhere knows of it.
pub open spec fn at_home(
    c: CreatureV,
    g: Ground,
    stock: Seq<ResourceNode>,
    index: GridV,
    cfg: &WorldConfig,
    tick: i64,
) -> Seq<Belief> {
    let k = &cfg.knowledge;
    let radius = (k.observation_radius * 4) as u32;
    let eye = Eye { id: c.id, tick, confidence: num(HOME_CONFIDENCE) };
    let water = water_seen(g, c.x, c.y, radius);
    let nodes = in_sight(index, stock, c.x, c.y, radius);
    look_at(look_for_water(c.beliefs, water, eye, k), stock, nodes, eye, k).beliefs
}

/// Beliefs a creature starts life holding.
///
/// A founder is an adult who has lived here; it is not born knowing nothing
/// about the ground it is standing on. Seeding is limited to what is genuinely
/// local: the water it draws from and the nodes within a short walk.
pub fn seed_local_knowledge(
    c: &mut Creature,
    world: &World,
    cache: &WorldCache,
    nodes: &NodeIndex,
    scratch: &mut Vec<u32>,
    cfg: &WorldConfig,
    tick: i64,
)
    requires
        world.wf(),
        world.inside(old(c).x as int, old(c).y as int),
        cache.maps(world.ground()),
        nodes.grid.wf(),
        nodes.refers_into(world.nodes@),
        world.nodes@.len() < u32::MAX,
        cfg.knowledge.observation_radius * 4 <= u32::MAX,
    ensures
        final(c).beliefs@ == at_home(old(c)@, world.ground(), world.nodes@, nodes@, cfg, tick),
        final(c)@ == (CreatureV { beliefs: final(c).beliefs@, ..old(c)@ }),
{
    let k = &cfg.knowledge;
    let cap = belief_capacity(k);
    let radius: u32 = k.observation_radius * 4;
    let ghost eye = Eye { id: c.id, tick, confidence: num(HOME_CONFIDENCE) };
    let ghost first = look_for_water(c.beliefs@, water_seen(world.ground(), c.x, c.y, radius), eye, k);
    if let Some((wx, wy)) = cache.water_within(world, c.x, c.y, radius) {
        let b = witnessed(BeliefKind::Water, wx, wy, Estimate::Plentiful, num(CERTAIN), c.id, tick);
        upsert(&mut c.beliefs, b, (c.x, c.y), k, cap, tick);
    }
    nodes.near(world, c.x, c.y, radius, scratch);
    proof {
        let p = |i: u32| reported(nodes@, world.nodes@, c.x, c.y, radius, i);
        assert forall|i: u32| #[trigger] scratch@.contains(i) <==> i < world.nodes@.len() && p(i) by {
            nodes.grid.lemma_reach(c.x, c.y, radius, i);
            if scratch@.contains(i) {
                let m = scratch@.index_of(i);
                assert(scratch@[m] < world.nodes@.len());
            }
        }
        lemma_those_below(scratch@, world.nodes@.len() as int, p);
        lemma_ascending_len(scratch@, world.nodes@.len());
    }
    take_in(&mut c.beliefs, world, scratch, num(HOME_CONFIDENCE), c.id, k, tick, Ghost(first));
}

/// What somebody sees themselves they know firsthand, as of that moment and from
/// nobody, for what it is, where it is and as much as there looks to be.
pub proof fn law_seeing_is_knowing_firsthand(n: ResourceNode, eye: Eye)
    ensures
        ({
            let b = node_belief(n, eye);
            &&& b.kind == BeliefKind::of_node(n.kind)
            &&& b.x == n.x && b.y == n.y
            &&& b.estimate == Estimate::of(n.quantity, n.max_quantity)
            &&& b.confidence == eye.confidence
            &&& b.hops == 0 && b.source_creature_id is None && b.origin_creature_id == Some(eye.id)
            &&& b.learned_tick == eye.tick && b.last_verified_tick == eye.tick && b.origin_tick == eye.tick
        }),
{
}

/// Water in sight is known for certain, and as plentiful.
pub proof fn law_water_in_sight_is_known(beliefs: Seq<Belief>, at: (u32, u32), eye: Eye, k: &KnowledgeConfig)
    requires
        beliefs.len() < capacity_of(k),
        forall|i: int|
            0 <= i < beliefs.len() ==> !((#[trigger] beliefs[i]).kind == BeliefKind::Water && beliefs[i].x == at.0
                && beliefs[i].y == at.1),
    ensures
        ({
            let look = look_for_water(beliefs, Some(at), eye, k);
            let b = look.beliefs.last();
            &&& look.discovered == 1
            &&& look.beliefs == beliefs.push(b)
            &&& b.kind == BeliefKind::Water && b.x == at.0 && b.y == at.1
            &&& b.estimate == Estimate::Plentiful && b.confidence == num(0x3F80_0000) && b.hops == 0
            &&& b.last_verified_tick == eye.tick
        }),
        look_for_water(beliefs, None, eye, k).beliefs == beliefs,
        look_for_water(beliefs, None, eye, k).discovered == 0,
{
    let b = witnessed(BeliefKind::Water, at.0, at.1, Estimate::Plentiful, num(CERTAIN), eye.id, eye.tick);
    let p = |x: Belief| same_place(x, b);
    assert forall|i: int| 0 <= i < beliefs.len() implies !p(#[trigger] beliefs[i]) by {
    }
    lemma_first_where_is(beliefs, p, beliefs.len() as int);
}

/// Memory holds as much as it is set to, and eight at least.
pub proof fn law_memory_holds_eight_at_least(k: &KnowledgeConfig)
    ensures
        capacity_of(k) >= 8,
        k.max_beliefs_held >= 8 ==> capacity_of(k) == k.max_beliefs_held,
{
}

/// The water that is seen is fresh, within sight, and none is nearer.
pub proof fn law_the_nearest_water_is_seen(g: Ground, x: u32, y: u32, radius: u32, s: int)
    requires
        g.width > 0,
        is_nearest_water(g, tile_index(g.width, x as int, y as int), s),
        apart(g.width as int, s, tile_index(g.width, x as int, y as int)) <= radius,
        s % g.width as int <= u32::MAX,
        0 <= s / g.width as int <= u32::MAX,
    ensures
        g.tiles[s] == Terrain::ShallowWater,
        water_seen(g, x, y, radius) == Some(((s % g.width as int) as u32, (s / g.width as int) as u32)),
{
    let i = tile_index(g.width, x as int, y as int);
    let t = choose|t: int| is_nearest_water(g, i, t);
    lemma_nearest_water(g, i, s, t);
}

/// Nothing is seen where no fresh water is, or none within sight.
pub proof fn law_no_water_is_imagined(g: Ground, x: u32, y: u32, radius: u32)
    requires
        forall|s: int| #[trigger] is_drinkable(g, s) ==> apart(g.width as int, s, tile_index(g.width, x as int, y as int))
            > radius,
    ensures
        water_seen(g, x, y, radius) is None,
{
    let i = tile_index(g.width, x as int, y as int);
    if exists|s: int| is_nearest_water(g, i, s) {
        let t = choose|t: int| is_nearest_water(g, i, t);
        assert(is_drinkable(g, t));
    }
}

/// What is found is counted once: one more node looked at is one more discovery
/// exactly if nothing was known of such a thing at that place, and is then the last
/// found; what cannot be seen changes nothing.
pub proof fn law_what_is_new_is_counted(
    start: Look,
    nodes: Seq<ResourceNode>,
    list: Seq<u32>,
    i: u32,
    eye: Eye,
    k: &KnowledgeConfig,
)
    ensures
        ({
            let (before, after) = (look_at(start, nodes, list, eye, k), look_at(start, nodes, list.push(i), eye, k));
            let n = nodes[i as int];
            let kind = BeliefKind::of_node(n.kind);
            let known = exists|j: int|
                0 <= j < before.beliefs.len() && (#[trigger] before.beliefs[j]).kind == kind && before.beliefs[j].x == n.x
                    && before.beliefs[j].y == n.y;
            &&& !is_indexed(n) ==> after == before
            &&& is_indexed(n) && known ==> after.discovered == before.discovered && after.last == before.last
            &&& is_indexed(n) && !known ==> after.discovered == before.discovered + 1 && after.last == Some((n.x, n.y, kind))
        }),
        look_at(start, nodes, Seq::empty(), eye, k) == start,
{
    assert(list.push(i).drop_last() =~= list);
    assert(list.push(i).last() == i);
    let before = look_at(start, nodes, list, eye, k);
    let b = node_belief(nodes[i as int], eye);
    let p = |x: Belief| same_place(x, b);
    lemma_first_where(before.beliefs, p);
    let at = first_where(before.beliefs, p);
    if at < before.beliefs.len() {
        assert(p(before.beliefs[at]));
        assert(before.beliefs[at].kind == b.kind);
    } else {
        assert forall|j: int| 0 <= j < before.beliefs.len() implies !p(#[trigger] before.beliefs[j]) by {
        }
    }
}

/// Whoever stands on soil knows it for certain, as some; and one's home is known from
/// the start, four times as far as one sees, if not quite for certain.
pub proof fn law_the_ground_underfoot_is_known(
    c: CreatureV,
    g: Ground,
    stock: Seq<ResourceNode>,
    index: GridV,
    cfg: &WorldConfig,
    tick: i64,
)
    requires
        cfg.knowledge.observation_radius * 4 <= u32::MAX,
    ensures
        ({
            let k = &cfg.knowledge;
            let eye = Eye { id: c.id, tick, confidence: num(0x3F80_0000) };
            let look = look_at(
                look_for_water(c.beliefs, water_seen(g, c.x, c.y, k.observation_radius), eye, k),
                stock,
                in_sight(index, stock, c.x, c.y, k.observation_radius),
                eye,
                k,
            );
            let seen = observed(c, g, stock, index, cfg, tick);
            let soil = Belief {
                kind: BeliefKind::SoilPatch,
                x: c.x,
                y: c.y,
                estimate: Estimate::Moderate,
                confidence: num(0x3F80_0000),
                learned_tick: tick,
                last_verified_tick: tick,
                source_creature_id: None,
                hops: 0,
                origin_creature_id: Some(c.id),
                origin_tick: tick,
            };
            &&& g.tile(c.x as int, c.y as int) != Terrain::Soil ==> seen == look
            &&& g.tile(c.x as int, c.y as int) == Terrain::Soil ==> seen.beliefs == with_upsert(
                look.beliefs,
                soil,
                k,
                capacity_of(k),
                tick,
            ).0
        }),
        ({
            let k = &cfg.knowledge;
            let reach = (k.observation_radius * 4) as u32;
            let eye = Eye { id: c.id, tick, confidence: num(0x3F59_999A) };
            at_home(c, g, stock, index, cfg, tick) == look_at(
                look_for_water(c.beliefs, water_seen(g, c.x, c.y, reach), eye, k),
                stock,
                in_sight(index, stock, c.x, c.y, reach),
                eye,
                k,
            ).beliefs
        }),
{
    reveal(observed);
}

} // verus!
