//! The action set: preconditions, costs, and execution.
//!
//! Every action carries its preconditions with it, checked before the action is
//! ever offered. Whoever chooses, chooses from a menu that has already been
//! validated, so an impossible action cannot be asked for.

use crate::chance::Stream;
use crate::config::WorldConfig;
use crate::creature::{
    food_of, oldest_food_of, total_of, weight_of, with_added, with_taken, Creature, CreatureV, DeathCause, ItemKind,
};
use crate::economy::{nearest_where, square_of, structure_at, Structure, StructureKind, Structures};
use crate::event::{event_of, log_of, Event, EventKind, EventV};
use crate::lists::{first_where, lemma_first_where, lemma_first_where_is};
use crate::num::{num, of_int, Num, FULL, NOTHING, ONE};
use crate::pathfind::{is_map, lemma_route_inside, path_inside, route_of, Pathfinder};
use crate::records::{count_one, one_more};
use crate::terrain::Terrain;
use crate::text::{integer, integer_text};
use crate::world::{lemma_tile_index, tile_index, Ground, NodeKind, ResourceNode, World};
use vstd::prelude::*;
use vstd::string::*;

verus! {

/// 2.0
pub const TWO: u32 = 0x4000_0000;

/// 99.0
pub const RESTED: u32 = 0x42C6_0000;

/// 0.99
pub const SOUND: u32 = 0x3F7D_70A4;

/// 0.01
pub const TRACE: u32 = 0x3C23_D70A;

/// 0.15
pub const REPAIR_PER_WOOD: u32 = 0x3E19_999A;

/// 24.0
pub const WHEAT_FULL: u32 = 0x41C0_0000;

/// The root of two.
pub const DIAGONAL: u32 = 0x3FB5_04F3;

/// 6.0
pub const LEAST_INJURY: u32 = 0x40C0_0000;

/// 88.0
pub const INJURY_SPAN: u32 = 0x42B0_0000;

#[derive(Debug, Clone, Copy, PartialEq, Eq, Structural)]
pub enum Goal {
    MoveTo,
    Drink,
    EatFromInventory,
    Rest,
    Shelter,
    BuildFire,
    FeedFire,
    GatherForage,
    ChopWood,
    HarvestWheat,
    PlantWheat,
    TendCrop,
    SlaughterSheep,
    BuildShelter,
    RepairShelter,
    Explore,
    Verify,
}

impl Goal {
    pub open spec fn text(self) -> Seq<char> {
        match self {
            Goal::MoveTo => "MOVE_TO"@,
            Goal::Drink => "DRINK"@,
            Goal::EatFromInventory => "EAT_FROM_INVENTORY"@,
            Goal::Rest => "REST"@,
            Goal::Shelter => "SHELTER"@,
            Goal::BuildFire => "BUILD_FIRE"@,
            Goal::FeedFire => "FEED_FIRE"@,
            Goal::GatherForage => "GATHER_FORAGE"@,
            Goal::ChopWood => "CHOP_WOOD"@,
            Goal::HarvestWheat => "HARVEST_WHEAT"@,
            Goal::PlantWheat => "PLANT_WHEAT"@,
            Goal::TendCrop => "TEND_CROP"@,
            Goal::SlaughterSheep => "SLAUGHTER_SHEEP"@,
            Goal::BuildShelter => "BUILD_SHELTER"@,
            Goal::RepairShelter => "REPAIR_SHELTER"@,
            Goal::Explore => "EXPLORE"@,
            Goal::Verify => "VERIFY"@,
        }
    }

    pub fn as_str(self) -> (s: &'static str)
        ensures
            s@ == self.text(),
    {
        match self {
            Goal::MoveTo => "MOVE_TO",
            Goal::Drink => "DRINK",
            Goal::EatFromInventory => "EAT_FROM_INVENTORY",
            Goal::Rest => "REST",
            Goal::Shelter => "SHELTER",
            Goal::BuildFire => "BUILD_FIRE",
            Goal::FeedFire => "FEED_FIRE",
            Goal::GatherForage => "GATHER_FORAGE",
            Goal::ChopWood => "CHOP_WOOD",
            Goal::HarvestWheat => "HARVEST_WHEAT",
            Goal::PlantWheat => "PLANT_WHEAT",
            Goal::TendCrop => "TEND_CROP",
            Goal::SlaughterSheep => "SLAUGHTER_SHEEP",
            Goal::BuildShelter => "BUILD_SHELTER",
            Goal::RepairShelter => "REPAIR_SHELTER",
            Goal::Explore => "EXPLORE",
            Goal::Verify => "VERIFY",
        }
    }

    /// How far ahead each goal may be committed to. Nothing at all can be
    /// committed to while in crisis.
    pub fn horizon_cap(self, cfg: &WorldConfig) -> (r: u32)
        ensures
            r == match self {
                Goal::MoveTo | Goal::Explore | Goal::Verify => cfg.deliberation.horizon_cap_travel,
                Goal::BuildShelter | Goal::RepairShelter | Goal::PlantWheat | Goal::TendCrop =>
                    cfg.deliberation.horizon_cap_construction,
                Goal::Drink | Goal::EatFromInventory => cfg.deliberation.horizon_cap_crisis,
                _ => cfg.deliberation.horizon_cap_gather,
            },
    {
        let d = &cfg.deliberation;
        match self {
            Goal::MoveTo | Goal::Explore | Goal::Verify => d.horizon_cap_travel,
            Goal::GatherForage | Goal::ChopWood | Goal::HarvestWheat | Goal::SlaughterSheep => d.horizon_cap_gather,
            Goal::BuildShelter | Goal::RepairShelter | Goal::PlantWheat | Goal::TendCrop => {
                d.horizon_cap_construction
            },
            Goal::Drink | Goal::EatFromInventory => d.horizon_cap_crisis,
            _ => d.horizon_cap_gather,
        }
    }

    pub open spec fn is_hazardous_spec(self) -> bool {
        self == Goal::ChopWood || self == Goal::SlaughterSheep
    }

    /// Work that can hurt whoever does it: swinging an axe and killing a sheep.
    #[verifier::when_used_as_spec(is_hazardous_spec)]
    pub fn is_hazardous(self) -> (r: bool)
        ensures
            r == self.is_hazardous_spec(),
    {
        matches!(self, Goal::ChopWood | Goal::SlaughterSheep)
    }
}

#[derive(Debug, Clone, Copy, PartialEq, Eq, Structural)]
pub enum Target {
    Nothing,
    Tile(u32, u32),
    /// Index into the world's nodes. That list only ever grows, and depleted
    /// nodes are reused in place, so an index stays a valid handle for as long
    /// as a plan holds one.
    Node(u32),
    Structure(i64),
}

impl Target {
    pub open spec fn tile_in(self, nodes: Seq<ResourceNode>) -> Option<(u32, u32)> {
        match self {
            Target::Tile(x, y) => Some((x, y)),
            Target::Node(i) => if i < nodes.len() {
                Some((nodes[i as int].x, nodes[i as int].y))
            } else {
                None
            },
            _ => None,
        }
    }

    pub fn tile(self, world: &World) -> (r: Option<(u32, u32)>)
        ensures
            r == self.tile_in(world.nodes@),
    {
        match self {
            Target::Tile(x, y) => Some((x, y)),
            Target::Node(i) => {
                if (i as usize) < world.nodes.len() {
                    let n = &world.nodes[i as usize];
                    Some((n.x, n.y))
                } else {
                    None
                }
            },
            _ => None,
        }
    }
}

#[derive(Debug, Clone)]
pub struct Step {
    pub goal: Goal,
    pub target: Target,
    pub est_ticks: u32,
    pub elapsed: u32,
    /// Total taken so far by a multi-tick gather, so the event can be written
    /// once when the step finishes instead of once per tick.
    pub progress: Num,
    /// Tiles of a movement, consumed one or more per tick according to speed.
    /// Computed once when the step is reached, not per tick.
    pub path: Vec<(u32, u32)>,
    /// How far along `path` the creature has walked.
    pub path_pos: usize,
    pub path_ready: bool,
}

/// A step with its path as a sequence.
#[verifier::ext_equal]
pub struct StepV {
    pub goal: Goal,
    pub target: Target,
    pub est_ticks: u32,
    pub elapsed: u32,
    pub progress: Num,
    pub path: Seq<(u32, u32)>,
    pub path_pos: nat,
    pub path_ready: bool,
}

impl View for Step {
    type V = StepV;

    open spec fn view(&self) -> StepV {
        StepV {
            goal: self.goal,
            target: self.target,
            est_ticks: self.est_ticks,
            elapsed: self.elapsed,
            progress: self.progress,
            path: self.path@,
            path_pos: self.path_pos as nat,
            path_ready: self.path_ready,
        }
    }
}

pub open spec fn steps_of(steps: Seq<Step>) -> Seq<StepV> {
    Seq::new(steps.len(), |i: int| steps[i]@)
}

impl StepV {
    /// What a step is called, with the place it is about.
    pub open spec fn described(self, nodes: Seq<ResourceNode>) -> Seq<char> {
        match self.target.tile_in(nodes) {
            Some(at) => self.goal.text() + " "@ + integer_text(at.0 as int) + ","@ + integer_text(at.1 as int),
            None => self.goal.text(),
        }
    }
}

impl Step {
    pub fn new(goal: Goal, target: Target, est_ticks: u32) -> (r: Self)
        ensures
            r@ == (StepV {
                goal,
                target,
                est_ticks,
                elapsed: 0,
                progress: num(NOTHING),
                path: Seq::empty(),
                path_pos: 0,
                path_ready: false,
            }),
    {
        Step {
            goal,
            target,
            est_ticks,
            elapsed: 0,
            progress: num(NOTHING),
            path: Vec::new(),
            path_pos: 0,
            path_ready: false,
        }
    }

    pub fn describe(&self, world: &World) -> (s: String)
        ensures
            s@ == self@.described(world.nodes@),
    {
        let mut s = self.goal.as_str().to_owned();
        if let Some((x, y)) = self.target.tile(world) {
            s.append(" ");
            let t = integer(x as i64);
            s.append(t.as_str());
            s.append(",");
            let t = integer(y as i64);
            s.append(t.as_str());
        }
        s
    }
}

/// Why a plan stopped. Recorded on every early abort so that "the world changed"
/// can be told from "the plan was bad".
#[derive(Debug, Clone, Copy, PartialEq, Eq, Structural)]
pub enum AbortReason {
    Completed,
    HorizonExpired,
    TargetDepleted,
    TargetGone,
    Unreachable,
    PreconditionFailed,
    Encumbered,
    HungerCritical,
    ThirstCritical,
    WarmthCritical,
    Superseded,
    Died,
}

impl AbortReason {
    pub open spec fn text(self) -> Seq<char> {
        match self {
            AbortReason::Completed => "COMPLETED"@,
            AbortReason::HorizonExpired => "HORIZON_EXPIRED"@,
            AbortReason::TargetDepleted => "TARGET_DEPLETED"@,
            AbortReason::TargetGone => "TARGET_GONE"@,
            AbortReason::Unreachable => "UNREACHABLE"@,
            AbortReason::PreconditionFailed => "PRECONDITION_FAILED"@,
            AbortReason::Encumbered => "ENCUMBERED"@,
            AbortReason::HungerCritical => "HUNGER_CRITICAL"@,
            AbortReason::ThirstCritical => "THIRST_CRITICAL"@,
            AbortReason::WarmthCritical => "WARMTH_CRITICAL"@,
            AbortReason::Superseded => "SUPERSEDED"@,
            AbortReason::Died => "DIED"@,
        }
    }

    pub fn as_str(self) -> (s: &'static str)
        ensures
            s@ == self.text(),
    {
        match self {
            AbortReason::Completed => "COMPLETED",
            AbortReason::HorizonExpired => "HORIZON_EXPIRED",
            AbortReason::TargetDepleted => "TARGET_DEPLETED",
            AbortReason::TargetGone => "TARGET_GONE",
            AbortReason::Unreachable => "UNREACHABLE",
            AbortReason::PreconditionFailed => "PRECONDITION_FAILED",
            AbortReason::Encumbered => "ENCUMBERED",
            AbortReason::HungerCritical => "HUNGER_CRITICAL",
            AbortReason::ThirstCritical => "THIRST_CRITICAL",
            AbortReason::WarmthCritical => "WARMTH_CRITICAL",
            AbortReason::Superseded => "SUPERSEDED",
            AbortReason::Died => "DIED",
        }
    }

    pub open spec fn is_hard_spec(self) -> bool {
        self == AbortReason::HungerCritical || self == AbortReason::ThirstCritical || self
            == AbortReason::WarmthCritical || self == AbortReason::TargetGone || self == AbortReason::Unreachable
    }

    /// A hard signal aborts a committed plan immediately; soft ones only
    /// accumulate as pressure until the horizon expires.
    #[verifier::when_used_as_spec(is_hard_spec)]
    pub fn is_hard(self) -> (r: bool)
        ensures
            r == self.is_hard_spec(),
    {
        matches!(
            self,
            AbortReason::HungerCritical
                | AbortReason::ThirstCritical
                | AbortReason::WarmthCritical
                | AbortReason::TargetGone
                | AbortReason::Unreachable
        )
    }
}

#[derive(Debug, Clone, Copy, PartialEq, Eq, Structural)]
pub enum Outcome {
    /// Still working; the step keeps the creature for another tick.
    Working,
    /// This step finished; advance to the next.
    StepComplete,
    /// The step cannot proceed; the plan aborts with this reason.
    Failed(AbortReason),
}

/// Everything an action needs besides the creature itself.
pub struct ActionCtx {
    pub world: World,
    pub structures: Structures,
    pub pathfinder: Pathfinder,
    pub cfg: WorldConfig,
    pub tick: i64,
    pub rng: Stream,
    pub events: Vec<Event>,
    pub night: bool,
    /// Work done and food eaten, accumulated for the statistics of a tick.
    pub gathered: Num,
    pub eaten: Num,
}

pub open spec fn near_spec(ax: u32, ay: u32, bx: u32, by: u32, r: u32) -> bool {
    -r <= ax - bx <= r && -r <= ay - by <= r
}

/// Within so many columns and rows.
#[verifier::when_used_as_spec(near_spec)]
pub fn near(ax: u32, ay: u32, bx: u32, by: u32, r: u32) -> (b: bool)
    ensures
        b == near_spec(ax, ay, bx, by, r),
{
    let dx = if ax < bx {
        bx - ax
    } else {
        ax - bx
    };
    let dy = if ay < by {
        by - ay
    } else {
        ay - by
    };
    dx <= r && dy <= r
}

/// A target that is a node of a kind with something left.
pub open spec fn target_has(nodes: Seq<ResourceNode>, target: Target, kind: NodeKind) -> bool {
    target matches Target::Node(i) && i < nodes.len() && nodes[i as int].kind == kind && nodes[i as int].quantity.gt(
        num(TRACE),
    )
}

fn node_has(world: &World, target: Target, kind: NodeKind) -> (r: bool)
    ensures
        r == target_has(world.nodes@, target, kind),
{
    match target {
        Target::Node(i) => {
            (i as usize) < world.nodes.len() && world.nodes[i as usize].kind == kind
                && world.nodes[i as usize].quantity.gt(num(TRACE))
        },
        _ => false,
    }
}

/// Room for something more in the pack.
pub open spec fn carry_room(c: CreatureV, cfg: &WorldConfig) -> bool {
    weight_of(c.pack).lt(c.carry_capacity(cfg) - num(TRACE))
}

fn has_carry_room(c: &Creature, cfg: &WorldConfig) -> (r: bool)
    ensures
        r == carry_room(c@, cfg),
{
    c.inventory.weight().lt(c.carry_capacity(cfg) - num(TRACE))
}

/// A fire within arm's reach of a tile.
pub open spec fn fire_beside(s: Structure, x: u32, y: u32) -> bool {
    s.kind == StructureKind::Fire && near(s.x, s.y, x, y, 1)
}

pub open spec fn wheat_on(n: ResourceNode, x: u32, y: u32) -> bool {
    n.kind == NodeKind::Wheat && n.x == x && n.y == y
}

/// What a goal asks of its target and its doer.
pub open spec fn legal(
    c: CreatureV,
    goal: Goal,
    target: Target,
    g: Ground,
    nodes: Seq<ResourceNode>,
    structures: Seq<Structure>,
    cfg: &WorldConfig,
) -> bool {
    let at = target.tile_in(nodes);
    let (x, y) = match at {
        Some(p) => p,
        None => (0, 0),
    };
    let spot = g.tile(x as int, y as int);
    &&& c.life_stage.can_work() || goal == Goal::EatFromInventory || goal == Goal::Rest || goal == Goal::Shelter || goal
        == Goal::MoveTo
    &&& match goal {
        Goal::MoveTo | Goal::Explore | Goal::Verify => at is Some && g.inside(x as int, y as int)
            && spot.passable(),
        Goal::Drink => at is Some && spot.is_fresh_water(),
        Goal::EatFromInventory => food_of(c.pack).gt(num(NOTHING)),
        Goal::Rest => true,
        Goal::Shelter => shelter_beside(structures, c.x, c.y) is Some,
        Goal::BuildFire => cfg.features.fires && total_of(c.pack, ItemKind::Wood).ge(cfg.actions.fire_wood_cost),
        Goal::FeedFire => cfg.features.fires && total_of(c.pack, ItemKind::Wood).ge(num(ONE)) && exists|k: int|
            0 <= k < structures.len() && fire_beside(#[trigger] structures[k], c.x, c.y),
        Goal::GatherForage => target_has(nodes, target, NodeKind::Forage) && carry_room(c, cfg),
        Goal::ChopWood => target_has(nodes, target, NodeKind::Wood) && carry_room(c, cfg),
        Goal::HarvestWheat => cfg.features.wheat && target_has(nodes, target, NodeKind::Wheat) && carry_room(c, cfg),
        Goal::SlaughterSheep => cfg.features.sheep && target_has(nodes, target, NodeKind::Sheep) && carry_room(c, cfg),
        Goal::PlantWheat => cfg.features.wheat && at is Some && spot == Terrain::Soil && forall|k: int|
            0 <= k < nodes.len() ==> !(wheat_on(#[trigger] nodes[k], x, y) && nodes[k].quantity.gt(
                num(NOTHING),
            )),
        Goal::TendCrop => cfg.features.wheat && (target matches Target::Node(i) && i < nodes.len() && nodes[i as int].kind
            == NodeKind::Wheat && nodes[i as int].quantity.lt(nodes[i as int].max_quantity)),
        Goal::BuildShelter => total_of(c.pack, ItemKind::Wood).ge(cfg.actions.shelter_wood_cost) && at is Some
            && spot.passable() && !spot.is_water(),
        Goal::RepairShelter => total_of(c.pack, ItemKind::Wood).ge(num(ONE)) && (target matches Target::Structure(id)
            && structure_at(structures, id) < structures.len() && {
            let s = structures[structure_at(structures, id)];
            s.kind == StructureKind::Shelter && s.condition.lt(num(SOUND)) && near(s.x, s.y, c.x, c.y, 1)
        }),
    }
}

/// The shelter with room that a creature would go into from where it stands.
pub open spec fn shelter_beside(structures: Seq<Structure>, x: u32, y: u32) -> Option<int> {
    nearest_where(structures, |s: Structure| s.shelters() && s.has_room(), x, y, square_of(1))
}

/// The goals that read the ground at their target.
pub open spec fn reads_ground(goal: Goal) -> bool {
    goal == Goal::Drink || goal == Goal::PlantWheat || goal == Goal::BuildShelter
}

fn any_fire_beside(items: &Vec<Structure>, x: u32, y: u32) -> (r: bool)
    ensures
        r == exists|k: int| 0 <= k < items@.len() && fire_beside(#[trigger] items@[k], x, y),
{
    for k in 0..items.len()
        invariant
            forall|j: int| 0 <= j < k ==> !fire_beside(#[trigger] items@[j], x, y),
    {
        let s = &items[k];
        if s.kind == StructureKind::Fire && near(s.x, s.y, x, y, 1) {
            assert(fire_beside(items@[k as int], x, y));
            return true;
        }
    }
    false
}

fn any_wheat_growing(nodes: &Vec<ResourceNode>, x: u32, y: u32) -> (r: bool)
    ensures
        !r == forall|k: int|
            0 <= k < nodes@.len() ==> !(wheat_on(#[trigger] nodes@[k], x, y) && nodes@[k].quantity.gt(num(NOTHING))),
{
    for k in 0..nodes.len()
        invariant
            forall|j: int|
                0 <= j < k ==> !(wheat_on(#[trigger] nodes@[j], x, y) && nodes@[j].quantity.gt(num(NOTHING))),
    {
        let n = &nodes[k];
        if n.kind == NodeKind::Wheat && n.x == x && n.y == y && n.quantity.gt(num(NOTHING)) {
            assert(wheat_on(nodes@[k as int], x, y));
            return true;
        }
    }
    false
}

/// Whether a goal is legal for this creature right now.
pub fn is_legal(
    c: &Creature,
    goal: Goal,
    target: Target,
    world: &World,
    structures: &Structures,
    cfg: &WorldConfig,
) -> (r: bool)
    requires
        world.wf(),
        reads_ground(goal) ==> (target.tile_in(world.nodes@) matches Some(at) ==> tile_index(
            world.width,
            at.0 as int,
            at.1 as int,
        ) < world.tiles@.len()),
    ensures
        r == legal(c@, goal, target, world.ground(), world.nodes@, structures.items@, cfg),
{
    if !c.life_stage.can_work() && !matches!(
        goal,
        Goal::EatFromInventory | Goal::Rest | Goal::Shelter | Goal::MoveTo
    ) {
        return false;
    }
    let at = target.tile(world);
    match goal {
        Goal::MoveTo | Goal::Explore | Goal::Verify => match at {
            Some((x, y)) => {
                if world.in_bounds(x as i64, y as i64) {
                    proof {
                        lemma_tile_index(world.width, world.height, x as int, y as int);
                    }
                    world.at(x, y).passable()
                } else {
                    false
                }
            },
            None => false,
        },
        Goal::Drink => match at {
            Some((x, y)) => world.at(x, y).is_fresh_water(),
            None => false,
        },
        Goal::EatFromInventory => c.inventory.total_food().gt(num(NOTHING)),
        Goal::Rest => true,
        Goal::Shelter => structures.nearest_shelter(c.x, c.y, 1).is_some(),
        Goal::BuildFire => {
            cfg.features.fires && c.inventory.total(ItemKind::Wood).ge(cfg.actions.fire_wood_cost)
        },
        Goal::FeedFire => {
            cfg.features.fires && c.inventory.total(ItemKind::Wood).ge(num(ONE)) && any_fire_beside(
                &structures.items,
                c.x,
                c.y,
            )
        },
        Goal::GatherForage => node_has(world, target, NodeKind::Forage) && has_carry_room(c, cfg),
        Goal::ChopWood => node_has(world, target, NodeKind::Wood) && has_carry_room(c, cfg),
        Goal::HarvestWheat => {
            cfg.features.wheat && node_has(world, target, NodeKind::Wheat) && has_carry_room(c, cfg)
        },
        Goal::SlaughterSheep => {
            cfg.features.sheep && node_has(world, target, NodeKind::Sheep) && has_carry_room(c, cfg)
        },
        Goal::PlantWheat => cfg.features.wheat && match at {
            Some((x, y)) => world.at(x, y) == Terrain::Soil && !any_wheat_growing(&world.nodes, x, y),
            None => false,
        },
        Goal::TendCrop => cfg.features.wheat && match target {
            Target::Node(i) => {
                (i as usize) < world.nodes.len() && world.nodes[i as usize].kind == NodeKind::Wheat
                    && world.nodes[i as usize].quantity.lt(world.nodes[i as usize].max_quantity)
            },
            _ => false,
        },
        Goal::BuildShelter => {
            c.inventory.total(ItemKind::Wood).ge(cfg.actions.shelter_wood_cost) && match at {
                Some((x, y)) => {
                    let t = world.at(x, y);
                    t.passable() && !t.is_water()
                },
                None => false,
            }
        },
        Goal::RepairShelter => {
            c.inventory.total(ItemKind::Wood).ge(num(ONE)) && match target {
                Target::Structure(id) => match structures.get(id) {
                    Some(s) => {
                        s.kind == StructureKind::Shelter && s.condition.lt(num(SOUND)) && near(s.x, s.y, c.x, c.y, 1)
                    },
                    None => false,
                },
                _ => false,
            }
        },
    }
}

/// What an action can change: its doer, the step it is part of, and the world
/// around.
#[verifier::ext_equal]
pub struct Deed {
    pub c: CreatureV,
    pub step: StepV,
    pub nodes: Seq<ResourceNode>,
    pub structures: Seq<Structure>,
    pub next_id: i64,
    pub rng: Stream,
    pub log: Seq<EventV>,
    pub gathered: Num,
    pub eaten: Num,
}

/// What an action cannot change.
#[verifier::ext_equal]
pub struct Setting {
    pub ground: Ground,
    pub cfg: WorldConfig,
    pub tick: i64,
    pub night: bool,
    /// How far a search for a route goes.
    pub cap: nat,
}

pub open spec fn deed_of(c: &Creature, step: &Step, ctx: &ActionCtx) -> Deed {
    Deed {
        c: c@,
        step: step@,
        nodes: ctx.world.nodes@,
        structures: ctx.structures.items@,
        next_id: ctx.structures.next_id,
        rng: ctx.rng,
        log: log_of(ctx.events@),
        gathered: ctx.gathered,
        eaten: ctx.eaten,
    }
}

pub open spec fn setting_of(ctx: &ActionCtx) -> Setting {
    Setting {
        ground: ctx.world.ground(),
        cfg: ctx.cfg,
        tick: ctx.tick,
        night: ctx.night,
        cap: ctx.pathfinder.node_cap as nat,
    }
}

impl ActionCtx {
    /// The route finder belongs to the map, and ids have not run out.
    pub open spec fn wf(&self) -> bool {
        &&& is_map(self.world.ground())
        &&& self.pathfinder.wf()
        &&& self.pathfinder.fits(self.world.ground())
        &&& self.pathfinder.cache_serves(self.world.ground())
        &&& self.structures.next_id < i64::MAX
    }

    /// At most one crop planted and one structure raised.
    pub open spec fn grown_from(&self, before: &ActionCtx) -> bool {
        &&& before.world.nodes@.len() <= self.world.nodes@.len() <= before.world.nodes@.len() + 1
        &&& before.structures.next_id <= self.structures.next_id <= before.structures.next_id + 1
    }

    /// The same place and time, with the rest of the world left as it was.
    pub open spec fn same_setting(&self, other: &ActionCtx) -> bool {
        &&& setting_of(self) == setting_of(other)
        &&& self.world == (World { nodes: self.world.nodes, ..other.world })
        &&& is_map(self.world.ground())
        &&& self.pathfinder.wf()
        &&& self.pathfinder.fits(self.world.ground())
        &&& self.pathfinder.cache_serves(self.world.ground())
    }
}

/// A creature on the map with a route that stays on it.
pub open spec fn on_map(g: Ground, c: CreatureV, step: StepV) -> bool {
    g.inside(c.x as int, c.y as int) && path_inside(g, step.path)
}

impl Deed {
    pub open spec fn noted(self, e: EventV) -> Deed {
        Deed { log: self.log.push(e), ..self }
    }

    pub open spec fn here(self, kind: EventKind, tick: i64) -> EventV {
        event_of(tick, kind, self.c.id).at(self.c.x, self.c.y)
    }
}

fn note(ctx: &mut ActionCtx, e: Event)
    ensures
        log_of(final(ctx).events@) == log_of(old(ctx).events@).push(e@),
        *final(ctx) == (ActionCtx { events: final(ctx).events, ..*old(ctx) }),
{
    ctx.events.push(e);
    assert(log_of(ctx.events@) == log_of(old(ctx).events@).push(e@));
}

/// Arriving is what puts a creature in a position to see. Looking happens for
/// every creature every tick, and that is where a wrong belief is corrected.
pub open spec fn arrived(d: Deed, s: Setting) -> (Deed, Outcome) {
    (
        if d.step.goal == Goal::Verify {
            d.noted(d.here(EventKind::Verified, s.tick))
        } else {
            d
        },
        Outcome::StepComplete,
    )
}

fn arrive(c: &Creature, step: &Step, ctx: &mut ActionCtx) -> (out: Outcome)
    ensures
        (deed_of(c, step, final(ctx)), out) == arrived(deed_of(c, step, old(ctx)), setting_of(old(ctx))),
        *final(ctx) == (ActionCtx { events: final(ctx).events, ..*old(ctx) }),
{
    if step.goal == Goal::Verify {
        note(ctx, Event::new(ctx.tick, EventKind::Verified, c.id).at(c.x, c.y));
    }
    Outcome::StepComplete
}

/// Where a movement budget takes a creature along a path: the place it comes to
/// and how far along. The first step is taken whatever it costs.
pub open spec fn paced(
    g: Ground,
    path: Seq<(u32, u32)>,
    x: u32,
    y: u32,
    pos: nat,
    budget: Num,
    moved: bool,
) -> (u32, u32, nat)
    decreases path.len() - pos,
{
    if budget.gt(num(NOTHING)) && pos < path.len() {
        let (nx, ny) = path[pos as int];
        let cost = g.tile(nx as int, ny as int).move_cost() * num(
            if nx != x && ny != y {
                DIAGONAL
            } else {
                ONE
            },
        );
        if cost.gt(budget) && moved {
            (x, y, pos)
        } else {
            paced(g, path, nx, ny, pos + 1, budget - cost, true)
        }
    } else {
        (x, y, pos)
    }
}

/// Ticks after which a route that keeps ending short of its goal is given up.
pub open spec fn patience(est_ticks: u32) -> u32 {
    if est_ticks > 0x5555_5555 {
        u32::MAX
    } else if est_ticks * 3 > 48 {
        (est_ticks * 3) as u32
    } else {
        48
    }
}

/// One tick of walking along a path.
pub open spec fn walked(d: Deed, s: Setting, goal: (u32, u32)) -> (Deed, Outcome) {
    let (x, y, pos) = paced(s.ground, d.step.path, d.c.x, d.c.y, d.step.path_pos, d.c.speed(&s.cfg), false);
    let e = Deed { c: CreatureV { x, y, ..d.c }, step: StepV { path_pos: pos, ..d.step }, ..d };
    if pos < d.step.path.len() {
        (e, Outcome::Working)
    } else if (x, y) == goal {
        arrived(e, s)
    } else {
        (
            Deed { step: StepV { path_ready: false, ..e.step }, ..e },
            if d.step.elapsed >= patience(d.step.est_ticks) {
                Outcome::Failed(AbortReason::Unreachable)
            } else {
                Outcome::Working
            },
        )
    }
}

/// Movement along a committed path. The route is found once when the step is
/// first reached. A search that was cut short gives part of a route; the rest is
/// found from where that ended.
pub open spec fn moved_on(d: Deed, s: Setting) -> (Deed, Outcome) {
    match d.step.target.tile_in(d.nodes) {
        None => (d, Outcome::Failed(AbortReason::TargetGone)),
        Some(goal) => {
            if (d.c.x, d.c.y) == goal {
                arrived(d, s)
            } else if d.step.path_ready {
                walked(d, s, goal)
            } else {
                let fresh = StepV { path_ready: true, path_pos: 0, ..d.step };
                match route_of(s.ground, (d.c.x, d.c.y), goal, s.cap) {
                    Some(p) => if p.len() > 0 {
                        walked(Deed { step: StepV { path: p, ..fresh }, ..d }, s, goal)
                    } else {
                        arrived(Deed { step: fresh, ..d }, s)
                    },
                    None => (Deed { step: fresh, ..d }, Outcome::Failed(AbortReason::Unreachable)),
                }
            }
        },
    }
}

/// Spends one tick's movement budget along the path. Fatigue slows a creature
/// down, which is what makes rest worth the ticks it costs.
fn walk(c: &mut Creature, step: &mut Step, ctx: &mut ActionCtx, goal: (u32, u32)) -> (out: Outcome)
    requires
        old(ctx).world.wf(),
        on_map(old(ctx).world.ground(), old(c)@, old(step)@),
    ensures
        (deed_of(final(c), final(step), final(ctx)), out) == walked(
            deed_of(old(c), old(step), old(ctx)),
            setting_of(old(ctx)),
            goal,
        ),
        *final(ctx) == (ActionCtx { events: final(ctx).events, ..*old(ctx) }),
        on_map(final(ctx).world.ground(), final(c)@, final(step)@),
        final(c).plan == old(c).plan,
        final(c).id == old(c).id,
        final(c).birth_tick == old(c).birth_tick,
{
    let mut budget = c.speed(&ctx.cfg);
    let mut moved = false;
    let ghost g = ctx.world.ground();
    let ghost full = paced(g, step.path@, c.x, c.y, step.path_pos as nat, budget, false);
    let ghost (c0, step0) = (c@, step@);
    while budget.gt(num(NOTHING)) && step.path_pos < step.path.len()
        invariant_except_break
            full == paced(g, step.path@, c.x, c.y, step.path_pos as nat, budget, moved),
        invariant
            ctx.world.wf(),
            g == ctx.world.ground(),
            *ctx == *old(ctx),
            c@ == (CreatureV { x: c.x, y: c.y, ..c0 }),
            step@ == (StepV { path_pos: step.path_pos as nat, ..step0 }),
            on_map(g, c@, step@),
            c.plan == old(c).plan,
            c.id == old(c).id,
            c.birth_tick == old(c).birth_tick,
        ensures
            full == (c.x, c.y, step.path_pos as nat),
        decreases step.path@.len() - step.path_pos,
    {
        let (nx, ny) = step.path[step.path_pos];
        proof {
            assert(g.inside(step.path@[step.path_pos as int].0 as int, step.path@[step.path_pos as int].1 as int));
            lemma_tile_index(g.width, g.height, nx as int, ny as int);
        }
        let diagonal = nx != c.x && ny != c.y;
        let scale = num(
            if diagonal {
                DIAGONAL
            } else {
                ONE
            },
        );
        let cost = ctx.world.at(nx, ny).move_cost() * scale;
        if cost.gt(budget) && moved {
            break ;
        }
        budget = budget - cost;
        c.x = nx;
        c.y = ny;
        moved = true;
        step.path_pos = step.path_pos + 1;
    }
    if step.path_pos >= step.path.len() {
        if !(c.x == goal.0 && c.y == goal.1) {
            step.path_ready = false;
            let triple = if step.est_ticks > 0x5555_5555 {
                u32::MAX
            } else {
                step.est_ticks * 3
            };
            let limit = if triple > 48 {
                triple
            } else {
                48
            };
            if step.elapsed >= limit {
                return Outcome::Failed(AbortReason::Unreachable);
            }
            return Outcome::Working;
        }
        return arrive(c, step, ctx);
    }
    Outcome::Working
}

fn advance_move(c: &mut Creature, step: &mut Step, ctx: &mut ActionCtx) -> (out: Outcome)
    requires
        old(ctx).wf(),
        on_map(old(ctx).world.ground(), old(c)@, old(step)@),
    ensures
        (deed_of(final(c), final(step), final(ctx)), out) == moved_on(
            deed_of(old(c), old(step), old(ctx)),
            setting_of(old(ctx)),
        ),
        final(ctx).same_setting(old(ctx)),
        final(ctx).grown_from(old(ctx)),
        on_map(final(ctx).world.ground(), final(c)@, final(step)@),
        final(c).plan == old(c).plan,
        final(c).id == old(c).id,
        final(c).birth_tick == old(c).birth_tick,
{
    let Some(goal) = step.target.tile(&ctx.world) else {
        return Outcome::Failed(AbortReason::TargetGone);
    };
    if c.x == goal.0 && c.y == goal.1 {
        return arrive(c, step, ctx);
    }
    if !step.path_ready {
        step.path_ready = true;
        step.path_pos = 0;
        proof {
            lemma_route_inside(ctx.world.ground(), (c.x, c.y), goal, ctx.pathfinder.node_cap as nat);
        }
        match ctx.pathfinder.find(&ctx.world, (c.x, c.y), goal) {
            Some(p) => {
                if p.len() > 0 {
                    step.path = p;
                } else {
                    return arrive(c, step, ctx);
                }
            },
            None => {
                return Outcome::Failed(AbortReason::Unreachable);
            },
        }
    }
    walk(c, step, ctx, goal)
}

/// Somebody left a shelter.
pub open spec fn vacated(structures: Seq<Structure>, id: i64) -> Seq<Structure> {
    let i = structure_at(structures, id);
    if i < structures.len() {
        let s = structures[i];
        structures.update(
            i,
            Structure {
                occupants: if s.occupants > 0 {
                    (s.occupants - 1) as u32
                } else {
                    0
                },
                dirty: true,
                ..s
            },
        )
    } else {
        structures
    }
}

pub fn vacate(structures: &mut Structures, id: i64)
    ensures
        final(structures).items@ == vacated(old(structures).items@, id),
        final(structures).next_id == old(structures).next_id,
{
    if let Some(s) = structures.get_mut(id) {
        s.occupants = if s.occupants > 0 {
            s.occupants - 1
        } else {
            0
        };
        s.dirty = true;
    }
}

/// Anything that is not standing still means leaving shelter.
pub open spec fn released(d: Deed) -> Deed {
    match d.c.in_shelter {
        Some(id) => Deed {
            c: CreatureV { in_shelter: None, ..d.c },
            structures: vacated(d.structures, id),
            ..d
        },
        None => d,
    }
}

fn release_shelter(c: &mut Creature, structures: &mut Structures)
    ensures
        final(c)@ == (CreatureV { in_shelter: None, ..old(c)@ }),
        final(c).plan == old(c).plan,
        final(c).id == old(c).id,
        final(c).birth_tick == old(c).birth_tick,
        final(structures).next_id == old(structures).next_id,
        final(structures).items@ == match old(c).in_shelter {
            Some(id) => vacated(old(structures).items@, id),
            None => old(structures).items@,
        },
{
    if let Some(id) = c.in_shelter {
        c.in_shelter = None;
        vacate(structures, id);
    }
}

/// Drinking where there is fresh water underfoot.
pub open spec fn drunk(d: Deed, s: Setting) -> (Deed, Outcome) {
    if s.ground.tile(d.c.x as int, d.c.y as int).is_fresh_water() {
        let e = Deed {
            c: CreatureV { thirst: (d.c.thirst + s.cfg.actions.drink_restore).min(num(FULL)), ..d.c },
            ..d
        };
        (e.noted(d.here(EventKind::Drank, s.tick)), Outcome::StepComplete)
    } else {
        (d, Outcome::Failed(AbortReason::PreconditionFailed))
    }
}

fn drink(c: &mut Creature, step: &Step, ctx: &mut ActionCtx) -> (out: Outcome)
    requires
        old(ctx).wf(),
        old(ctx).world.inside(old(c).x as int, old(c).y as int),
    ensures
        (deed_of(final(c), step, final(ctx)), out) == drunk(deed_of(old(c), step, old(ctx)), setting_of(old(ctx))),
        final(ctx).same_setting(old(ctx)),
        final(ctx).grown_from(old(ctx)),
        final(c).x == old(c).x,
        final(c).y == old(c).y,
        final(c).plan == old(c).plan,
        final(c).id == old(c).id,
        final(c).birth_tick == old(c).birth_tick,
{
    proof {
        lemma_tile_index(ctx.world.width, ctx.world.height, c.x as int, c.y as int);
    }
    if !ctx.world.at(c.x, c.y).is_fresh_water() {
        // Standing where the water was believed to be and finding dry ground.
        return Outcome::Failed(AbortReason::PreconditionFailed);
    }
    c.thirst = (c.thirst + ctx.cfg.actions.drink_restore).min(num(FULL));
    note(ctx, Event::new(ctx.tick, EventKind::Drank, c.id).at(c.x, c.y));
    Outcome::StepComplete
}

/// Eating from the oldest batch, so a creature eats what is about to rot. That
/// single rule is most of what makes perishables behave differently from grain.
pub open spec fn fed(d: Deed, s: Setting) -> (Deed, Outcome) {
    match oldest_food_of(d.c.pack) {
        None => (d, Outcome::Failed(AbortReason::PreconditionFailed)),
        Some(oldest) => {
            let (pack, got) = with_taken(d.c.pack, oldest.kind, s.cfg.actions.eat_portion.min(oldest.quantity));
            if got.le(num(NOTHING)) {
                (
                    Deed { c: CreatureV { pack, ..d.c }, ..d },
                    Outcome::Failed(AbortReason::PreconditionFailed),
                )
            } else {
                let hunger = (d.c.hunger + got * oldest.kind.nutrition()).min(num(FULL));
                let e = Deed { c: CreatureV { pack, hunger, ..d.c }, eaten: d.eaten + got, ..d };
                let word = d.here(EventKind::Ate, s.tick).with("kind"@, oldest.kind.text()).with_num("qty"@, got);
                (e.noted(word), Outcome::StepComplete)
            }
        },
    }
}

fn eat(c: &mut Creature, step: &Step, ctx: &mut ActionCtx) -> (out: Outcome)
    requires
        old(ctx).wf(),
    ensures
        (deed_of(final(c), step, final(ctx)), out) == fed(deed_of(old(c), step, old(ctx)), setting_of(old(ctx))),
        final(ctx).same_setting(old(ctx)),
        final(ctx).grown_from(old(ctx)),
        final(c).x == old(c).x,
        final(c).y == old(c).y,
        final(c).plan == old(c).plan,
        final(c).id == old(c).id,
        final(c).birth_tick == old(c).birth_tick,
{
    let oldest = match c.inventory.oldest_food() {
        Some(b) => *b,
        None => {
            return Outcome::Failed(AbortReason::PreconditionFailed);
        },
    };
    let want = ctx.cfg.actions.eat_portion.min(oldest.quantity);
    let got = c.inventory.take(oldest.kind, want);
    if got.le(num(NOTHING)) {
        return Outcome::Failed(AbortReason::PreconditionFailed);
    }
    c.hunger = (c.hunger + got * oldest.kind.nutrition()).min(num(FULL));
    ctx.eaten = ctx.eaten + got;
    let e = Event::new(ctx.tick, EventKind::Ate, c.id).at(c.x, c.y).with("kind", oldest.kind.as_str()).with_num(
        "qty",
        got,
    );
    note(ctx, e);
    Outcome::StepComplete
}

/// Resting, better under a roof, until rested or the time is up.
pub open spec fn rested(d: Deed, s: Setting) -> (Deed, Outcome) {
    let restore = if d.c.in_shelter is Some {
        s.cfg.actions.rest_restore_sheltered
    } else {
        s.cfg.actions.rest_restore
    };
    let e = Deed { c: CreatureV { fatigue: (d.c.fatigue + restore).min(num(FULL)), ..d.c }, ..d };
    if e.c.fatigue.ge(num(RESTED)) || d.step.elapsed >= d.step.est_ticks {
        (
            e.noted(d.here(EventKind::Rested, s.tick).with_int("ticks"@, d.step.elapsed as int)),
            Outcome::StepComplete,
        )
    } else {
        (e, Outcome::Working)
    }
}

fn rest(c: &mut Creature, step: &Step, ctx: &mut ActionCtx) -> (out: Outcome)
    requires
        old(ctx).wf(),
    ensures
        (deed_of(final(c), step, final(ctx)), out) == rested(deed_of(old(c), step, old(ctx)), setting_of(old(ctx))),
        final(ctx).same_setting(old(ctx)),
        final(ctx).grown_from(old(ctx)),
        final(c).x == old(c).x,
        final(c).y == old(c).y,
        final(c).plan == old(c).plan,
        final(c).id == old(c).id,
        final(c).birth_tick == old(c).birth_tick,
{
    let restore = if c.in_shelter.is_some() {
        ctx.cfg.actions.rest_restore_sheltered
    } else {
        ctx.cfg.actions.rest_restore
    };
    c.fatigue = (c.fatigue + restore).min(num(FULL));
    if c.fatigue.ge(num(RESTED)) || step.elapsed >= step.est_ticks {
        let e = Event::new(ctx.tick, EventKind::Rested, c.id).at(c.x, c.y).with_int("ticks", step.elapsed as i64);
        note(ctx, e);
        return Outcome::StepComplete;
    }
    Outcome::Working
}

/// Going into the nearest shelter with room.
pub open spec fn sheltered(d: Deed, s: Setting) -> (Deed, Outcome) {
    if d.c.in_shelter is Some {
        (d, Outcome::StepComplete)
    } else {
        match shelter_beside(d.structures, d.c.x, d.c.y) {
            None => (d, Outcome::Failed(AbortReason::PreconditionFailed)),
            Some(k) => {
                let id = d.structures[k].id;
                let i = structure_at(d.structures, id);
                let old = d.structures[i];
                let e = Deed {
                    c: CreatureV { in_shelter: Some(id), ..d.c },
                    structures: d.structures.update(
                        i,
                        Structure { occupants: crowded(old.occupants), dirty: true, ..old },
                    ),
                    ..d
                };
                (e.noted(d.here(EventKind::Sheltered, s.tick).target(id)), Outcome::StepComplete)
            },
        }
    }
}

/// One more occupant, as far as can be counted.
pub open spec fn crowded(n: u32) -> u32 {
    if n < u32::MAX {
        (n + 1) as u32
    } else {
        n
    }
}

fn shelter(c: &mut Creature, step: &Step, ctx: &mut ActionCtx) -> (out: Outcome)
    requires
        old(ctx).wf(),
    ensures
        (deed_of(final(c), step, final(ctx)), out) == sheltered(deed_of(old(c), step, old(ctx)), setting_of(old(ctx))),
        final(ctx).same_setting(old(ctx)),
        final(ctx).grown_from(old(ctx)),
        final(c).x == old(c).x,
        final(c).y == old(c).y,
        final(c).plan == old(c).plan,
        final(c).id == old(c).id,
        final(c).birth_tick == old(c).birth_tick,
{
    if c.in_shelter.is_some() {
        return Outcome::StepComplete;
    }
    let id = match ctx.structures.nearest_shelter(c.x, c.y, 1) {
        Some(s) => s.id,
        None => {
            return Outcome::Failed(AbortReason::PreconditionFailed);
        },
    };
    proof {
        let items = ctx.structures.items@;
        let k = shelter_beside(items, c.x, c.y)->Some_0;
        lemma_first_where(items, |s: Structure| s.id == id);
        if structure_at(items, id) == items.len() {
            assert(items[k].id == id);
        }
    }
    if let Some(s) = ctx.structures.get_mut(id) {
        s.occupants = if s.occupants < u32::MAX {
            s.occupants + 1
        } else {
            s.occupants
        };
        s.dirty = true;
    }
    c.in_shelter = Some(id);
    note(ctx, Event::new(ctx.tick, EventKind::Sheltered, c.id).at(c.x, c.y).target(id));
    Outcome::StepComplete
}

/// A fire of so much wood.
pub open spec fn fire_of(id: i64, x: u32, y: u32, fuel: Num, tick: i64) -> Structure {
    Structure {
        id,
        kind: StructureKind::Fire,
        x,
        y,
        condition: num(ONE),
        capacity: 0,
        occupants: 0,
        household_id: None,
        built_tick: tick,
        fuel_remaining: fuel,
        lit_until_tick: None,
        dirty: true,
    }
}

/// Lighting a fire with the wood it takes.
pub open spec fn fire_built(d: Deed, s: Setting) -> (Deed, Outcome) {
    let cost = s.cfg.actions.fire_wood_cost;
    if !s.cfg.features.fires || total_of(d.c.pack, ItemKind::Wood).lt(cost) {
        (d, Outcome::Failed(AbortReason::PreconditionFailed))
    } else {
        let (pack, spent) = with_taken(d.c.pack, ItemKind::Wood, cost);
        let e = Deed {
            c: CreatureV { pack, ..d.c },
            structures: d.structures.push(fire_of(d.next_id, d.c.x, d.c.y, spent, s.tick)),
            next_id: (d.next_id + 1) as i64,
            ..d
        };
        (
            e.noted(d.here(EventKind::FireLit, s.tick).target(d.next_id).with_num("wood"@, spent)),
            Outcome::StepComplete,
        )
    }
}

fn build_fire(c: &mut Creature, step: &Step, ctx: &mut ActionCtx) -> (out: Outcome)
    requires
        old(ctx).wf(),
    ensures
        (deed_of(final(c), step, final(ctx)), out) == fire_built(deed_of(old(c), step, old(ctx)), setting_of(old(ctx))),
        final(ctx).same_setting(old(ctx)),
        final(ctx).grown_from(old(ctx)),
        final(c).x == old(c).x,
        final(c).y == old(c).y,
        final(c).plan == old(c).plan,
        final(c).id == old(c).id,
        final(c).birth_tick == old(c).birth_tick,
{
    if !ctx.cfg.features.fires {
        return Outcome::Failed(AbortReason::PreconditionFailed);
    }
    let cost = ctx.cfg.actions.fire_wood_cost;
    if c.inventory.total(ItemKind::Wood).lt(cost) {
        return Outcome::Failed(AbortReason::PreconditionFailed);
    }
    let spent = c.inventory.take(ItemKind::Wood, cost);
    let id = ctx.structures.add(
        Structure {
            id: 0,
            kind: StructureKind::Fire,
            x: c.x,
            y: c.y,
            condition: num(ONE),
            capacity: 0,
            occupants: 0,
            household_id: None,
            built_tick: ctx.tick,
            fuel_remaining: spent,
            lit_until_tick: None,
            dirty: true,
        },
    );
    note(ctx, Event::new(ctx.tick, EventKind::FireLit, c.id).at(c.x, c.y).target(id).with_num("wood", spent));
    Outcome::StepComplete
}

/// The lowest id among the fires within arm's reach.
pub open spec fn least_fire(structures: Seq<Structure>, x: u32, y: u32) -> Option<i64>
    decreases structures.len(),
{
    if structures.len() == 0 {
        None
    } else {
        let s = structures.last();
        let before = least_fire(structures.drop_last(), x, y);
        if !fire_beside(s, x, y) {
            before
        } else {
            match before {
                Some(id) if id <= s.id => before,
                _ => Some(s.id),
            }
        }
    }
}

proof fn lemma_least_fire(structures: Seq<Structure>, x: u32, y: u32)
    ensures
        least_fire(structures, x, y) matches Some(id) ==> structure_at(structures, id) < structures.len(),
    decreases structures.len(),
{
    if structures.len() > 0 {
        let shorter = structures.drop_last();
        lemma_least_fire(shorter, x, y);
        if let Some(id) = least_fire(structures, x, y) {
            let p = |s: Structure| s.id == id;
            lemma_first_where(structures, p);
            if structure_at(structures, id) == structures.len() {
                if id == structures.last().id {
                    assert(!p(structures[structures.len() - 1]));
                } else {
                    lemma_first_where(shorter, p);
                    assert(p(shorter[first_where(shorter, p)]));
                    assert(!p(structures[first_where(shorter, p)]));
                }
            }
        }
    }
}

fn find_fire(items: &Vec<Structure>, x: u32, y: u32) -> (r: Option<i64>)
    ensures
        r == least_fire(items@, x, y),
{
    let mut best: Option<i64> = None;
    for k in 0..items.len()
        invariant
            best == least_fire(items@.take(k as int), x, y),
    {
        proof {
            assert(items@.take(k + 1).drop_last() == items@.take(k as int));
        }
        let s = &items[k];
        if s.kind == StructureKind::Fire && near(s.x, s.y, x, y, 1) {
            best = match best {
                Some(id) => if id <= s.id {
                    Some(id)
                } else {
                    Some(s.id)
                },
                None => Some(s.id),
            };
        }
    }
    assert(items@.take(items@.len() as int) == items@);
    best
}

/// Putting wood on a fire.
pub open spec fn fire_fed(d: Deed, s: Setting) -> (Deed, Outcome) {
    match least_fire(d.structures, d.c.x, d.c.y) {
        None => (d, Outcome::Failed(AbortReason::TargetGone)),
        Some(id) => {
            let (pack, wood) = with_taken(d.c.pack, ItemKind::Wood, num(TWO));
            let e = Deed { c: CreatureV { pack, ..d.c }, ..d };
            if wood.le(num(NOTHING)) {
                (e, Outcome::Failed(AbortReason::PreconditionFailed))
            } else {
                let i = structure_at(d.structures, id);
                let f = d.structures[i];
                let g = Deed {
                    structures: d.structures.update(
                        i,
                        Structure {
                            fuel_remaining: f.fuel_remaining + wood,
                            lit_until_tick: None,
                            dirty: true,
                            ..f
                        },
                    ),
                    ..e
                };
                (
                    g.noted(d.here(EventKind::FireFed, s.tick).target(id).with_num("wood"@, wood)),
                    Outcome::StepComplete,
                )
            }
        },
    }
}

fn feed_fire(c: &mut Creature, step: &Step, ctx: &mut ActionCtx) -> (out: Outcome)
    requires
        old(ctx).wf(),
    ensures
        (deed_of(final(c), step, final(ctx)), out) == fire_fed(deed_of(old(c), step, old(ctx)), setting_of(old(ctx))),
        final(ctx).same_setting(old(ctx)),
        final(ctx).grown_from(old(ctx)),
        final(c).x == old(c).x,
        final(c).y == old(c).y,
        final(c).plan == old(c).plan,
        final(c).id == old(c).id,
        final(c).birth_tick == old(c).birth_tick,
{
    let Some(id) = find_fire(&ctx.structures.items, c.x, c.y) else {
        return Outcome::Failed(AbortReason::TargetGone);
    };
    let wood = c.inventory.take(ItemKind::Wood, num(TWO));
    if wood.le(num(NOTHING)) {
        return Outcome::Failed(AbortReason::PreconditionFailed);
    }
    proof {
        lemma_least_fire(ctx.structures.items@, c.x, c.y);
    }
    if let Some(s) = ctx.structures.get_mut(id) {
        s.fuel_remaining = s.fuel_remaining + wood;
        s.lit_until_tick = None;
        s.dirty = true;
    }
    note(ctx, Event::new(ctx.tick, EventKind::FireFed, c.id).at(c.x, c.y).target(id).with_num("wood", wood));
    Outcome::StepComplete
}

/// How fast a kind of node is worked, what it gives, and what that is called.
pub open spec fn craft_spec(kind: NodeKind, cfg: &WorldConfig, night: bool) -> (Num, ItemKind, EventKind) {
    let a = cfg.actions;
    match kind {
        NodeKind::Forage => (
            a.gather_forage_per_tick * if night {
                a.night_forage_scale
            } else {
                num(ONE)
            },
            ItemKind::Forage,
            EventKind::Gathered,
        ),
        NodeKind::Wood => (a.chop_wood_per_tick, ItemKind::Wood, EventKind::Chopped),
        _ => (a.harvest_wheat_per_tick, ItemKind::Grain, EventKind::Harvested),
    }
}

fn craft(kind: NodeKind, cfg: &WorldConfig, night: bool) -> (r: (Num, ItemKind, EventKind))
    ensures
        r == craft_spec(kind, cfg, night),
{
    let a = &cfg.actions;
    match kind {
        NodeKind::Forage => {
            let scale = if night {
                a.night_forage_scale
            } else {
                num(ONE)
            };
            (a.gather_forage_per_tick * scale, ItemKind::Forage, EventKind::Gathered)
        },
        NodeKind::Wood => (a.chop_wood_per_tick, ItemKind::Wood, EventKind::Chopped),
        _ => (a.harvest_wheat_per_tick, ItemKind::Grain, EventKind::Harvested),
    }
}

/// What one tick of work at a node moves into the pack.
pub open spec fn haul(c: CreatureV, kind: NodeKind, left: Num, s: Setting) -> Num {
    let room = c.carry_capacity(&s.cfg) - weight_of(c.pack);
    (craft_spec(kind, &s.cfg, s.night).0 * c.life_stage.work_rate()).min(left).min(room).max(num(NOTHING))
}

/// Gathering, chopping and harvesting: the same work with different rates,
/// yields and item kinds.
pub open spec fn harvested(d: Deed, s: Setting, kind: NodeKind) -> (Deed, Outcome) {
    match d.step.target {
        Target::Node(i) => {
            let node = d.nodes[i as int];
            if i >= d.nodes.len() || node.kind != kind {
                (d, Outcome::Failed(AbortReason::TargetGone))
            } else if (d.c.x, d.c.y) != (node.x, node.y) {
                (d, Outcome::Failed(AbortReason::PreconditionFailed))
            } else if node.quantity.le(num(TRACE)) {
                (d, Outcome::Failed(AbortReason::TargetDepleted))
            } else if !carry_room(d.c, &s.cfg) {
                (d, Outcome::Failed(AbortReason::Encumbered))
            } else {
                let (_, item, word) = craft_spec(kind, &s.cfg, s.night);
                let take = haul(d.c, kind, node.quantity, s);
                let left = node.quantity - take;
                let e = Deed {
                    c: CreatureV { pack: with_added(d.c.pack, item, take, s.tick), ..d.c },
                    step: StepV { progress: d.step.progress + take, ..d.step },
                    nodes: d.nodes.update(i as int, ResourceNode { quantity: left, ..node }),
                    gathered: d.gathered + take,
                    ..d
                };
                let bare = left.le(num(TRACE));
                if bare || !carry_room(e.c, &s.cfg) || d.step.elapsed >= d.step.est_ticks {
                    let told = d.here(word, s.tick).with("kind"@, item.text()).with_num(
                        "qty"@,
                        e.step.progress,
                    ).with(
                        "left"@,
                        if bare {
                            "none"@
                        } else {
                            "some"@
                        },
                    );
                    (e.noted(told), Outcome::StepComplete)
                } else {
                    (e, Outcome::Working)
                }
            }
        },
        _ => (d, Outcome::Failed(AbortReason::TargetGone)),
    }
}

fn harvest_node(c: &mut Creature, step: &mut Step, ctx: &mut ActionCtx, kind: NodeKind) -> (out: Outcome)
    requires
        old(ctx).wf(),
        kind != NodeKind::Sheep,
    ensures
        (deed_of(final(c), final(step), final(ctx)), out) == harvested(
            deed_of(old(c), old(step), old(ctx)),
            setting_of(old(ctx)),
            kind,
        ),
        final(ctx).same_setting(old(ctx)),
        final(ctx).grown_from(old(ctx)),
        final(c).x == old(c).x,
        final(c).y == old(c).y,
        final(c).plan == old(c).plan,
        final(c).id == old(c).id,
        final(c).birth_tick == old(c).birth_tick,
        final(step).path == old(step).path,
{
    let Target::Node(i) = step.target else {
        return Outcome::Failed(AbortReason::TargetGone);
    };
    let i = i as usize;
    if i >= ctx.world.nodes.len() {
        return Outcome::Failed(AbortReason::TargetGone);
    }
    let node = ctx.world.nodes[i];
    if node.kind != kind {
        return Outcome::Failed(AbortReason::TargetGone);
    }
    if !(c.x == node.x && c.y == node.y) {
        return Outcome::Failed(AbortReason::PreconditionFailed);
    }
    // The creature walked here on what it believed and found the place stripped.
    if node.quantity.le(num(TRACE)) {
        return Outcome::Failed(AbortReason::TargetDepleted);
    }
    if !has_carry_room(c, &ctx.cfg) {
        return Outcome::Failed(AbortReason::Encumbered);
    }
    let (rate, item, word) = craft(kind, &ctx.cfg, ctx.night);
    let room = c.carry_capacity(&ctx.cfg) - c.inventory.weight();
    let take = (rate * c.life_stage.work_rate()).min(node.quantity).min(room).max(num(NOTHING));
    let left = node.quantity - take;
    ctx.world.nodes.set(
        i,
        ResourceNode {
            kind: node.kind,
            x: node.x,
            y: node.y,
            quantity: left,
            max_quantity: node.max_quantity,
            regen_rate: node.regen_rate,
        },
    );
    c.inventory.add(item, take, ctx.tick);
    ctx.gathered = ctx.gathered + take;
    step.progress = step.progress + take;
    let bare = left.le(num(TRACE));
    if bare || !has_carry_room(c, &ctx.cfg) || step.elapsed >= step.est_ticks {
        let rest = if bare {
            "none"
        } else {
            "some"
        };
        let e = Event::new(ctx.tick, word, c.id).at(c.x, c.y).with("kind", item.as_str()).with_num(
            "qty",
            step.progress,
        ).with("left", rest);
        note(ctx, e);
        return Outcome::StepComplete;
    }
    Outcome::Working
}

/// Killing a sheep for more meat than one creature can keep: what does not fit
/// the pack is wasted, and said to be.
pub open spec fn slaughtered(d: Deed, s: Setting) -> (Deed, Outcome) {
    match d.step.target {
        Target::Node(i) => {
            let node = d.nodes[i as int];
            if i >= d.nodes.len() {
                (d, Outcome::Failed(AbortReason::TargetGone))
            } else if node.kind != NodeKind::Sheep || node.quantity.le(num(NOTHING)) {
                (d, Outcome::Failed(AbortReason::TargetDepleted))
            } else if !near(node.x, node.y, d.c.x, d.c.y, 1) {
                (d, Outcome::Failed(AbortReason::PreconditionFailed))
            } else {
                let yielded = s.cfg.actions.slaughter_yield;
                let room = (d.c.carry_capacity(&s.cfg) - weight_of(d.c.pack)).max(num(NOTHING));
                let kept = yielded.min(room);
                let e = Deed {
                    c: CreatureV { pack: with_added(d.c.pack, ItemKind::Meat, kept, s.tick), ..d.c },
                    nodes: d.nodes.update(i as int, ResourceNode { quantity: num(NOTHING), ..node }),
                    gathered: d.gathered + kept,
                    ..d
                };
                let told = d.here(EventKind::Slaughtered, s.tick).with_num("meat"@, kept).with_num(
                    "wasted"@,
                    yielded - kept,
                );
                (e.noted(told), Outcome::StepComplete)
            }
        },
        _ => (d, Outcome::Failed(AbortReason::TargetGone)),
    }
}

fn slaughter(c: &mut Creature, step: &Step, ctx: &mut ActionCtx) -> (out: Outcome)
    requires
        old(ctx).wf(),
    ensures
        (deed_of(final(c), step, final(ctx)), out) == slaughtered(deed_of(old(c), step, old(ctx)), setting_of(old(ctx))),
        final(ctx).same_setting(old(ctx)),
        final(ctx).grown_from(old(ctx)),
        final(c).x == old(c).x,
        final(c).y == old(c).y,
        final(c).plan == old(c).plan,
        final(c).id == old(c).id,
        final(c).birth_tick == old(c).birth_tick,
{
    let Target::Node(i) = step.target else {
        return Outcome::Failed(AbortReason::TargetGone);
    };
    let i = i as usize;
    if i >= ctx.world.nodes.len() {
        return Outcome::Failed(AbortReason::TargetGone);
    }
    let node = ctx.world.nodes[i];
    if node.kind != NodeKind::Sheep || node.quantity.le(num(NOTHING)) {
        return Outcome::Failed(AbortReason::TargetDepleted);
    }
    if !near(node.x, node.y, c.x, c.y, 1) {
        return Outcome::Failed(AbortReason::PreconditionFailed);
    }
    ctx.world.nodes.set(
        i,
        ResourceNode {
            kind: node.kind,
            x: node.x,
            y: node.y,
            quantity: num(NOTHING),
            max_quantity: node.max_quantity,
            regen_rate: node.regen_rate,
        },
    );
    let yielded = ctx.cfg.actions.slaughter_yield;
    let room = (c.carry_capacity(&ctx.cfg) - c.inventory.weight()).max(num(NOTHING));
    let kept = yielded.min(room);
    c.inventory.add(ItemKind::Meat, kept, ctx.tick);
    ctx.gathered = ctx.gathered + kept;
    let e = Event::new(ctx.tick, EventKind::Slaughtered, c.id).at(c.x, c.y).with_num("meat", kept).with_num(
        "wasted",
        yielded - kept,
    );
    note(ctx, e);
    Outcome::StepComplete
}

pub open spec fn is_wheat_on(x: u32, y: u32) -> spec_fn(ResourceNode) -> bool {
    |n: ResourceNode| wheat_on(n, x, y)
}

/// A crop just planted: nothing yet, and growing to full in the time it takes.
pub open spec fn seedling(x: u32, y: u32, cfg: &WorldConfig) -> ResourceNode {
    ResourceNode {
        kind: NodeKind::Wheat,
        x,
        y,
        quantity: num(NOTHING),
        max_quantity: num(WHEAT_FULL),
        regen_rate: num(WHEAT_FULL) / of_int(
            if cfg.resources.wheat_growth_ticks > 1 {
                cfg.resources.wheat_growth_ticks as int
            } else {
                1
            },
        ),
    }
}

/// A crop planted where wheat stood before takes its place.
pub open spec fn sown(nodes: Seq<ResourceNode>, n: ResourceNode) -> Seq<ResourceNode> {
    let k = first_where(nodes, is_wheat_on(n.x, n.y));
    if k < nodes.len() {
        nodes.update(k, n)
    } else {
        nodes.push(n)
    }
}

/// Planting a crop, once the work has gone on long enough.
pub open spec fn planted(d: Deed, s: Setting) -> (Deed, Outcome) {
    match d.step.target.tile_in(d.nodes) {
        None => (d, Outcome::Failed(AbortReason::TargetGone)),
        Some(at) => if (d.c.x, d.c.y) != at || s.ground.tile(at.0 as int, at.1 as int) != Terrain::Soil {
            (d, Outcome::Failed(AbortReason::PreconditionFailed))
        } else if d.step.elapsed < s.cfg.actions.plant_ticks {
            (d, Outcome::Working)
        } else {
            let e = Deed { nodes: sown(d.nodes, seedling(at.0, at.1, &s.cfg)), ..d };
            (e.noted(d.here(EventKind::Planted, s.tick)), Outcome::StepComplete)
        },
    }
}

fn plant(c: &mut Creature, step: &Step, ctx: &mut ActionCtx) -> (out: Outcome)
    requires
        old(ctx).wf(),
        old(ctx).world.inside(old(c).x as int, old(c).y as int),
    ensures
        (deed_of(final(c), step, final(ctx)), out) == planted(deed_of(old(c), step, old(ctx)), setting_of(old(ctx))),
        final(ctx).same_setting(old(ctx)),
        final(ctx).grown_from(old(ctx)),
        final(c).x == old(c).x,
        final(c).y == old(c).y,
        final(c).plan == old(c).plan,
        final(c).id == old(c).id,
        final(c).birth_tick == old(c).birth_tick,
{
    let Some((x, y)) = step.target.tile(&ctx.world) else {
        return Outcome::Failed(AbortReason::TargetGone);
    };
    proof {
        lemma_tile_index(ctx.world.width, ctx.world.height, c.x as int, c.y as int);
    }
    if !(c.x == x && c.y == y) || ctx.world.at(x, y) != Terrain::Soil {
        return Outcome::Failed(AbortReason::PreconditionFailed);
    }
    if step.elapsed < ctx.cfg.actions.plant_ticks {
        return Outcome::Working;
    }
    let ticks = if ctx.cfg.resources.wheat_growth_ticks > 1 {
        ctx.cfg.resources.wheat_growth_ticks
    } else {
        1
    };
    let node = ResourceNode {
        kind: NodeKind::Wheat,
        x,
        y,
        quantity: num(NOTHING),
        max_quantity: num(WHEAT_FULL),
        regen_rate: num(WHEAT_FULL) / Num::from_u64(ticks as u64),
    };
    let ghost nodes = ctx.world.nodes@;
    let ghost p = is_wheat_on(x, y);
    let mut k: usize = 0;
    while k < ctx.world.nodes.len() && !(ctx.world.nodes[k].kind == NodeKind::Wheat && ctx.world.nodes[k].x == x
        && ctx.world.nodes[k].y == y)
        invariant
            k <= nodes.len(),
            nodes == ctx.world.nodes@,
            p == is_wheat_on(x, y),
            forall|j: int| 0 <= j < k ==> !p(#[trigger] nodes[j]),
        decreases nodes.len() - k,
    {
        k = k + 1;
    }
    proof {
        lemma_first_where_is(nodes, p, k as int);
    }
    if k < ctx.world.nodes.len() {
        ctx.world.nodes.set(k, node);
    } else {
        ctx.world.nodes.push(node);
    }
    note(ctx, Event::new(ctx.tick, EventKind::Planted, c.id).at(x, y));
    Outcome::StepComplete
}

/// Tending brings the harvest forward rather than raising the ceiling.
pub open spec fn tended(d: Deed, s: Setting) -> (Deed, Outcome) {
    match d.step.target {
        Target::Node(i) => {
            let node = d.nodes[i as int];
            if i >= d.nodes.len() || node.kind != NodeKind::Wheat {
                (d, Outcome::Failed(AbortReason::TargetGone))
            } else if !near(node.x, node.y, d.c.x, d.c.y, 1) {
                (d, Outcome::Failed(AbortReason::PreconditionFailed))
            } else {
                let quantity = (node.quantity + node.regen_rate * num(TWO)).min(node.max_quantity);
                let e = Deed { nodes: d.nodes.update(i as int, ResourceNode { quantity, ..node }), ..d };
                if d.step.elapsed >= s.cfg.actions.tend_ticks {
                    (
                        e.noted(event_of(s.tick, EventKind::Tended, d.c.id).at(node.x, node.y)),
                        Outcome::StepComplete,
                    )
                } else {
                    (e, Outcome::Working)
                }
            }
        },
        _ => (d, Outcome::Failed(AbortReason::TargetGone)),
    }
}

fn tend(c: &mut Creature, step: &Step, ctx: &mut ActionCtx) -> (out: Outcome)
    requires
        old(ctx).wf(),
    ensures
        (deed_of(final(c), step, final(ctx)), out) == tended(deed_of(old(c), step, old(ctx)), setting_of(old(ctx))),
        final(ctx).same_setting(old(ctx)),
        final(ctx).grown_from(old(ctx)),
        final(c).x == old(c).x,
        final(c).y == old(c).y,
        final(c).plan == old(c).plan,
        final(c).id == old(c).id,
        final(c).birth_tick == old(c).birth_tick,
{
    let Target::Node(i) = step.target else {
        return Outcome::Failed(AbortReason::TargetGone);
    };
    let i = i as usize;
    if i >= ctx.world.nodes.len() {
        return Outcome::Failed(AbortReason::TargetGone);
    }
    let node = ctx.world.nodes[i];
    if node.kind != NodeKind::Wheat {
        return Outcome::Failed(AbortReason::TargetGone);
    }
    if !near(node.x, node.y, c.x, c.y, 1) {
        return Outcome::Failed(AbortReason::PreconditionFailed);
    }
    ctx.world.nodes.set(
        i,
        ResourceNode {
            kind: node.kind,
            x: node.x,
            y: node.y,
            quantity: (node.quantity + node.regen_rate * num(TWO)).min(node.max_quantity),
            max_quantity: node.max_quantity,
            regen_rate: node.regen_rate,
        },
    );
    if step.elapsed >= ctx.cfg.actions.tend_ticks {
        note(ctx, Event::new(ctx.tick, EventKind::Tended, c.id).at(node.x, node.y));
        return Outcome::StepComplete;
    }
    Outcome::Working
}

/// A shelter just raised.
pub open spec fn shelter_of(id: i64, x: u32, y: u32, capacity: u32, tick: i64) -> Structure {
    Structure {
        id,
        kind: StructureKind::Shelter,
        x,
        y,
        condition: num(ONE),
        capacity,
        occupants: 0,
        household_id: None,
        built_tick: tick,
        fuel_remaining: num(NOTHING),
        lit_until_tick: None,
        dirty: true,
    }
}

/// Raising a shelter: it takes time, and then timber.
pub open spec fn shelter_built(d: Deed, s: Setting) -> (Deed, Outcome) {
    let cost = s.cfg.actions.shelter_wood_cost;
    match d.step.target.tile_in(d.nodes) {
        None => (d, Outcome::Failed(AbortReason::TargetGone)),
        Some(at) => if (d.c.x, d.c.y) != at || total_of(d.c.pack, ItemKind::Wood).lt(cost) {
            (d, Outcome::Failed(AbortReason::PreconditionFailed))
        } else if d.step.elapsed < s.cfg.actions.shelter_build_ticks {
            (d, Outcome::Working)
        } else {
            let (pack, spent) = with_taken(d.c.pack, ItemKind::Wood, cost);
            let e = Deed {
                c: CreatureV { pack, ..d.c },
                structures: d.structures.push(
                    shelter_of(d.next_id, at.0, at.1, s.cfg.actions.shelter_capacity, s.tick),
                ),
                next_id: (d.next_id + 1) as i64,
                ..d
            };
            (
                e.noted(d.here(EventKind::ShelterBuilt, s.tick).target(d.next_id).with_num("wood"@, spent)),
                Outcome::StepComplete,
            )
        },
    }
}

fn build_shelter(c: &mut Creature, step: &Step, ctx: &mut ActionCtx) -> (out: Outcome)
    requires
        old(ctx).wf(),
    ensures
        (deed_of(final(c), step, final(ctx)), out) == shelter_built(deed_of(old(c), step, old(ctx)), setting_of(old(ctx))),
        final(ctx).same_setting(old(ctx)),
        final(ctx).grown_from(old(ctx)),
        final(c).x == old(c).x,
        final(c).y == old(c).y,
        final(c).plan == old(c).plan,
        final(c).id == old(c).id,
        final(c).birth_tick == old(c).birth_tick,
{
    let Some((x, y)) = step.target.tile(&ctx.world) else {
        return Outcome::Failed(AbortReason::TargetGone);
    };
    if !(c.x == x && c.y == y) {
        return Outcome::Failed(AbortReason::PreconditionFailed);
    }
    let cost = ctx.cfg.actions.shelter_wood_cost;
    if c.inventory.total(ItemKind::Wood).lt(cost) {
        return Outcome::Failed(AbortReason::PreconditionFailed);
    }
    if step.elapsed < ctx.cfg.actions.shelter_build_ticks {
        return Outcome::Working;
    }
    let spent = c.inventory.take(ItemKind::Wood, cost);
    let id = ctx.structures.add(
        Structure {
            id: 0,
            kind: StructureKind::Shelter,
            x,
            y,
            condition: num(ONE),
            capacity: ctx.cfg.actions.shelter_capacity,
            occupants: 0,
            household_id: None,
            built_tick: ctx.tick,
            fuel_remaining: num(NOTHING),
            lit_until_tick: None,
            dirty: true,
        },
    );
    note(ctx, Event::new(ctx.tick, EventKind::ShelterBuilt, c.id).at(x, y).target(id).with_num("wood", spent));
    Outcome::StepComplete
}

/// Mending a shelter with the wood at hand. The wood is spent even where the
/// shelter turns out to be gone.
pub open spec fn shelter_repaired(d: Deed, s: Setting) -> (Deed, Outcome) {
    match d.step.target {
        Target::Structure(id) => {
            let (pack, wood) = with_taken(d.c.pack, ItemKind::Wood, num(TWO));
            let e = Deed { c: CreatureV { pack, ..d.c }, ..d };
            let i = structure_at(d.structures, id);
            if wood.le(num(NOTHING)) {
                (e, Outcome::Failed(AbortReason::PreconditionFailed))
            } else if i >= d.structures.len() {
                (e, Outcome::Failed(AbortReason::TargetGone))
            } else {
                let f = d.structures[i];
                let condition = (f.condition + wood * num(REPAIR_PER_WOOD)).min(num(ONE));
                let g = Deed {
                    structures: d.structures.update(i, Structure { condition, dirty: true, ..f }),
                    ..e
                };
                (
                    g.noted(event_of(s.tick, EventKind::ShelterRepaired, d.c.id).at(f.x, f.y).target(id)),
                    Outcome::StepComplete,
                )
            }
        },
        _ => (d, Outcome::Failed(AbortReason::TargetGone)),
    }
}

fn repair_shelter(c: &mut Creature, step: &Step, ctx: &mut ActionCtx) -> (out: Outcome)
    requires
        old(ctx).wf(),
    ensures
        (deed_of(final(c), step, final(ctx)), out) == shelter_repaired(deed_of(old(c), step, old(ctx)), setting_of(old(ctx))),
        final(ctx).same_setting(old(ctx)),
        final(ctx).grown_from(old(ctx)),
        final(c).x == old(c).x,
        final(c).y == old(c).y,
        final(c).plan == old(c).plan,
        final(c).id == old(c).id,
        final(c).birth_tick == old(c).birth_tick,
{
    let Target::Structure(id) = step.target else {
        return Outcome::Failed(AbortReason::TargetGone);
    };
    let wood = c.inventory.take(ItemKind::Wood, num(TWO));
    if wood.le(num(NOTHING)) {
        return Outcome::Failed(AbortReason::PreconditionFailed);
    }
    let i = ctx.structures.position(id);
    if i >= ctx.structures.items.len() {
        return Outcome::Failed(AbortReason::TargetGone);
    }
    let mut s = ctx.structures.items[i];
    s.condition = (s.condition + wood * num(REPAIR_PER_WOOD)).min(num(ONE));
    s.dirty = true;
    ctx.structures.items.set(i, s);
    note(ctx, Event::new(ctx.tick, EventKind::ShelterRepaired, c.id).at(s.x, s.y).target(id));
    Outcome::StepComplete
}

/// How bad a mishap is. Heavy-tailed: most are a bruise and a lost afternoon, a
/// few are an axe through a foot.
pub open spec fn severity(roll: Num) -> Num {
    num(LEAST_INJURY) + roll * roll * roll * num(INJURY_SPAN)
}

/// Rare misfortune while doing dangerous work. Injury costs health rather than
/// killing outright, so an accident is usually survivable and occasionally not: if
/// health runs out soon afterwards, it is what the creature died of.
pub open spec fn risked(d: Deed, s: Setting) -> Deed {
    let after = d.rng.stepped();
    if d.rng.unit_here().ge(s.cfg.hazards.accident_per_tick) {
        Deed { rng: after, ..d }
    } else {
        let hurt = severity(after.unit_here());
        let e = Deed {
            c: CreatureV {
                health: (d.c.health - hurt).max(num(NOTHING)),
                trauma: Some((DeathCause::Accident, s.tick)),
                ..d.c
            },
            rng: after.stepped(),
            ..d
        };
        e.noted(d.here(EventKind::Injured, s.tick).with_num("severity"@, hurt))
    }
}

fn maybe_injure(c: &mut Creature, step: &Step, ctx: &mut ActionCtx)
    requires
        is_map(old(ctx).world.ground()),
        old(ctx).pathfinder.wf(),
        old(ctx).pathfinder.fits(old(ctx).world.ground()),
        old(ctx).pathfinder.cache_serves(old(ctx).world.ground()),
    ensures
        deed_of(final(c), step, final(ctx)) == risked(deed_of(old(c), step, old(ctx)), setting_of(old(ctx))),
        final(ctx).same_setting(old(ctx)),
        final(ctx).grown_from(old(ctx)),
        final(c).x == old(c).x,
        final(c).y == old(c).y,
        final(c).plan == old(c).plan,
        final(c).id == old(c).id,
        final(c).birth_tick == old(c).birth_tick,
{
    if ctx.rng.unit().ge(ctx.cfg.hazards.accident_per_tick) {
        return ;
    }
    let roll = ctx.rng.unit();
    let hurt = num(LEAST_INJURY) + roll * roll * roll * num(INJURY_SPAN);
    c.health = (c.health - hurt).max(num(NOTHING));
    c.trauma = Some((DeathCause::Accident, ctx.tick));
    note(ctx, Event::new(ctx.tick, EventKind::Injured, c.id).at(c.x, c.y).with_num("severity", hurt));
}

/// Goals that are pursued standing still.
pub open spec fn stays_put(goal: Goal) -> bool {
    goal == Goal::Rest || goal == Goal::Shelter || goal == Goal::EatFromInventory
}

/// What one tick of a goal does, before any mishap.
#[verifier::opaque]
pub open spec fn pursued(d: Deed, s: Setting) -> (Deed, Outcome) {
    match d.step.goal {
        Goal::MoveTo | Goal::Explore | Goal::Verify => moved_on(d, s),
        Goal::Drink => drunk(d, s),
        Goal::EatFromInventory => fed(d, s),
        Goal::Rest => rested(d, s),
        Goal::Shelter => sheltered(d, s),
        Goal::BuildFire => fire_built(d, s),
        Goal::FeedFire => fire_fed(d, s),
        Goal::GatherForage => harvested(d, s, NodeKind::Forage),
        Goal::ChopWood => harvested(d, s, NodeKind::Wood),
        Goal::HarvestWheat => harvested(d, s, NodeKind::Wheat),
        Goal::SlaughterSheep => slaughtered(d, s),
        Goal::PlantWheat => planted(d, s),
        Goal::TendCrop => tended(d, s),
        Goal::BuildShelter => shelter_built(d, s),
        Goal::RepairShelter => shelter_repaired(d, s),
    }
}

/// One tick of a step.
#[verifier::opaque]
pub open spec fn executed(d: Deed, s: Setting) -> (Deed, Outcome) {
    let begun = Deed { step: StepV { elapsed: one_more(d.step.elapsed), ..d.step }, ..d };
    let freed = if stays_put(d.step.goal) {
        begun
    } else {
        released(begun)
    };
    let (e, out) = pursued(freed, s);
    (
        if d.step.goal.is_hazardous() && !(out is Failed) {
            risked(e, s)
        } else {
            e
        },
        out,
    )
}

/// Turns to whatever the step is about.
#[verifier::rlimit(40)]
fn pursue(c: &mut Creature, step: &mut Step, ctx: &mut ActionCtx) -> (out: Outcome)
    requires
        old(ctx).wf(),
        on_map(old(ctx).world.ground(), old(c)@, old(step)@),
    ensures
        (deed_of(final(c), final(step), final(ctx)), out) == pursued(
            deed_of(old(c), old(step), old(ctx)),
            setting_of(old(ctx)),
        ),
        final(ctx).same_setting(old(ctx)),
        final(ctx).grown_from(old(ctx)),
        on_map(final(ctx).world.ground(), final(c)@, final(step)@),
        final(c).plan == old(c).plan,
        final(c).id == old(c).id,
        final(c).birth_tick == old(c).birth_tick,
        final(step).goal == old(step).goal,
{
    proof {
        reveal(pursued);
    }
    match step.goal {
        Goal::MoveTo | Goal::Explore | Goal::Verify => advance_move(c, step, ctx),
        Goal::Drink => drink(c, step, ctx),
        Goal::EatFromInventory => eat(c, step, ctx),
        Goal::Rest => rest(c, step, ctx),
        Goal::Shelter => shelter(c, step, ctx),
        Goal::BuildFire => build_fire(c, step, ctx),
        Goal::FeedFire => feed_fire(c, step, ctx),
        Goal::GatherForage => harvest_node(c, step, ctx, NodeKind::Forage),
        Goal::ChopWood => harvest_node(c, step, ctx, NodeKind::Wood),
        Goal::HarvestWheat => harvest_node(c, step, ctx, NodeKind::Wheat),
        Goal::SlaughterSheep => slaughter(c, step, ctx),
        Goal::PlantWheat => plant(c, step, ctx),
        Goal::TendCrop => tend(c, step, ctx),
        Goal::BuildShelter => build_shelter(c, step, ctx),
        Goal::RepairShelter => repair_shelter(c, step, ctx),
    }
}

/// Advances one tick of the creature's current step.
pub fn execute(c: &mut Creature, step: &mut Step, ctx: &mut ActionCtx) -> (out: Outcome)
    requires
        old(ctx).wf(),
        on_map(old(ctx).world.ground(), old(c)@, old(step)@),
    ensures
        (deed_of(final(c), final(step), final(ctx)), out) == executed(
            deed_of(old(c), old(step), old(ctx)),
            setting_of(old(ctx)),
        ),
        final(ctx).same_setting(old(ctx)),
        final(ctx).grown_from(old(ctx)),
        on_map(final(ctx).world.ground(), final(c)@, final(step)@),
        final(c).plan == old(c).plan,
        final(c).id == old(c).id,
        final(c).birth_tick == old(c).birth_tick,
{
    proof {
        reveal(executed);
    }
    let ghost d = deed_of(c, step, ctx);
    let ghost s = setting_of(ctx);
    step.elapsed = count_one(step.elapsed);
    if !matches!(step.goal, Goal::Rest | Goal::Shelter | Goal::EatFromInventory) {
        release_shelter(c, &mut ctx.structures);
    }
    let ghost freed = deed_of(c, step, ctx);
    proof {
        let begun = Deed { step: StepV { elapsed: one_more(d.step.elapsed), ..d.step }, ..d };
        assert(freed == if stays_put(d.step.goal) {
            begun
        } else {
            released(begun)
        });
    }
    let out = pursue(c, step, ctx);
    if step.goal.is_hazardous() && matches!(out, Outcome::Working | Outcome::StepComplete) {
        maybe_injure(c, step, ctx);
    }
    out
}

/// Infants are offered nothing but eating, resting, shelter and following.
pub proof fn law_infants_do_not_work(
    c: CreatureV,
    goal: Goal,
    target: Target,
    g: Ground,
    nodes: Seq<ResourceNode>,
    structures: Seq<Structure>,
    cfg: &WorldConfig,
)
    requires
        c.life_stage == crate::creature::LifeStage::Infant,
        legal(c, goal, target, g, nodes, structures, cfg),
    ensures
        stays_put(goal) || goal == Goal::MoveTo,
{
}

/// What is switched off for a run is never legal in it.
pub proof fn law_switched_off_work_is_not_offered(
    c: CreatureV,
    goal: Goal,
    target: Target,
    g: Ground,
    nodes: Seq<ResourceNode>,
    structures: Seq<Structure>,
    cfg: &WorldConfig,
)
    requires
        legal(c, goal, target, g, nodes, structures, cfg),
    ensures
        !cfg.features.wheat ==> goal != Goal::HarvestWheat && goal != Goal::PlantWheat && goal != Goal::TendCrop,
        !cfg.features.sheep ==> goal != Goal::SlaughterSheep,
        !cfg.features.fires ==> goal != Goal::BuildFire && goal != Goal::FeedFire,
{
}

/// Work at a node moves exactly as much into the pack as it takes from the node,
/// and a node is never worked by somebody standing elsewhere.
pub proof fn law_gathering_moves_what_it_takes(d: Deed, s: Setting, kind: NodeKind)
    requires
        !(harvested(d, s, kind).1 is Failed),
    ensures
        d.step.target matches Target::Node(i) && i < d.nodes.len() && {
            let node = d.nodes[i as int];
            let take = haul(d.c, kind, node.quantity, s);
            let e = harvested(d, s, kind).0;
            &&& (node.x, node.y) == (d.c.x, d.c.y)
            &&& e.nodes[i as int].quantity == node.quantity - take
            &&& e.c.pack == with_added(d.c.pack, craft_spec(kind, &s.cfg, s.night).1, take, s.tick)
            &&& forall|k: int| 0 <= k < d.nodes.len() && k != i ==> #[trigger] e.nodes[k] == d.nodes[k]
        },
{
}

} // verus!
