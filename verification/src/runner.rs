//! Running a world: what a command does, when the next tick is due, and what is
//! handed to whoever watches.

use crate::creature::{food_of, Creature, DeathCause, LifeStage};
use crate::death::Deaths;
use crate::detail::{detail_for, detail_of, CreatureDetail};
use crate::display::{
    brightest_known, census_of, collect_ticker, collective_map, creature_dots, dotting, is_expecting, is_of_stage,
    is_spoken_for, law_the_census_counts, news_after, news_of, shows, structure_dots, take_census, CreatureDot,
    StructureDot, TickerLine, TickerV, COVER_CELL,
};
use crate::economy::{day_of, hour_of, is_night, Structure, StructureKind};
use crate::event::{log_of, Event, EventV};
use crate::lists::count_where;
use crate::num::{num, of_int, Num, NOTHING, ONE};
use crate::pace::SpeedMode;
use crate::records::{swell, swelled, LlmStats, PhaseTimings, Tally, TickReport};
use crate::social::{homes_of, Household, HouseholdV};
use crate::tick::Sim;
use crate::town::{is_here, place_of};
use crate::world::{codes_of, div_ceil, groups, Founder, ResourceNode, World};
use vstd::prelude::*;
use vstd::string::*;

verus! {

/// 0.001
pub const SHORTEST_TICK: u32 = 0x3A83_126F;

/// 1000.0
pub const THOUSAND: u32 = 0x447A_0000;

/// 1000000.0
pub const MILLION: u32 = 0x4974_2400;

/// How many of the latest ticks their mean length is taken over.
pub const RECENT_TICKS: usize = 64;

/// The least time between two pictures, in nanoseconds.
pub const PICTURE_GAP: u64 = 66_000_000;

/// The time after which the resources are handed out again, in nanoseconds.
pub const NODES_GAP: u64 = 900_000_000;

/// What somebody watching may ask for.
#[derive(Debug, Clone, Copy, PartialEq, Eq, Structural)]
pub enum SimCommand {
    Play,
    Pause,
    /// Advance exactly so many ticks, then pause.
    Step(u32),
    SetMode(SpeedMode),
    Select(Option<i64>),
    Regenerate { seed: i64, creatures: u32 },
    /// Store everything and stop.
    Shutdown,
}

/// What a command asks of whoever runs the world.
#[derive(Debug, Clone, Copy, PartialEq, Eq, Structural)]
pub enum Effect {
    Carry,
    /// Store everything now: pausing is a natural checkpoint.
    Flush,
    /// Show the world as it stands.
    Show,
    Regenerate { seed: i64, creatures: u32 },
    Stop,
}

/// Whether a world runs, and how.
#[derive(Debug, Clone, Copy, PartialEq, Eq, Structural)]
pub struct Controls {
    pub running: bool,
    pub mode: SpeedMode,
    pub steps_left: u32,
    pub selected: Option<i64>,
}

impl Controls {
    /// A world that is opened to be watched is running.
    pub open spec fn fresh() -> Controls {
        Controls { running: true, mode: SpeedMode::Observe, steps_left: 0, selected: None }
    }

    pub fn new() -> (r: Self)
        ensures
            r == Controls::fresh(),
    {
        Controls { running: true, mode: SpeedMode::Observe, steps_left: 0, selected: None }
    }

    pub open spec fn told(self, cmd: SimCommand) -> Controls {
        match cmd {
            SimCommand::Play => Controls { running: true, ..self },
            SimCommand::Pause => Controls { running: false, steps_left: 0, ..self },
            SimCommand::Step(n) => Controls {
                running: false,
                steps_left: if n < 1 {
                    1
                } else {
                    n
                },
                ..self
            },
            SimCommand::SetMode(mode) => Controls { mode, ..self },
            SimCommand::Select(id) => Controls { selected: id, ..self },
            SimCommand::Regenerate { .. } => self,
            SimCommand::Shutdown => self,
        }
    }

    pub open spec fn asked_by(cmd: SimCommand) -> Effect {
        match cmd {
            SimCommand::Pause => Effect::Flush,
            SimCommand::Select(_) => Effect::Show,
            SimCommand::Regenerate { seed, creatures } => Effect::Regenerate { seed, creatures },
            SimCommand::Shutdown => Effect::Stop,
            _ => Effect::Carry,
        }
    }

    pub fn apply(&mut self, cmd: SimCommand) -> (r: Effect)
        ensures
            *final(self) == old(self).told(cmd),
            r == Controls::asked_by(cmd),
    {
        match cmd {
            SimCommand::Play => {
                self.running = true;
                Effect::Carry
            },
            SimCommand::Pause => {
                self.running = false;
                self.steps_left = 0;
                Effect::Flush
            },
            SimCommand::Step(n) => {
                self.steps_left = if n < 1 {
                    1
                } else {
                    n
                };
                self.running = false;
                Effect::Carry
            },
            SimCommand::SetMode(mode) => {
                self.mode = mode;
                Effect::Carry
            },
            SimCommand::Select(id) => {
                self.selected = id;
                Effect::Show
            },
            SimCommand::Regenerate { seed, creatures } => Effect::Regenerate { seed, creatures },
            SimCommand::Shutdown => Effect::Stop,
        }
    }

    pub open spec fn moves(self) -> bool {
        self.steps_left > 0 || self.running
    }

    /// Whether the next tick is to be run.
    pub fn should_tick(&self) -> (r: bool)
        ensures
            r == self.moves(),
    {
        self.steps_left > 0 || self.running
    }

    pub open spec fn ticked(self) -> Controls {
        if self.steps_left > 1 {
            Controls { steps_left: (self.steps_left - 1) as u32, ..self }
        } else if self.steps_left == 1 {
            Controls { steps_left: 0, running: false, ..self }
        } else {
            self
        }
    }

    /// Counts a tick against the steps that were asked for.
    pub fn after_tick(&mut self)
        ensures
            *final(self) == old(self).ticked(),
    {
        if self.steps_left > 0 {
            self.steps_left = self.steps_left - 1;
            if self.steps_left == 0 {
                self.running = false;
            }
        }
    }

    /// The controls after so many ticks without a command.
    pub open spec fn after(self, n: nat) -> Controls
        decreases n,
    {
        if n == 0 {
            self
        } else {
            self.after((n - 1) as nat).ticked()
        }
    }
}

proof fn lemma_steps_count_down(c: Controls, k: nat)
    requires
        k < c.steps_left,
    ensures
        c.after(k) == (Controls { steps_left: (c.steps_left - k) as u32, ..c }),
    decreases k,
{
    if k > 0 {
        lemma_steps_count_down(c, (k - 1) as nat);
    }
}

/// Asked for so many steps, a world makes exactly that many ticks, at least one,
/// and is then paused.
pub proof fn law_a_step_runs_exactly(c: Controls, n: u32)
    ensures
        ({
            let told = c.told(SimCommand::Step(n));
            let ticks: nat = if n < 1 {
                1
            } else {
                n as nat
            };
            &&& forall|k: nat| k < ticks ==> (#[trigger] told.after(k)).moves()
            &&& !told.after(ticks).moves()
            &&& !told.after(ticks).running
        }),
{
    let told = c.told(SimCommand::Step(n));
    let ticks = told.steps_left as nat;
    assert forall|k: nat| k < ticks implies (#[trigger] told.after(k)).moves() by {
        lemma_steps_count_down(told, k);
    }
    lemma_steps_count_down(told, (ticks - 1) as nat);
}

/// A paused world stays as it is until it is told otherwise.
pub proof fn law_a_pause_holds(c: Controls, n: nat)
    ensures
        !c.told(SimCommand::Pause).after(n).moves(),
        c.told(SimCommand::Pause).after(n) == c.told(SimCommand::Pause),
    decreases n,
{
    if n > 0 {
        law_a_pause_holds(c, (n - 1) as nat);
    }
}

/// Whether the world is to be shown, so long after it was last.
pub fn picture_due(force: bool, since: u64) -> (r: bool)
    ensures
        r == (force || since >= PICTURE_GAP),
{
    force || since >= PICTURE_GAP
}

/// Whether the resources are to be handed out again, so long after they last were.
pub fn nodes_due(since: u64) -> (r: bool)
    ensures
        r == (since > NODES_GAP),
{
    since > NODES_GAP
}

/// How long to wait after a tick that took so many nanoseconds.
pub fn rest_after(mode: SpeedMode, deliberating: bool, elapsed: u64) -> (r: Option<u64>)
    ensures
        r == match mode.interval(deliberating) {
            Some(ms) => if ms * 1_000_000 >= elapsed {
                Some((ms * 1_000_000 - elapsed) as u64)
            } else {
                None
            },
            None => None,
        },
{
    match mode.tick_interval(deliberating) {
        Some(ms) => {
            let interval: u64 = ms * 1_000_000;
            if interval >= elapsed {
                Some(interval - elapsed)
            } else {
                None
            }
        },
        None => None,
    }
}

/// How many ticks pass in a second: whether a deliberation is worth asking for
/// depends on it. A tick takes as long as it took, or as long as it is paced to.
pub open spec fn pace_of(elapsed: Num, interval: Option<Num>, before: Num) -> Num {
    if elapsed.gt(num(NOTHING)) {
        let paced = match interval {
            Some(i) => i.max(elapsed),
            None => elapsed,
        };
        num(ONE) / paced.max(num(SHORTEST_TICK))
    } else {
        before
    }
}

pub fn measured_pace(elapsed: Num, interval: Option<Num>, before: Num) -> (r: Num)
    ensures
        r == pace_of(elapsed, interval, before),
{
    if elapsed.gt(num(NOTHING)) {
        let paced = match interval {
            Some(i) => i.max(elapsed),
            None => elapsed,
        };
        num(ONE) / paced.max(num(SHORTEST_TICK))
    } else {
        before
    }
}

/// What has been gathered for whoever watches, tick by tick.
#[derive(Debug)]
pub struct Feed {
    /// Newest first.
    pub ticker: Vec<TickerLine>,
    pub nodes_version: u64,
    pub taught_total: u64,
    pub shared_total: u64,
    /// How long the latest ticks took, in microseconds, the oldest first.
    pub recent: Vec<u64>,
}

#[verifier::ext_equal]
pub struct FeedV {
    pub news: Seq<TickerV>,
    pub nodes_version: u64,
    pub taught_total: u64,
    pub shared_total: u64,
    pub recent: Seq<u64>,
}

impl View for Feed {
    type V = FeedV;

    open spec fn view(&self) -> FeedV {
        FeedV {
            news: news_of(self.ticker@),
            nodes_version: self.nodes_version,
            taught_total: self.taught_total,
            shared_total: self.shared_total,
            recent: self.recent@,
        }
    }
}

impl FeedV {
    /// What is gathered with one more tick.
    pub open spec fn with_tick(self, log: Seq<EventV>, report: TickReport, micros: u64) -> FeedV {
        let all = self.recent.push(micros);
        FeedV {
            news: news_after(self.news, log),
            taught_total: swelled(self.taught_total, report.beliefs_taught as nat),
            shared_total: swelled(self.shared_total, report.beliefs_shared as nat),
            recent: if all.len() > RECENT_TICKS {
                all.skip(1)
            } else {
                all
            },
            ..self
        }
    }
}

/// The length of some ticks together, as far as can be counted.
pub open spec fn spent(ticks: Seq<u64>) -> u64
    decreases ticks.len(),
{
    if ticks.len() == 0 {
        0
    } else {
        swelled(spent(ticks.drop_last()), ticks.last() as nat)
    }
}

/// How long a tick took of late, in microseconds.
pub open spec fn mean_tick(recent: Seq<u64>) -> Num {
    if recent.len() == 0 {
        num(NOTHING)
    } else {
        of_int(spent(recent) as int) / of_int(recent.len() as int)
    }
}

impl Feed {
    pub fn new() -> (r: Self)
        ensures
            r@ == (FeedV {
                news: Seq::empty(),
                nodes_version: 1,
                taught_total: 0,
                shared_total: 0,
                recent: Seq::empty(),
            }),
    {
        let r = Feed {
            ticker: Vec::new(),
            nodes_version: 1,
            taught_total: 0,
            shared_total: 0,
            recent: Vec::new(),
        };
        assert(r@.news == Seq::<TickerV>::empty());
        r
    }

    /// Gathers what a tick brought.
    pub fn after_tick(&mut self, events: &Vec<Event>, report: &TickReport, micros: u64)
        ensures
            final(self)@ == old(self)@.with_tick(log_of(events@), *report, micros),
    {
        self.taught_total = swell(self.taught_total, report.beliefs_taught as u64);
        self.shared_total = swell(self.shared_total, report.beliefs_shared as u64);
        self.recent.push(micros);
        if self.recent.len() > RECENT_TICKS {
            let ghost all = self.recent@;
            self.recent.remove(0);
            assert(self.recent@ == all.skip(1));
        }
        collect_ticker(&mut self.ticker, events);
        assert(self@ == old(self)@.with_tick(log_of(events@), *report, micros));
    }

    /// Another version of the resources is handed out.
    pub fn republish_nodes(&mut self)
        ensures
            final(self)@ == (FeedV { nodes_version: swelled(old(self).nodes_version, 1), ..old(self)@ }),
    {
        self.nodes_version = swell(self.nodes_version, 1);
    }

    /// A new world has no news yet.
    pub fn start_over(&mut self)
        ensures
            final(self)@ == (FeedV {
                news: Seq::empty(),
                nodes_version: swelled(old(self).nodes_version, 1),
                ..old(self)@
            }),
    {
        self.ticker = Vec::new();
        self.nodes_version = swell(self.nodes_version, 1);
        assert(self@.news == Seq::<TickerV>::empty());
    }

    pub fn mean_tick_us(&self) -> (r: Num)
        ensures
            r == mean_tick(self.recent@),
    {
        if self.recent.len() == 0 {
            return num(NOTHING);
        }
        let mut sum: u64 = 0;
        assert(self.recent@.take(0).len() == 0);
        for i in 0..self.recent.len()
            invariant
                sum == spent(self.recent@.take(i as int)),
        {
            assert(self.recent@.take(i + 1).drop_last() == self.recent@.take(i as int));
            sum = swell(sum, self.recent[i]);
        }
        assert(self.recent@.take(self.recent@.len() as int) == self.recent@);
        Num::from_u64(sum) / Num::from_u64(self.recent.len() as u64)
    }
}

pub open spec fn is_shelter() -> spec_fn(Structure) -> bool {
    |s: Structure| s.kind == StructureKind::Shelter
}

pub open spec fn is_burning(tick: i64) -> spec_fn(Structure) -> bool {
    |s: Structure| s.is_lit(tick)
}

/// How many shelters stand, and how many fires burn.
pub fn count_structures(items: &Vec<Structure>, tick: i64) -> (r: (u32, u32))
    requires
        items@.len() <= u32::MAX,
    ensures
        r.0 == count_where(items@, is_shelter()),
        r.1 == count_where(items@, is_burning(tick)),
{
    let mut shelters: u32 = 0;
    let mut fires: u32 = 0;
    assert(items@.take(0).len() == 0);
    for i in 0..items.len()
        invariant
            items@.len() <= u32::MAX,
            shelters == count_where(items@.take(i as int), is_shelter()),
            fires == count_where(items@.take(i as int), is_burning(tick)),
            shelters <= i,
            fires <= i,
    {
        assert(items@.take(i + 1).drop_last() == items@.take(i as int));
        assert(items@.take(i + 1).last() == items@[i as int]);
        if items[i].kind == StructureKind::Shelter {
            shelters = shelters + 1;
        }
        if items[i].is_lit(tick) {
            fires = fires + 1;
        }
    }
    assert(items@.take(items@.len() as int) == items@);
    (shelters, fires)
}

/// The cause of death in a slot.
pub open spec fn cause_at_spec(i: int) -> DeathCause {
    if i == 0 {
        DeathCause::Starvation
    } else if i == 1 {
        DeathCause::Dehydration
    } else if i == 2 {
        DeathCause::Exposure
    } else if i == 3 {
        DeathCause::OldAge
    } else if i == 4 {
        DeathCause::Illness
    } else if i == 5 {
        DeathCause::Accident
    } else {
        DeathCause::Childbirth
    }
}

fn cause_at(i: usize) -> (r: DeathCause)
    requires
        i < 7,
    ensures
        r == cause_at_spec(i as int),
        r.slot() == i,
{
    match i {
        0 => DeathCause::Starvation,
        1 => DeathCause::Dehydration,
        2 => DeathCause::Exposure,
        3 => DeathCause::OldAge,
        4 => DeathCause::Illness,
        5 => DeathCause::Accident,
        _ => DeathCause::Childbirth,
    }
}

/// What the first `n` causes took, those that took anybody.
pub open spec fn taken_by(tally: Tally, n: nat) -> Seq<(DeathCause, u32)>
    decreases n,
{
    if n == 0 {
        Seq::empty()
    } else {
        let before = taken_by(tally, (n - 1) as nat);
        if tally.at(n - 1) > 0 {
            before.push((cause_at_spec(n - 1), tally.at(n - 1)))
        } else {
            before
        }
    }
}

pub fn deaths_by_cause(deaths: &Deaths) -> (r: Vec<(DeathCause, u32)>)
    ensures
        r@ == taken_by(deaths.by_cause, 7),
{
    let mut r: Vec<(DeathCause, u32)> = Vec::new();
    for i in 0..7
        invariant
            r@ == taken_by(deaths.by_cause, i as nat),
    {
        let n: u32 = deaths.by_cause.get(i);
        if n > 0 {
            r.push((cause_at(i), n));
        }
    }
    r
}

pub open spec fn is_live() -> spec_fn(HouseholdV) -> bool {
    |h: HouseholdV| h.dissolved_tick is None
}

pub open spec fn is_provided(reserve: Num) -> spec_fn(HouseholdV) -> bool {
    |h: HouseholdV| h.dissolved_tick is None && food_of(h.store).ge(reserve)
}

/// The food that the living households have together.
pub open spec fn stores_of(homes: Seq<HouseholdV>) -> Num
    decreases homes.len(),
{
    if homes.len() == 0 {
        num(NOTHING)
    } else {
        let before = stores_of(homes.drop_last());
        if homes.last().dissolved_tick is None {
            before + food_of(homes.last().store)
        } else {
            before
        }
    }
}

pub open spec fn mean_store_of(homes: Seq<HouseholdV>) -> Num {
    let live = count_where(homes, is_live());
    if live == 0 {
        num(NOTHING)
    } else {
        stores_of(homes) / of_int(live as int)
    }
}

/// How many households live, how many of them have their reserve, and what they
/// have in store on average.
pub fn survey_households(items: &Vec<Household>, reserve: Num) -> (r: (usize, usize, Num))
    ensures
        r.0 == count_where(homes_of(items@), is_live()),
        r.1 == count_where(homes_of(items@), is_provided(reserve)),
        r.2 == mean_store_of(homes_of(items@)),
{
    let ghost homes = homes_of(items@);
    let mut live: usize = 0;
    let mut provided: usize = 0;
    let mut sum = num(NOTHING);
    assert(homes.take(0).len() == 0);
    for i in 0..items.len()
        invariant
            homes == homes_of(items@),
            live == count_where(homes.take(i as int), is_live()),
            provided == count_where(homes.take(i as int), is_provided(reserve)),
            sum == stores_of(homes.take(i as int)),
            live <= i,
            provided <= i,
    {
        let h = &items[i];
        assert(homes.take(i + 1).drop_last() == homes.take(i as int));
        assert(homes.take(i + 1).last() == h@);
        if h.is_alive() {
            live = live + 1;
            let food = h.stored_food();
            sum = sum + food;
            if food.ge(reserve) {
                provided = provided + 1;
            }
        }
    }
    assert(homes.take(homes.len() as int) == homes);
    let mean = if live == 0 {
        num(NOTHING)
    } else {
        sum / Num::from_u64(live as u64)
    };
    (live, provided, mean)
}

/// What part of the prompts was not read anew.
pub open spec fn cached_share(st: &LlmStats) -> Num {
    if st.tokens_prompt == 0 {
        num(NOTHING)
    } else {
        of_int(st.tokens_cached as int) / of_int(st.tokens_prompt as int)
    }
}

pub open spec fn share(part: nat, whole: nat) -> Num {
    if whole == 0 {
        num(NOTHING)
    } else {
        of_int(part as int) / of_int(whole as int)
    }
}

/// What is known of the model while it works: whether there is one, and how many
/// calls are out.
#[derive(Debug, Clone, Copy, PartialEq, Eq, Structural)]
pub struct ModelState {
    pub enabled: bool,
    pub in_flight: u32,
}

/// A picture of a run.
#[derive(Debug)]
pub struct Snapshot {
    pub tick: i64,
    pub day: i64,
    pub hour: u32,
    pub night: bool,
    pub running: bool,
    pub mode: SpeedMode,
    pub population: usize,
    pub born: u64,
    pub died: u64,
    pub infants: u32,
    pub adults: u32,
    pub elders: u32,
    pub structures_standing: usize,
    pub shelters: u32,
    pub fires_lit: u32,
    pub deaths_by_cause: Vec<(DeathCause, u32)>,
    pub tick_ms: Num,
    pub timings: PhaseTimings,
    pub ticks_per_second: Num,
    /// True when the census is being held rather than sustained by births.
    pub population_maintained: bool,
    pub households: usize,
    pub households_at_reserve: usize,
    pub mean_store: Num,
    pub paired: u32,
    pub expecting: u32,
    pub deepest_generation: i32,
    pub beliefs_taught: u64,
    pub beliefs_shared: u64,
    pub llm_enabled: bool,
    pub llm_dispatched: u64,
    pub llm_accepted: u64,
    pub llm_in_flight: u32,
    /// A rising share is the model quietly ceasing to matter.
    pub fallback_rate: Num,
    pub mean_latency_ms: Num,
    pub cache_hit_rate: Num,
    /// Share of the living currently running a plan the model wrote.
    pub on_model_plans: Num,
    pub creatures: Vec<CreatureDot>,
    pub structures: Vec<StructureDot>,
    pub events: Vec<TickerLine>,
    pub selected: Option<CreatureDetail>,
    pub nodes_version: u64,
    /// The community's collective map: one byte to a cell.
    pub known: Vec<u8>,
    /// Side of the coverage grid, in cells.
    pub known_dim: u32,
    /// World tiles to a side of a cell.
    pub known_cell: u32,
}

impl Default for Snapshot {
    /// The picture of no run at all.
    fn default() -> (r: Self)
        ensures
            r.tick == 0 && r.day == 0 && r.hour == 0 && !r.night && !r.running && r.mode == SpeedMode::Observe,
            r.population == 0 && r.born == 0 && r.died == 0 && r.infants == 0 && r.adults == 0 && r.elders == 0,
            r.structures_standing == 0 && r.shelters == 0 && r.fires_lit == 0 && r.deaths_by_cause@.len() == 0,
            r.tick_ms == num(NOTHING) && r.timings.sum() == 0 && r.ticks_per_second == num(NOTHING),
            !r.population_maintained && r.households == 0 && r.households_at_reserve == 0,
            r.mean_store == num(NOTHING) && r.paired == 0 && r.expecting == 0 && r.deepest_generation == 1,
            r.beliefs_taught == 0 && r.beliefs_shared == 0 && !r.llm_enabled && r.llm_dispatched == 0,
            r.llm_accepted == 0 && r.llm_in_flight == 0 && r.fallback_rate == num(NOTHING),
            r.mean_latency_ms == num(NOTHING) && r.cache_hit_rate == num(NOTHING) && r.on_model_plans == num(NOTHING),
            r.creatures@.len() == 0 && r.structures@.len() == 0 && r.events@.len() == 0 && r.selected is None,
            r.nodes_version == 0 && r.known@.len() == 0 && r.known_dim == 0 && r.known_cell == COVER_CELL,
    {
        Snapshot {
            tick: 0,
            day: 0,
            hour: 0,
            night: false,
            running: false,
            mode: SpeedMode::Observe,
            population: 0,
            born: 0,
            died: 0,
            infants: 0,
            adults: 0,
            elders: 0,
            structures_standing: 0,
            shelters: 0,
            fires_lit: 0,
            deaths_by_cause: Vec::new(),
            tick_ms: num(NOTHING),
            timings: PhaseTimings { world: 0, needs: 0, plans: 0, deliberate: 0, act: 0, resolve: 0, persist: 0 },
            ticks_per_second: num(NOTHING),
            population_maintained: false,
            households: 0,
            households_at_reserve: 0,
            mean_store: num(NOTHING),
            paired: 0,
            expecting: 0,
            deepest_generation: 1,
            beliefs_taught: 0,
            beliefs_shared: 0,
            llm_enabled: false,
            llm_dispatched: 0,
            llm_accepted: 0,
            llm_in_flight: 0,
            fallback_rate: num(NOTHING),
            mean_latency_ms: num(NOTHING),
            cache_hit_rate: num(NOTHING),
            on_model_plans: num(NOTHING),
            creatures: Vec::new(),
            structures: Vec::new(),
            events: Vec::new(),
            selected: None,
            nodes_version: 0,
            known: Vec::new(),
            known_dim: 0,
            known_cell: COVER_CELL,
        }
    }
}

impl Snapshot {
    /// The clock and the controls are as they stand.
    pub open spec fn tells_the_time(&self, sim: &Sim, controls: Controls, feed: FeedV, timings: PhaseTimings) -> bool {
        let tick = sim.ctx.tick;
        let mean = mean_tick(feed.recent);
        &&& self.tick == tick
        &&& self.day == tick as int / 24
        &&& self.hour == hour_of(tick)
        &&& self.night == is_night(tick, &sim.ctx.cfg)
        &&& self.running == controls.moves()
        &&& self.mode == controls.mode
        &&& self.tick_ms == mean / num(THOUSAND)
        &&& self.timings == timings
        &&& self.ticks_per_second == if mean.gt(num(NOTHING)) {
            num(MILLION) / mean
        } else {
            num(NOTHING)
        }
    }

    /// The people are counted as they are.
    pub open spec fn counts_people(&self, sim: &Sim) -> bool {
        let people = sim.persons();
        let census = census_of(people);
        &&& self.population == people.len()
        &&& self.born == sim.register.total_births
        &&& self.died == sim.deaths.total
        &&& self.infants == census.infants
        &&& self.adults == census.adults
        &&& self.elders == census.elders
        &&& self.paired == census.paired
        &&& self.expecting == census.expecting
        &&& self.deepest_generation == census.deepest_generation
        &&& self.deaths_by_cause@ == taken_by(sim.deaths.by_cause, 7)
        &&& self.population_maintained == sim.population_maintained
        &&& self.on_model_plans == share(census.on_model_plans as nat, people.len())
    }

    /// What stands and who lives together is counted as it is.
    pub open spec fn counts_homes(&self, sim: &Sim) -> bool {
        let items = sim.ctx.structures.items@;
        let homes = homes_of(sim.town.households.items@);
        &&& self.structures_standing == items.len()
        &&& self.shelters == count_where(items, is_shelter())
        &&& self.fires_lit == count_where(items, is_burning(sim.ctx.tick))
        &&& self.households == count_where(homes, is_live())
        &&& self.households_at_reserve == count_where(
            homes,
            is_provided(sim.ctx.cfg.reproduction.store_reserve),
        )
        &&& self.mean_store == mean_store_of(homes)
    }

    /// What came of the model is told as it is.
    pub open spec fn tells_of_model(&self, st: &LlmStats, model: ModelState) -> bool {
        &&& self.llm_enabled == model.enabled
        &&& self.llm_in_flight == model.in_flight
        &&& self.llm_dispatched == st.dispatched
        &&& self.llm_accepted == st.accepted
        &&& self.fallback_rate == st.fallback_share()
        &&& self.mean_latency_ms == st.latency()
        &&& self.cache_hit_rate == cached_share(st)
    }

    /// The map shows everybody and everything where they are.
    pub open spec fn draws(&self, sim: &Sim) -> bool {
        let people = sim.persons();
        let items = sim.ctx.structures.items@;
        let tick = sim.ctx.tick;
        &&& self.creatures@ == people.map_values(
            dotting(sim.ctx.cfg.needs.deficit_threshold, sim.thinking.waiting.calls@),
        )
        &&& self.structures@.len() == items.len()
        &&& forall|i: int| 0 <= i < items.len() ==> shows(#[trigger] self.structures@[i], items[i], tick)
        &&& self.known_dim == groups(sim.ctx.world.width, COVER_CELL)
        &&& self.known_cell == COVER_CELL
        &&& self.known@.len() == self.known_dim * self.known_dim
        &&& forall|c: int|
            0 <= c < self.known@.len() ==> #[trigger] self.known@[c] == brightest_known(
                people,
                people.len(),
                c,
                self.known_dim as int,
                tick,
                &sim.ctx.cfg.knowledge,
            )
    }

    /// Whoever is selected is shown, if they are alive.
    pub open spec fn inspects(&self, sim: &Sim, id: Option<i64>) -> bool {
        let people = sim.persons();
        match id {
            Some(id) if is_here(people, id) => self.selected matches Some(d) && d@ == detail_of(
                sim.town.creatures@[place_of(people, id)],
                people,
                homes_of(sim.town.households.items@),
                sim.ctx.world.nodes@,
                &sim.ctx.cfg,
                sim.ctx.tick,
            ),
            _ => self.selected is None,
        }
    }
}

/// Whether there is a picture of a run to be drawn: the coverage grid has a
/// countable number of cells.
pub open spec fn can_be_drawn(sim: &Sim) -> bool {
    sim.wf() && sim.roomy() && groups(sim.ctx.world.width, COVER_CELL) * groups(sim.ctx.world.width, COVER_CELL)
        <= u32::MAX
}

/// Whether the coverage grid of a map so wide can be counted.
pub fn grid_fits(width: u32) -> (r: bool)
    ensures
        r == (groups(width, COVER_CELL) * groups(width, COVER_CELL) <= u32::MAX),
{
    let dim = div_ceil(width, COVER_CELL) as u64;
    proof {
        assert(dim * dim <= 0xffff_ffff * 0xffff_ffff) by (nonlinear_arith)
            requires
                0 <= dim <= 0xffff_ffff,
        ;
    }
    dim * dim <= u32::MAX as u64
}

fn copy_lines(lines: &Vec<TickerLine>) -> (r: Vec<TickerLine>)
    ensures
        news_of(r@) == news_of(lines@),
{
    let mut r: Vec<TickerLine> = Vec::new();
    for i in 0..lines.len()
        invariant
            r@.len() == i,
            forall|j: int| 0 <= j < i ==> (#[trigger] r@[j])@ == lines@[j]@,
    {
        let l = &lines[i];
        r.push(TickerLine { tick: l.tick, kind: l.kind, text: l.text.clone(), tone: l.tone });
    }
    assert(news_of(r@) == news_of(lines@));
    r
}

/// A picture of a run as it stands.
pub fn snapshot(
    sim: &Sim,
    controls: &Controls,
    feed: &Feed,
    model: ModelState,
    timings: PhaseTimings,
) -> (s: Snapshot)
    requires
        can_be_drawn(sim),
    ensures
        s.tells_the_time(sim, *controls, feed@, timings),
        s.counts_people(sim),
        s.counts_homes(sim),
        s.tells_of_model(&sim.thinking.stats, model),
        s.draws(sim),
        s.inspects(sim, controls.selected),
        news_of(s.events@) == feed@.news,
        s.beliefs_taught == feed.taught_total,
        s.beliefs_shared == feed.shared_total,
        s.nodes_version == feed.nodes_version,
{
    let cfg = &sim.ctx.cfg;
    let tick = sim.ctx.tick;
    let creatures = &sim.town.creatures;
    let items = &sim.ctx.structures.items;
    let st = &sim.thinking.stats;
    let census = take_census(creatures);
    let (shelters, fires_lit) = count_structures(items, tick);
    let mean = feed.mean_tick_us();
    let selected = match controls.selected {
        Some(id) => detail_for(creatures, &sim.town.households, &sim.ctx.world, cfg, tick, id),
        None => None,
    };
    let (known, known_dim, known_cell) = collective_map(creatures, sim.ctx.world.width, tick, &cfg.knowledge);
    let (live, provided, mean_store) = survey_households(
        &sim.town.households.items,
        cfg.reproduction.store_reserve,
    );
    Snapshot {
        tick,
        day: day_of(tick),
        hour: hour_of(tick),
        night: is_night(tick, cfg),
        running: controls.should_tick(),
        mode: controls.mode,
        population: creatures.len(),
        born: sim.register.total_births,
        died: sim.deaths.total,
        infants: census.infants,
        adults: census.adults,
        elders: census.elders,
        structures_standing: items.len(),
        shelters,
        fires_lit,
        deaths_by_cause: deaths_by_cause(&sim.deaths),
        tick_ms: mean / num(THOUSAND),
        timings,
        ticks_per_second: if mean.gt(num(NOTHING)) {
            num(MILLION) / mean
        } else {
            num(NOTHING)
        },
        population_maintained: sim.population_maintained,
        households: live,
        households_at_reserve: provided,
        mean_store,
        paired: census.paired,
        expecting: census.expecting,
        deepest_generation: census.deepest_generation,
        beliefs_taught: feed.taught_total,
        beliefs_shared: feed.shared_total,
        llm_enabled: model.enabled,
        llm_dispatched: st.dispatched,
        llm_accepted: st.accepted,
        llm_in_flight: model.in_flight,
        fallback_rate: st.fallback_rate(),
        mean_latency_ms: st.mean_latency_ms(),
        cache_hit_rate: if st.tokens_prompt == 0 {
            num(NOTHING)
        } else {
            Num::from_u64(st.tokens_cached) / Num::from_u64(st.tokens_prompt)
        },
        on_model_plans: if creatures.len() == 0 {
            num(NOTHING)
        } else {
            Num::from_u64(census.on_model_plans as u64) / Num::from_u64(creatures.len() as u64)
        },
        creatures: creature_dots(creatures, cfg.needs.deficit_threshold, &sim.thinking.waiting),
        structures: structure_dots(items, tick),
        events: copy_lines(&feed.ticker),
        selected,
        nodes_version: feed.nodes_version,
        known,
        known_dim,
        known_cell,
    }
}

/// Terrain and the things that only change when the world does. Handed out once
/// and on regeneration, never per tick.
#[derive(Debug)]
pub struct TerrainSnapshot {
    pub width: u32,
    pub height: u32,
    pub chunk_size: u32,
    pub seed: i64,
    pub bytes: Vec<u8>,
    pub founders: Vec<Founder>,
}

pub fn terrain_snapshot(w: &World) -> (s: TerrainSnapshot)
    ensures
        s.width == w.width,
        s.height == w.height,
        s.chunk_size == w.chunk_size,
        s.seed == w.seed as i64,
        s.bytes@ == codes_of(w.tiles@),
        s.founders@ == w.founders@,
{
    let mut founders: Vec<Founder> = Vec::new();
    for i in 0..w.founders.len()
        invariant
            founders@ == w.founders@.take(i as int),
    {
        founders.push(w.founders[i]);
    }
    assert(w.founders@.take(w.founders@.len() as int) == w.founders@);
    TerrainSnapshot {
        width: w.width,
        height: w.height,
        chunk_size: w.chunk_size,
        seed: w.seed as i64,
        bytes: w.terrain_bytes(),
        founders,
    }
}

/// Resources, handed out at intervals because crops are planted and patches are
/// stripped as the run goes on.
#[derive(Debug)]
pub struct NodesSnapshot {
    pub version: u64,
    pub nodes: Vec<ResourceNode>,
}

pub fn nodes_snapshot(version: u64, w: &World) -> (s: NodesSnapshot)
    ensures
        s.version == version,
        s.nodes@ == w.nodes@,
{
    let mut nodes: Vec<ResourceNode> = Vec::new();
    for i in 0..w.nodes.len()
        invariant
            nodes@ == w.nodes@.take(i as int),
    {
        nodes.push(w.nodes[i]);
    }
    assert(w.nodes@.take(w.nodes@.len() as int) == w.nodes@);
    NodesSnapshot { version, nodes }
}

/// Whether somebody shown is still alive.
pub fn creature_is_alive(c: &Creature) -> (r: bool)
    ensures
        r == (c.death_tick is None),
{
    c.is_alive()
}

/// What is done with a picture. Whoever watches brings their own.
pub trait SnapshotSink: Send {
    fn publish(&self, snapshot: std::sync::Arc<Snapshot>);
}

/// Watches nothing.
#[derive(Debug, Clone, Copy)]
pub struct NullSink;

impl SnapshotSink for NullSink {
    fn publish(&self, _snapshot: std::sync::Arc<Snapshot>) {
    }
}

/// Each command does one thing: playing and pausing set whether it runs, a step runs
/// that many and at least one, a mode sets the mode, a selection the one selected; the
/// rest change no control and are for others to act on.
pub proof fn law_each_command_does_one_thing(c: Controls, n: u32, mode: SpeedMode, id: Option<i64>)
    ensures
        c.told(SimCommand::Play) == (Controls { running: true, ..c }),
        c.told(SimCommand::Pause) == (Controls { running: false, steps_left: 0, ..c }),
        c.told(SimCommand::Step(n)).mode == c.mode && c.told(SimCommand::Step(n)).selected == c.selected,
        c.told(SimCommand::Step(n)).steps_left >= 1 && c.told(SimCommand::Step(n)).steps_left >= n,
        n >= 1 ==> c.told(SimCommand::Step(n)).steps_left == n,
        c.told(SimCommand::SetMode(mode)) == (Controls { mode, ..c }),
        c.told(SimCommand::Select(id)) == (Controls { selected: id, ..c }),
        c.told(SimCommand::Shutdown) == c,
        Controls::asked_by(SimCommand::Pause) == Effect::Flush,
        Controls::asked_by(SimCommand::Select(id)) == Effect::Show,
        Controls::asked_by(SimCommand::Shutdown) == Effect::Stop,
        Controls::asked_by(SimCommand::Play) == Effect::Carry,
        Controls::asked_by(SimCommand::Step(n)) == Effect::Carry,
        Controls::asked_by(SimCommand::SetMode(mode)) == Effect::Carry,
        c.told(SimCommand::Play).moves(),
        c.moves() <==> c.running || c.steps_left > 0,
{
}

/// Playing goes on: a run that is playing, with no steps counted, is playing after
/// any number of ticks.
pub proof fn law_playing_goes_on(c: Controls, n: nat)
    requires
        c.running,
        c.steps_left == 0,
    ensures
        c.after(n) == c,
    decreases n,
{
    if n > 0 {
        law_playing_goes_on(c, (n - 1) as nat);
    }
}

/// Every cause of death has its own slot, and is read back from it; what is listed is
/// what took anybody, with how many.
pub proof fn law_each_cause_has_its_slot(tally: Tally, cause: DeathCause)
    ensures
        cause_at_spec(cause.slot() as int) == cause,
        cause.slot() < 7,
        tally.at(cause.slot() as int) > 0 ==> taken_by(tally, 7).contains((cause, tally.at(cause.slot() as int))),
{
    reveal_with_fuel(taken_by, 8);
    let all = taken_by(tally, 7);
    if tally.at(cause.slot() as int) > 0 {
        lemma_taken_by(tally, 7, cause.slot() as int);
    }
}

proof fn lemma_taken_by(tally: Tally, n: nat, i: int)
    requires
        0 <= i < n,
        tally.at(i) > 0,
    ensures
        taken_by(tally, n).contains((cause_at_spec(i), tally.at(i))),
    decreases n,
{
    let before = taken_by(tally, (n - 1) as nat);
    let after = taken_by(tally, n);
    if i < n - 1 {
        lemma_taken_by(tally, (n - 1) as nat, i);
        let k = before.index_of((cause_at_spec(i), tally.at(i)));
        assert(after[k] == (cause_at_spec(i), tally.at(i)));
    } else {
        assert(after[before.len() as int] == (cause_at_spec(i), tally.at(i)));
    }
}

/// The feed keeps the last ticks' times, the newest last, and adds what was taught
/// and shared to what had been.
pub proof fn law_the_feed_keeps_the_latest(f: FeedV, log: Seq<EventV>, report: TickReport, micros: u64)
    requires
        f.recent.len() <= 64,
    ensures
        ({
            let after = f.with_tick(log, report, micros);
            &&& after.recent.len() <= 64
            &&& after.recent.last() == micros
            &&& f.recent.len() < 64 ==> after.recent == f.recent.push(micros)
            &&& f.recent.len() == 64 ==> after.recent.drop_last() == f.recent.skip(1)
            &&& after.taught_total == swelled(f.taught_total, report.beliefs_taught as nat)
            &&& after.shared_total == swelled(f.shared_total, report.beliefs_shared as nat)
            &&& after.nodes_version == f.nodes_version
        }),
{
}

/// A tick takes as long as it is given, or as long as it took if that was more; the
/// pace is one over that, and stays what it was where no time was measured.
pub proof fn law_the_pace_of_a_run(elapsed: Num, interval: Num, before: Num)
    requires
        num(0).lt(elapsed),
        num(0x3A83_126F).le(elapsed),
        num(0x3A83_126F).le(interval),
    ensures
        elapsed.le(interval) ==> pace_of(elapsed, Some(interval), before) == num(0x3F80_0000) / interval,
        interval.lt(elapsed) ==> pace_of(elapsed, Some(interval), before) == num(0x3F80_0000) / elapsed,
        pace_of(elapsed, None, before) == num(0x3F80_0000) / elapsed,
        pace_of(num(0), Some(interval), before) == before,
{
}

/// What is put by counts only where anybody still lives: the stores of households
/// that stand, and how many of them have reached the reserve.
pub proof fn law_what_is_put_by(homes: Seq<HouseholdV>, h: HouseholdV, reserve: Num)
    ensures
        stores_of(homes.push(h)) == if h.dissolved_tick is None {
            stores_of(homes) + food_of(h.store)
        } else {
            stores_of(homes)
        },
        is_provided(reserve)(h) <==> h.dissolved_tick is None && reserve.le(food_of(h.store)),
        is_live()(h) <==> h.dissolved_tick is None,
        count_where(homes, is_live()) == 0 ==> mean_store_of(homes) == num(0),
        count_where(homes, is_live()) > 0 ==> mean_store_of(homes) == stores_of(homes) / of_int(
            count_where(homes, is_live()) as int,
        ),
{
    assert(homes.push(h).drop_last() =~= homes);
    assert(homes.push(h).last() == h);
}

/// A mean is the sum over the number, and nothing where there is nothing; a share is
/// the part over the whole.
pub proof fn law_means_and_shares(recent: Seq<u64>, part: nat, whole: nat, st: &LlmStats)
    ensures
        recent.len() == 0 ==> mean_tick(recent) == num(0),
        recent.len() > 0 ==> mean_tick(recent) == of_int(spent(recent) as int) / of_int(recent.len() as int),
        recent.len() > 0 ==> spent(recent) == swelled(spent(recent.drop_last()), recent.last() as nat),
        whole == 0 ==> share(part, whole) == num(0),
        whole > 0 ==> share(part, whole) == of_int(part as int) / of_int(whole as int),
        st.tokens_prompt > 0 ==> cached_share(st) == of_int(st.tokens_cached as int) / of_int(st.tokens_prompt as int),
{
}

/// What is shown of the people is so: as many in all as of each stage, each counted as
/// what they are, and the dead under what they died of.
pub proof fn law_the_people_are_shown(shown: &Snapshot, sim: &Sim, cause: DeathCause)
    requires
        shown.counts_people(sim),
        sim.persons().len() <= u32::MAX,
    ensures
        shown.population == sim.persons().len(),
        shown.infants == count_where(sim.persons(), is_of_stage(LifeStage::Infant)),
        shown.adults == count_where(sim.persons(), is_of_stage(LifeStage::Adult)),
        shown.elders == count_where(sim.persons(), is_of_stage(LifeStage::Elder)),
        shown.infants + shown.adults + shown.elders == shown.population,
        shown.paired == count_where(sim.persons(), is_spoken_for()),
        shown.expecting == count_where(sim.persons(), is_expecting()),
        shown.died == sim.deaths.total && shown.born == sim.register.total_births,
        sim.deaths.by_cause.at(cause.slot() as int) > 0 ==> shown.deaths_by_cause@.contains(
            (cause, sim.deaths.by_cause.at(cause.slot() as int)),
        ),
{
    law_the_census_counts(sim.persons(), sim.persons()[0]);
    law_each_cause_has_its_slot(sim.deaths.by_cause, cause);
}

/// What is shown of the time is so: the tick, its hour and day, whether it is night,
/// and whether anything moves.
pub proof fn law_the_time_is_shown(shown: &Snapshot, sim: &Sim, controls: Controls, feed: FeedV, timings: PhaseTimings)
    requires
        shown.tells_the_time(sim, controls, feed, timings),
    ensures
        shown.tick == sim.ctx.tick,
        shown.day == sim.ctx.tick as int / 24,
        shown.hour == sim.ctx.tick as int % 24,
        shown.night <==> is_night(sim.ctx.tick, &sim.ctx.cfg),
        shown.running <==> controls.running || controls.steps_left > 0,
        shown.mode == controls.mode,
        shown.timings == timings,
{
    assert(0 <= sim.ctx.tick as int % 24 < 24);
}

/// What is shown of houses is so: how many structures stand, how many of them are
/// shelters and lit fires, how many households there are and how many have enough.
pub proof fn law_the_houses_are_shown(shown: &Snapshot, sim: &Sim, s: Structure)
    requires
        shown.counts_homes(sim),
    ensures
        shown.structures_standing == sim.ctx.structures.items@.len(),
        shown.shelters == count_where(sim.ctx.structures.items@, is_shelter()),
        shown.fires_lit == count_where(sim.ctx.structures.items@, is_burning(sim.ctx.tick)),
        is_shelter()(s) <==> s.kind == StructureKind::Shelter,
        is_burning(sim.ctx.tick)(s) <==> s.is_lit(sim.ctx.tick),
        shown.households == count_where(homes_of(sim.town.households.items@), is_live()),
        shown.mean_store == mean_store_of(homes_of(sim.town.households.items@)),
{
}

/// What is shown of the model is so: what was sent and taken up, and the share of
/// answers that were no use.
pub proof fn law_the_model_is_shown(shown: &Snapshot, st: &LlmStats, model: ModelState)
    requires
        shown.tells_of_model(st, model),
    ensures
        shown.llm_dispatched == st.dispatched && shown.llm_accepted == st.accepted,
        shown.llm_enabled == model.enabled && shown.llm_in_flight == model.in_flight,
        shown.fallback_rate == st.fallback_share() && shown.mean_latency_ms == st.latency(),
{
}

/// The last of a number of steps stops the run, and none before it does; each tick
/// uses up one.
pub proof fn law_steps_are_used_up(c: Controls)
    ensures
        c.steps_left == 1 ==> !c.ticked().running && c.ticked().steps_left == 0,
        c.steps_left > 1 ==> c.ticked() == (Controls { steps_left: (c.steps_left - 1) as u32, ..c }),
        c.steps_left == 0 ==> c.ticked() == c,
        c.ticked().mode == c.mode && c.ticked().selected == c.selected,
{
}

} // verus!
