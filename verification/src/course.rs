//! One tick, taken step by step.
//!
//! A course knows how far a tick has come and what is wanted next from outside: a
//! plan that habit makes, an answer, a question put, the deviates of a child. It is
//! handed what came of that, and moves on. Every tick that is over has gone through
//! all of its phases, in order, with exactly what was handed in.

use crate::acting::plan_holds;
use crate::birth::{due_in, Deviates, Labour};
use crate::chance::Stream;
use crate::chronicle::all_noted_down;
use crate::creature::{people_of, CreatureV, Plan, PlanV};
use crate::history::{
    acting, alike_at_dawn, are_about, bearing, by_answer, by_asking, by_habit, closing, dawning, deliberating,
    delivering, ending, feeling, labouring, law_a_tick_is_one_tick, law_the_digest_follows_the_moment,
    law_the_same_tick_follows, lemma_deliberating, lemma_opening, lemma_opening_count, meeting, moved, opening,
    reviewing, ticked, Decisions, Moment, Move,
};
use crate::num::Num;
use crate::pace::SpeedMode;
use crate::plans::{flagged_in, law_whoever_has_no_plan_is_flagged, reviewed};
use crate::records::TickReport;
use crate::thinking::{
    asking_order, expire_calls, is_judgeable, law_an_answer_takes_no_plan_away, law_nobody_is_asked_twice, Asking,
    AskingV, Candidate, Completion, Model, Posting, ThinkCost, Verdict,
};
use crate::tick::{closed_books, routes_hold, Sim};
use vstd::prelude::*;

verus! {

/// How far a tick has come.
#[derive(Debug, Clone, Copy, PartialEq, Eq, Structural)]
pub enum Phase {
    World,
    Needs,
    Plans,
    Answers,
    Habits,
    Weighing,
    Asking,
    Waiting,
    Acting,
    Meeting,
    Bearing,
    Labour,
    Ending,
    Closing,
    Over,
}

/// What is wanted next.
#[derive(Debug, Clone, Copy)]
pub enum Errand {
    /// Nothing from outside: the tick can go on.
    Proceed,
    /// An answer that is back, if there is one.
    Collect,
    /// A plan for somebody, by place.
    Decide(usize),
    /// How much each of the flagged wants to think.
    Weigh,
    /// A question to the candidate with this place in the list.
    Ask(usize),
    /// An answer that is still out.
    Await,
    /// The deviates of a child.
    Deliver(Labour),
    /// The tick is over.
    Rest,
}

/// What came of an errand.
#[derive(Debug)]
pub enum News {
    Go,
    Answer(Completion, Verdict, ThinkCost),
    /// No other is back for now.
    NoAnswer,
    /// None is waited for any longer.
    GivenUp,
    /// A plan, and the stream after what was drawn for it.
    Habit(Plan, Stream),
    Weighed(Vec<Candidate>),
    Posted(Posting, ThinkCost),
    Born(Deviates),
}

/// Why a tick does not go on.
#[derive(Debug, Clone, Copy, PartialEq, Eq, Structural)]
pub enum Snag {
    /// This is not what was wanted.
    Unfitting,
    /// Something is near the end of what can be counted.
    Overgrown,
    /// The plan leads off the map.
    OffMap,
}

/// A tick under way.
pub struct Course {
    pub phase: Phase,
    pub report: TickReport,
    /// The model that is asked, if there is one.
    pub model: Option<Model>,
    /// How many may be asked.
    pub budget: u32,
    /// How many of the flagged, or of those whose time has come, have had their turn.
    pub next: usize,
    pub candidates: Vec<Candidate>,
    pub round: Asking,
    /// Those whose time has come, by place.
    pub due: Vec<usize>,
    pub labour: Option<Labour>,
    /// The moment the tick found, and everything that was decided in it.
    pub start: Ghost<Moment>,
    pub moves: Ghost<Seq<Move>>,
    pub plans: Ghost<Seq<(PlanV, Stream)>>,
    pub deviates: Ghost<Seq<Deviates>>,
}

/// A tick under way, with everything as sequences.
#[verifier::ext_equal]
pub struct CourseV {
    pub phase: Phase,
    pub report: TickReport,
    pub model: Option<Model>,
    pub budget: u32,
    pub next: int,
    pub candidates: Seq<Candidate>,
    pub round: AskingV,
    pub due: Seq<usize>,
    pub labour: Option<Labour>,
}

impl View for Course {
    type V = CourseV;

    open spec fn view(&self) -> CourseV {
        CourseV {
            phase: self.phase,
            report: self.report,
            model: self.model,
            budget: self.budget,
            next: self.next as int,
            candidates: self.candidates@,
            round: self.round@,
            due: self.due@,
            labour: self.labour,
        }
    }
}

/// Somebody who is here, and has no plan.
pub open spec fn wants_plan(m: Moment, i: int) -> bool {
    0 <= i < m.town.people.len() && m.town.people[i].plan is None
}

/// What is wanted next.
pub open spec fn errand_of(c: CourseV, m: Moment) -> Errand {
    match c.phase {
        Phase::Answers => Errand::Collect,
        Phase::Habits => if c.next < m.flagged.len() && wants_plan(m, m.flagged[c.next] as int) {
            Errand::Decide(m.flagged[c.next])
        } else {
            Errand::Proceed
        },
        Phase::Weighing => Errand::Weigh,
        Phase::Asking => if c.round.goes_on(true) {
            Errand::Ask(c.round.order[c.round.next])
        } else {
            Errand::Proceed
        },
        Phase::Waiting => Errand::Await,
        Phase::Labour => match c.labour {
            Some(l) => Errand::Deliver(l),
            None => Errand::Rest,
        },
        Phase::Over => Errand::Rest,
        _ => Errand::Proceed,
    }
}

/// Whether this is what was wanted.
pub open spec fn fits(e: Errand, news: News) -> bool {
    match e {
        Errand::Proceed => news is Go,
        Errand::Collect => news is Answer || news is NoAnswer,
        Errand::Await => news is Answer || news is NoAnswer || news is GivenUp,
        Errand::Decide(_) => news is Habit,
        Errand::Weigh => news is Weighed,
        Errand::Ask(_) => news is Posted,
        Errand::Deliver(_) => news is Born,
        Errand::Rest => false,
    }
}

/// The phases in which something may be added that is counted.
pub open spec fn takes_room(p: Phase) -> bool {
    match p {
        Phase::World
        | Phase::Acting
        | Phase::Meeting
        | Phase::Labour
        | Phase::Ending
        | Phase::Closing => true,
        _ => false,
    }
}

/// Whether a plan that came in, if one did, stays on the map.
pub open spec fn stays_on_map(sim: &Sim, news: News) -> bool {
    match news {
        News::Habit(plan, _) => plan_holds(sim.ground(), Some(plan@)),
        News::Answer(_, verdict, _) => is_judgeable(&verdict, &sim.ctx.world) && routes_hold(sim.ground(), &verdict),
        _ => true,
    }
}

/// What stands in the way of some news, if anything does.
pub open spec fn snag_of(c: CourseV, sim: &Sim, news: News) -> Option<Snag> {
    if !fits(errand_of(c, sim.moment()), news) {
        Some(Snag::Unfitting)
    } else if takes_room(c.phase) && !sim.roomy() {
        Some(Snag::Overgrown)
    } else if !stays_on_map(sim, news) {
        Some(Snag::OffMap)
    } else {
        None
    }
}

/// Whether anybody is asked in a tick: there is a model, it is switched on, and it
/// has a budget.
pub open spec fn asks(c: CourseV, m: Moment) -> bool {
    c.model is Some && m.cfg.features.llm && c.budget > 0
}

/// Once nobody else is to be asked: a world that is studied closely waits for the
/// answers that are out.
pub open spec fn done_asking(c: CourseV, m: Moment, mode: SpeedMode) -> CourseV {
    CourseV {
        phase: if c.model is Some && mode == SpeedMode::Deep && m.calls.len() > 0 {
            Phase::Waiting
        } else {
            Phase::Acting
        },
        ..c
    }
}

/// An answer taken.
pub open spec fn heard(c: CourseV, m: Moment, done: Completion, verdict: Verdict, cost: ThinkCost) -> (
    CourseV,
    Moment,
) {
    match c.model {
        Some(model) => {
            let (b, r) = by_answer(m, c.report, &done, &verdict, cost, &model);
            (CourseV { report: r, ..c }, b)
        },
        None => (c, m),
    }
}

/// A tick after some news that fits.
#[verifier::opaque]
pub open spec fn advanced(c: CourseV, m: Moment, mode: SpeedMode, news: News) -> (CourseV, Moment) {
    match c.phase {
        Phase::World => {
            let (b, report) = dawning(m);
            (CourseV { phase: Phase::Needs, report, ..c }, b)
        },
        Phase::Needs => (CourseV { phase: Phase::Plans, ..c }, feeling(m)),
        Phase::Plans => {
            let (b, report) = reviewing(m, c.report);
            (
                CourseV {
                    phase: if c.model is Some {
                        Phase::Answers
                    } else {
                        Phase::Habits
                    },
                    report,
                    next: 0,
                    ..c
                },
                b,
            )
        },
        Phase::Answers => match news {
            News::Answer(done, verdict, cost) => heard(c, m, done, verdict, cost),
            _ => (CourseV { phase: Phase::Habits, ..c }, m),
        },
        Phase::Habits => match news {
            News::Habit(plan, rng) => {
                let (b, report) = by_habit(
                    Moment { rng, ..m },
                    c.report,
                    m.flagged[c.next] as int,
                    plan@,
                    c.model is Some,
                );
                (CourseV { report, next: c.next + 1, ..c }, b)
            },
            _ => if c.next < m.flagged.len() {
                (CourseV { next: c.next + 1, ..c }, m)
            } else if asks(c, m) {
                (
                    CourseV { phase: Phase::Weighing, ..c },
                    moved(m, c.report, Move::Lapse(m.cfg.deliberation.dispatch_ttl_ticks)).0,
                )
            } else {
                (done_asking(c, m, mode), m)
            },
        },
        Phase::Weighing => match news {
            News::Weighed(candidates) => (
                CourseV {
                    phase: Phase::Asking,
                    candidates: candidates@,
                    round: AskingV {
                        order: asking_order(candidates@, m.town.people, m.calls),
                        next: 0,
                        sent: 0,
                        budget: c.budget,
                    },
                    ..c
                },
                m,
            ),
            _ => (c, m),
        },
        Phase::Asking => match news {
            News::Posted(p, cost) => {
                let place = c.candidates[c.round.order[c.round.next] as int].place;
                let (b, report) = if p == Posting::Sent {
                    by_asking(m, c.report, place as int, cost)
                } else {
                    (m, c.report)
                };
                (CourseV { report, round: c.round.after(p), ..c }, b)
            },
            _ => (done_asking(c, m, mode), m),
        },
        Phase::Waiting => match news {
            News::Answer(done, verdict, cost) => heard(c, m, done, verdict, cost),
            News::NoAnswer if m.calls.len() > 0 => (c, m),
            _ => (CourseV { phase: Phase::Acting, ..c }, m),
        },
        Phase::Acting => {
            let (b, report) = acting(m, c.report);
            (CourseV { phase: Phase::Meeting, report, ..c }, b)
        },
        Phase::Meeting => {
            let (b, report) = meeting(m, c.report);
            (
                CourseV {
                    phase: Phase::Bearing,
                    report,
                    next: 0,
                    due: due_in(b.town.people, b.town.people.len(), b.tick),
                    ..c
                },
                b,
            )
        },
        Phase::Bearing => if c.next < c.due.len() {
            let (b, labour) = labouring(m, c.report, c.due[c.next] as int);
            if labour is Some {
                (CourseV { phase: Phase::Labour, labour, ..c }, b)
            } else {
                (CourseV { next: c.next + 1, ..c }, b)
            }
        } else {
            (CourseV { phase: Phase::Ending, ..c }, m)
        },
        Phase::Labour => match (c.labour, news) {
            (Some(l), News::Born(z)) => {
                let (b, report) = delivering(m, c.report, l, z);
                (CourseV { phase: Phase::Bearing, report, next: c.next + 1, labour: None, ..c }, b)
            },
            _ => (c, m),
        },
        Phase::Ending => {
            let (b, report) = ending(m, c.report);
            (CourseV { phase: Phase::Closing, report, ..c }, b)
        },
        Phase::Closing => {
            let (b, report) = closing(m, c.report);
            (CourseV { phase: Phase::Over, report, ..c }, b)
        },
        Phase::Over => (c, m),
    }
}

/// Whoever has no plan is among the flagged from a place in their list on.
pub open spec fn unplanned_from(m: Moment, next: int) -> bool {
    forall|i: int| #[trigger]
        wants_plan(m, i) ==> exists|k: int| next <= k < m.flagged.len() && #[trigger] m.flagged[k] == i
}

/// The moves that habit makes for the first `n` of some places: where somebody there
/// wants a plan, what was drawn for it, and the plan.
pub open spec fn habit_moves(
    a: Moment,
    report: TickReport,
    places: Seq<usize>,
    plans: Seq<(PlanV, Stream)>,
    n: nat,
) -> Seq<Move>
    decreases n,
{
    if n == 0 {
        Seq::empty()
    } else {
        let before = habit_moves(a, report, places, plans, (n - 1) as nat);
        let i = places[n - 1] as int;
        if wants_plan(deliberating(a, report, before, before.len()).0, i) {
            before.push(Move::Drawn(plans[n - 1].1)).push(Move::Habit(i, plans[n - 1].0, false))
        } else {
            before
        }
    }
}

impl Course {
    /// The moment and the report once everything has been thought over.
    pub open spec fn thought(&self) -> (Moment, TickReport) {
        let (a, r) = opening(self.start@);
        deliberating(a, r, self.moves@, self.moves@.len())
    }

    /// The moment and the report once everything that takes two is settled.
    pub open spec fn convened(&self) -> (Moment, TickReport) {
        let (b, rb) = self.thought();
        let (c, rc) = acting(b, rb);
        meeting(c, rc)
    }

    /// The moment and the report after the first `n` births.
    pub open spec fn borne(&self, n: nat) -> (Moment, TickReport) {
        let (e, re) = self.convened();
        bearing(e, re, self.due@, self.deviates@, n)
    }

    pub open spec fn decisions(&self) -> Decisions {
        Decisions { moves: self.moves@, deviates: self.deviates@ }
    }

    /// Whether a run has come as far as its tick, and no further.
    #[verifier::opaque]
    pub open spec fn follows(&self, sim: &Sim) -> bool {
        let m = sim.moment();
        let s = self.start@;
        &&& s.town.people.len() <= u32::MAX
        &&& s.tick < i64::MAX
        &&& self.round.wf()
        &&& match self.phase {
            Phase::World => m == s && self.is_undecided(),
            Phase::Needs => {
                &&& (m, self.report) == dawning(s)
                &&& self.is_undecided()
            },
            Phase::Plans => {
                &&& m == feeling(dawning(s).0)
                &&& self.report == dawning(s).1
                &&& self.is_undecided()
            },
            Phase::Answers | Phase::Habits => {
                &&& (m, self.report) == self.thought()
                &&& self.deliberates()
                &&& self.next <= m.flagged.len()
                &&& unplanned_from(m, self.next as int)
                &&& self.phase == Phase::Answers ==> self.model is Some && self.next == 0
                &&& self.model is None ==> self.is_habit(self.next as nat)
            },
            Phase::Weighing | Phase::Asking | Phase::Waiting | Phase::Acting => {
                &&& (m, self.report) == self.thought()
                &&& self.is_settled()
                &&& self.phase == Phase::Asking ==> forall|k: int|
                    0 <= k < self.round.order@.len() ==> (#[trigger] self.round.order@[k]) < self.candidates@.len()
                        && self.candidates@[self.round.order@[k] as int].place < m.town.people.len()
                &&& self.phase != Phase::Acting ==> self.model is Some
            },
            Phase::Meeting => {
                &&& (m, self.report) == acting(self.thought().0, self.thought().1)
                &&& self.is_settled()
            },
            Phase::Bearing | Phase::Labour => {
                let (e, re) = self.convened();
                &&& self.is_settled()
                &&& self.due@ == due_in(e.town.people, e.town.people.len(), e.tick)
                &&& self.next <= self.due@.len()
                &&& self.deviates@.len() == self.next
                &&& forall|k: int| 0 <= k < self.due@.len() ==> (#[trigger] self.due@[k]) < m.town.people.len()
                &&& if self.phase == Phase::Bearing {
                    (m, self.report) == self.borne(self.next as nat)
                } else {
                    let (f, rf) = self.borne(self.next as nat);
                    &&& self.next < self.due@.len()
                    &&& (m, self.labour) == labouring(f, rf, self.due@[self.next as int] as int)
                    &&& self.report == rf
                    &&& self.labour matches Some(l) && l.place < m.town.people.len() && m.ground.inside(
                        l.x as int,
                        l.y as int,
                    )
                }
            },
            Phase::Ending => {
                let (e, re) = self.convened();
                &&& self.is_settled()
                &&& self.due@ == due_in(e.town.people, e.town.people.len(), e.tick)
                &&& (m, self.report) == self.borne(self.due@.len())
            },
            Phase::Closing => {
                let (e, re) = self.convened();
                let (f, rf) = self.borne(self.due@.len());
                &&& self.is_settled()
                &&& self.due@ == due_in(e.town.people, e.town.people.len(), e.tick)
                &&& (m, self.report) == ending(f, rf)
            },
            Phase::Over => {
                let (e, re) = self.convened();
                &&& self.is_settled()
                &&& self.due@ == due_in(e.town.people, e.town.people.len(), e.tick)
                &&& (m, self.report) == ticked(s, self.decisions())
                &&& self.report.tick == s.tick + 1
                &&& m.tick == s.tick + 1
                &&& self.report.acted == s.town.people.len()
            },
        }
    }

    /// Nothing has been decided yet.
    pub open spec fn is_undecided(&self) -> bool {
        self.moves@ == Seq::<Move>::empty() && self.plans@ == Seq::<(PlanV, Stream)>::empty()
    }

    /// Whatever was decided is about somebody.
    pub open spec fn deliberates(&self) -> bool {
        are_about(self.moves@, self.start@.town.people.len())
    }

    /// What habit decided, for the first `n` of the flagged, and nothing else.
    pub open spec fn is_habit(&self, n: nat) -> bool {
        let (a, r) = opening(self.start@);
        &&& self.plans@.len() == n
        &&& self.moves@ == habit_moves(a, r, a.flagged, self.plans@, n)
    }

    /// Everybody has a plan, and where no model is asked everything was decided by
    /// habit.
    pub open spec fn is_settled(&self) -> bool {
        let b = self.thought().0;
        &&& self.deliberates()
        &&& forall|i: int| 0 <= i < b.town.people.len() ==> (#[trigger] b.town.people[i]).plan is Some
        &&& self.model is None ==> self.is_habit(opening(self.start@).0.flagged.len())
    }
}

proof fn lemma_moves_prefix(a: Moment, r: TickReport, x: Seq<Move>, y: Seq<Move>, n: nat)
    requires
        n <= x.len(),
        n <= y.len(),
        forall|k: int| 0 <= k < n ==> x[k] == y[k],
    ensures
        deliberating(a, r, x, n) == deliberating(a, r, y, n),
    decreases n,
{
    if n > 0 {
        lemma_moves_prefix(a, r, x, y, (n - 1) as nat);
    }
}

proof fn lemma_moved_once_more(a: Moment, r: TickReport, moves: Seq<Move>, x: Move)
    ensures
        ({
            let (b, q) = deliberating(a, r, moves, moves.len());
            deliberating(a, r, moves.push(x), moves.push(x).len()) == moved(b, q, x)
        }),
{
    lemma_moves_prefix(a, r, moves.push(x), moves, moves.len());
}

/// No move takes anybody's plan away.
proof fn lemma_plans_stay(m: Moment, r: TickReport, x: Move, k: int)
    requires
        0 <= k < m.town.people.len(),
        m.town.people[k].plan is Some,
        x matches Move::Habit(i, _, _) ==> 0 <= i < m.town.people.len(),
        x matches Move::Question(i, _) ==> 0 <= i < m.town.people.len(),
    ensures
        moved(m, r, x).0.town.people[k].plan is Some,
{
    if let Move::Answer(done, verdict, cost, model) = x {
        law_an_answer_takes_no_plan_away(m.desk(r), &done, &verdict, cost, &model, m.scene(), k);
    }
}

/// A move leaves no more people wanting a plan than there were.
proof fn lemma_wants_no_more(m: Moment, r: TickReport, x: Move, i: int)
    requires
        x matches Move::Habit(i, _, _) ==> 0 <= i < m.town.people.len(),
        x matches Move::Question(i, _) ==> 0 <= i < m.town.people.len(),
        wants_plan(moved(m, r, x).0, i),
    ensures
        wants_plan(m, i),
        moved(m, r, x).0.town.people.len() == m.town.people.len(),
{
    if let Move::Answer(done, verdict, cost, model) = x {
        crate::town::lemma_place(m.town.people, done.creature_id);
    }
    if m.town.people[i].plan is Some {
        lemma_plans_stay(m, r, x, i);
    }
}

proof fn lemma_bearing_prefix(e: Moment, r: TickReport, due: Seq<usize>, x: Seq<Deviates>, y: Seq<Deviates>, n: nat)
    requires
        n <= x.len(),
        n <= y.len(),
        forall|k: int| 0 <= k < n ==> x[k] == y[k],
    ensures
        bearing(e, r, due, x, n) == bearing(e, r, due, y, n),
    decreases n,
{
    if n > 0 {
        lemma_bearing_prefix(e, r, due, x, y, (n - 1) as nat);
    }
}

proof fn lemma_habit_prefix(
    a: Moment,
    r: TickReport,
    places: Seq<usize>,
    x: Seq<(PlanV, Stream)>,
    y: Seq<(PlanV, Stream)>,
    n: nat,
)
    requires
        n <= x.len(),
        n <= y.len(),
        forall|k: int| 0 <= k < n ==> x[k] == y[k],
    ensures
        habit_moves(a, r, places, x, n) == habit_moves(a, r, places, y, n),
    decreases n,
{
    if n > 0 {
        lemma_habit_prefix(a, r, places, x, y, (n - 1) as nat);
    }
}

proof fn lemma_flagged(people: Seq<CreatureV>, n: nat, crit: Num, tick: i64, i: int)
    requires
        0 <= i < n <= people.len() <= u32::MAX,
        reviewed(people[i], crit, tick).flagged,
    ensures
        exists|k: int| 0 <= k < flagged_in(people, n, crit, tick).len() && #[trigger] flagged_in(people, n, crit, tick)[k]
            == i,
    decreases n,
{
    let all = flagged_in(people, n, crit, tick);
    let before = flagged_in(people, (n - 1) as nat, crit, tick);
    if i < n - 1 {
        lemma_flagged(people, (n - 1) as nat, crit, tick, i);
        let k = choose|k: int| 0 <= k < before.len() && #[trigger] before[k] == i;
        assert(all[k] == i);
    } else {
        assert(all[before.len() as int] == i);
    }
}

/// Whoever has no plan after a review is flagged.
proof fn lemma_review_flags(b: Moment, r: TickReport)
    requires
        b.town.people.len() <= u32::MAX,
    ensures
        unplanned_from(reviewing(b, r).0, 0),
{
    reveal(reviewing);
    let m = reviewing(b, r).0;
    let crit = b.cfg.needs.critical_threshold;
    let flags = flagged_in(b.town.people, b.town.people.len(), crit, b.tick);
    assert(m.flagged == flags);
    assert forall|i: int| #[trigger] wants_plan(m, i) implies exists|k: int|
        0 <= k < m.flagged.len() && #[trigger] m.flagged[k] == i by {
        assert(m.town.people[i] == reviewed(b.town.people[i], crit, b.tick).c);
        law_whoever_has_no_plan_is_flagged(b.town.people[i], crit, b.tick);
        lemma_flagged(b.town.people, b.town.people.len(), crit, b.tick, i);
        let k = choose|k: int| 0 <= k < flags.len() && #[trigger] flags[k] == i;
        assert(m.flagged[k] == i);
    }
}

/// Taking an answer, or putting a question, or giving up calls: a move that leaves
/// the flagged as they are, and wants for no more plans.
proof fn lemma_wants_follow(m: Moment, r: TickReport, x: Move, next: int)
    requires
        unplanned_from(m, next),
        x matches Move::Habit(i, _, _) ==> 0 <= i < m.town.people.len(),
        x matches Move::Question(i, _) ==> 0 <= i < m.town.people.len(),
    ensures
        unplanned_from(moved(m, r, x).0, next),
{
    let b = moved(m, r, x).0;
    assert(b.flagged == m.flagged);
    assert forall|i: int| #[trigger] wants_plan(b, i) implies exists|k: int|
        next <= k < b.flagged.len() && #[trigger] b.flagged[k] == i by {
        lemma_wants_no_more(m, r, x, i);
        let k = choose|k: int| next <= k < m.flagged.len() && #[trigger] m.flagged[k] == i;
        assert(b.flagged[k] == i);
    }
}

/// Everything about a run that a tick leaves alone.
pub open spec fn same_run(after: &Sim, before: &Sim) -> bool {
    &&& after.world_id == before.world_id
    &&& after.seed == before.seed
    &&& after.mode == before.mode
    &&& after.selected == before.selected
    &&& after.ticks_per_second == before.ticks_per_second
    &&& after.ctx.cfg == before.ctx.cfg
    &&& after.ground() == before.ground()
    &&& after.cache == before.cache
}

/// The diaries after some news: those of the dead are closed when lives end, and
/// what happened is noted down when the tick closes.
pub open spec fn diaries_after(phase: Phase, after: &Sim, before: &Sim) -> Map<i64, Seq<Seq<char>>> {
    match phase {
        Phase::Ending => closed_books(
            before.diaries@,
            people_of(after.pending_dead@),
            before.pending_dead@.len(),
            after.pending_dead@.len(),
        ),
        Phase::Closing => all_noted_down(before.diaries@, before.moment().log, before.moment().log.len()),
        _ => before.diaries@,
    }
}

/// What one step does to a course and its run.
pub open spec fn stepped(after: &Course, sim: &Sim, before: &Course, was: &Sim, news: News) -> bool {
    &&& sim.wf()
    &&& after.follows(sim)
    &&& after.start == before.start
    &&& (after@, sim.moment()) == advanced(before@, was.moment(), was.mode, news)
    &&& same_run(sim, was)
    &&& sim.diaries@ == diaries_after(before.phase, sim, was)
    &&& sim.population_maintained == (was.population_maintained || (before.phase == Phase::Ending
        && was.ctx.cfg.bench.maintain_population is Some))
}

impl Course {
    /// A tick about to begin.
    pub fn begin(sim: &Sim, model: Option<Model>, budget: u32) -> (c: Self)
        requires
            sim.wf(),
        ensures
            c.follows(sim),
            c.start@ == sim.moment(),
            c@ == (CourseV {
                phase: Phase::World,
                report: TickReport::blank(sim.ctx.tick),
                model,
                budget,
                next: 0,
                candidates: Seq::empty(),
                round: AskingV { order: Seq::empty(), next: 0, sent: 0, budget },
                due: Seq::empty(),
                labour: None,
            }),
    {
        proof {
            reveal(Course::follows);
        }
        assert(sim.persons().len() == sim.town.creatures@.len());
        Course {
            phase: Phase::World,
            report: TickReport::new(sim.ctx.tick),
            model,
            budget,
            next: 0,
            candidates: Vec::new(),
            round: Asking { order: Vec::new(), next: 0, sent: 0, budget },
            due: Vec::new(),
            labour: None,
            start: Ghost(sim.moment()),
            moves: Ghost(Seq::empty()),
            plans: Ghost(Seq::empty()),
            deviates: Ghost(Seq::empty()),
        }
    }

    /// What is wanted next.
    pub fn errand(&self, sim: &Sim) -> (e: Errand)
        requires
            sim.wf(),
            self.follows(sim),
        ensures
            e == errand_of(self@, sim.moment()),
    {
        proof {
            reveal(Course::follows);
        }
        match self.phase {
            Phase::Answers => Errand::Collect,
            Phase::Habits => {
                if self.next < sim.flagged.len() {
                    let i = sim.flagged[self.next];
                    assert(sim.persons().len() == sim.town.creatures@.len());
                    if i < sim.town.creatures.len() {
                        assert(sim.persons()[i as int] == sim.town.creatures@[i as int]@);
                        if sim.town.creatures[i].plan.is_none() {
                            return Errand::Decide(i);
                        }
                    }
                }
                Errand::Proceed
            },
            Phase::Weighing => Errand::Weigh,
            Phase::Asking => match self.round.whom(true) {
                Some(k) => Errand::Ask(k),
                None => Errand::Proceed,
            },
            Phase::Waiting => Errand::Await,
            Phase::Labour => match self.labour {
                Some(l) => Errand::Deliver(l),
                None => Errand::Rest,
            },
            Phase::Over => Errand::Rest,
            _ => Errand::Proceed,
        }
    }
}

impl Course {
    /// The world turns.
    fn turn(&mut self, sim: &mut Sim)
        requires
            old(sim).wf(),
            old(self).follows(old(sim)),
            old(self).phase == Phase::World,
            old(sim).roomy(),
        ensures
            stepped(final(self), final(sim), old(self), old(sim), News::Go),
    {
        proof {
            reveal(Course::follows);
            reveal(advanced);
        }
        self.report = sim.begin_tick();
        self.phase = Phase::Needs;
    }

    /// Needs are felt.
    fn feel(&mut self, sim: &mut Sim)
        requires
            old(sim).wf(),
            old(self).follows(old(sim)),
            old(self).phase == Phase::Needs,
        ensures
            stepped(final(self), final(sim), old(self), old(sim), News::Go),
    {
        proof {
            reveal(Course::follows);
            reveal(advanced);
        }
        sim.feel_needs();
        self.phase = Phase::Plans;
    }

    /// Commitments are reviewed.
    fn review(&mut self, sim: &mut Sim)
        requires
            old(sim).wf(),
            old(self).follows(old(sim)),
            old(self).phase == Phase::Plans,
        ensures
            stepped(final(self), final(sim), old(self), old(sim), News::Go),
    {
        proof {
            reveal(Course::follows);
            reveal(advanced);
        }
        let ghost s = self.start@;
        let ghost b = sim.moment();
        let ghost r = self.report;
        assert(sim.persons().len() == sim.town.creatures@.len());
        let mut report = self.report;
        sim.review_plans(&mut report);
        self.report = report;
        self.next = 0;
        self.phase = if self.model.is_some() {
            Phase::Answers
        } else {
            Phase::Habits
        };
        proof {
            lemma_opening(s);
            lemma_review_flags(b, r);
            assert(self.is_undecided());
        }
    }

    /// Takes note of a move that has been made.
    proof fn lemma_noted(before: &Course, after: &Course, x: Move)
        requires
            after.start == before.start,
            after.moves@ == before.moves@.push(x),
            before.deliberates(),
            x matches Move::Habit(i, _, _) ==> 0 <= i < before.start@.town.people.len(),
            x matches Move::Question(i, _) ==> 0 <= i < before.start@.town.people.len(),
        ensures
            after.thought() == moved(before.thought().0, before.thought().1, x),
            after.deliberates(),
    {
        let (a, r) = opening(before.start@);
        lemma_moved_once_more(a, r, before.moves@, x);
        assert forall|k: int| 0 <= k < after.moves@.len() implies match #[trigger] after.moves@[k] {
            Move::Habit(i, _, _) => 0 <= i < before.start@.town.people.len(),
            Move::Question(i, _) => 0 <= i < before.start@.town.people.len(),
            _ => true,
        } by {
            if k < before.moves@.len() {
                assert(after.moves@[k] == before.moves@[k]);
            }
        }
    }

    /// Nobody comes, goes or is flagged while a tick is thought over.
    proof fn lemma_count(&self)
        requires
            self.deliberates(),
        ensures
            self.thought().0.town.people.len() == self.start@.town.people.len(),
            self.thought().0.flagged == opening(self.start@).0.flagged,
    {
        let (a, r) = opening(self.start@);
        lemma_opening_count(self.start@);
        lemma_deliberating(a, r, self.moves@, self.moves@.len());
    }

    /// Where everybody had a plan, everybody has one after another move.
    proof fn lemma_still_settled(before: &Course, after: &Course, x: Move)
        requires
            after.start == before.start,
            after.moves@ == before.moves@.push(x),
            after.model == before.model,
            before.model is Some,
            before.is_settled(),
            x matches Move::Habit(i, _, _) ==> 0 <= i < before.start@.town.people.len(),
            x matches Move::Question(i, _) ==> 0 <= i < before.start@.town.people.len(),
        ensures
            after.is_settled(),
            after.thought() == moved(before.thought().0, before.thought().1, x),
            after.thought().0.town.people.len() == before.thought().0.town.people.len(),
    {
        Course::lemma_noted(before, after, x);
        before.lemma_count();
        after.lemma_count();
        let (b, r) = before.thought();
        assert forall|i: int| 0 <= i < after.thought().0.town.people.len() implies (
        #[trigger] after.thought().0.town.people[i]).plan is Some by {
            assert(b.town.people[i].plan is Some);
            lemma_plans_stay(b, r, x, i);
        }
    }

    /// An answer is taken.
    fn hear(&mut self, sim: &mut Sim, done: Completion, verdict: Verdict, cost: ThinkCost)
        requires
            old(sim).wf(),
            old(self).follows(old(sim)),
            old(self).phase == Phase::Answers || old(self).phase == Phase::Waiting,
            is_judgeable(&verdict, &old(sim).ctx.world),
            routes_hold(old(sim).ground(), &verdict),
        ensures
            stepped(final(self), final(sim), old(self), old(sim), News::Answer(done, verdict, cost)),
    {
        proof {
            reveal(Course::follows);
            reveal(advanced);
        }
        let ghost m = sim.moment();
        let ghost before = *self;
        let ghost (told, judged) = (done, verdict);
        let mut report = self.report;
        match &self.model {
            Some(model) => {
                sim.take_answer(&done, verdict, cost, model, &mut report);
            },
            None => {
                return ;
            },
        }
        self.report = report;
        let ghost x = Move::Answer(told, judged, cost, before.model->Some_0);
        self.moves = Ghost(self.moves@.push(x));
        proof {
            Course::lemma_noted(&before, self, x);
            before.lemma_count();
            self.lemma_count();
            if before.phase == Phase::Waiting {
                Course::lemma_still_settled(&before, self, x);
            } else {
                lemma_wants_follow(m, before.report, x, before.next as int);
            }
        }
    }

    /// Somebody is given the plan that habit made.
    fn adopt(&mut self, sim: &mut Sim, plan: Plan, rng: Stream)
        requires
            old(sim).wf(),
            old(self).follows(old(sim)),
            old(self).phase == Phase::Habits,
            errand_of(old(self)@, old(sim).moment()) is Decide,
            plan_holds(old(sim).ground(), Some(plan@)),
        ensures
            stepped(final(self), final(sim), old(self), old(sim), News::Habit(plan, rng)),
    {
        proof {
            reveal(Course::follows);
            reveal(advanced);
        }
        let ghost m = sim.moment();
        let ghost before = *self;
        let ghost made = plan@;
        let i = sim.flagged[self.next];
        assert(sim.flagged@.len() == sim.flagged.len());
        assert(sim.persons().len() == sim.town.creatures@.len());
        sim.ctx.rng = rng;
        assert(sim.moment() == (Moment { rng, ..m }));
        let mut report = self.report;
        sim.adopt_reflex(i, plan, self.model.is_some(), &mut report);
        self.report = report;
        self.next = self.next + 1;
        let ghost (x, y) = (Move::Drawn(rng), Move::Habit(i as int, made, before.model is Some));
        self.moves = Ghost(self.moves@.push(x).push(y));
        self.plans = Ghost(self.plans@.push((made, rng)));
        proof {
            let mid = Course { moves: Ghost(before.moves@.push(x)), ..before };
            before.lemma_count();
            Course::lemma_noted(&before, &mid, x);
            Course::lemma_noted(&mid, self, y);
            self.lemma_count();
            let drawn = moved(m, before.report, x).0;
            let after = sim.moment();
            assert forall|j: int| #[trigger] wants_plan(after, j) implies exists|k: int|
                before.next + 1 <= k < after.flagged.len() && #[trigger] after.flagged[k] == j by {
                lemma_wants_no_more(drawn, before.report, y, j);
                assert(wants_plan(m, j));
                let k = choose|k: int| before.next <= k < m.flagged.len() && #[trigger] m.flagged[k] == j;
                assert(after.flagged[k] == j);
            }
            if before.model is None {
                let (a, r) = opening(before.start@);
                lemma_habit_prefix(a, r, a.flagged, self.plans@, before.plans@, before.next as nat);
            }
        }
    }

    /// Somebody who has a plan is passed over; once all have had their turn, those
    /// who want to think are asked.
    fn pass(&mut self, sim: &mut Sim)
        requires
            old(sim).wf(),
            old(self).follows(old(sim)),
            old(self).phase == Phase::Habits,
            errand_of(old(self)@, old(sim).moment()) is Proceed,
        ensures
            stepped(final(self), final(sim), old(self), old(sim), News::Go),
    {
        proof {
            reveal(Course::follows);
            reveal(advanced);
        }
        let ghost m = sim.moment();
        let ghost before = *self;
        proof {
            before.lemma_count();
        }
        if self.next < sim.flagged.len() {
            self.next = self.next + 1;
            self.plans = Ghost(self.plans@.push(arbitrary()));
            proof {
                assert forall|j: int| #[trigger] wants_plan(m, j) implies exists|k: int|
                    before.next + 1 <= k < m.flagged.len() && #[trigger] m.flagged[k] == j by {
                    let k = choose|k: int| before.next <= k < m.flagged.len() && #[trigger] m.flagged[k] == j;
                    assert(k != before.next);
                }
                if before.model is None {
                    let (a, r) = opening(before.start@);
                    lemma_habit_prefix(a, r, a.flagged, self.plans@, before.plans@, before.next as nat);
                }
            }
            return ;
        }
        proof {
            assert forall|j: int| 0 <= j < m.town.people.len() implies (#[trigger] m.town.people[j]).plan is Some by {
                assert(!wants_plan(m, j));
            }
            assert(before.is_settled());
        }
        if self.model.is_some() && sim.ctx.cfg.features.llm && self.budget > 0 {
            let ttl = sim.ctx.cfg.deliberation.dispatch_ttl_ticks;
            expire_calls(&mut sim.thinking, ttl, sim.ctx.tick);
            self.phase = Phase::Weighing;
            let ghost x = Move::Lapse(ttl);
            self.moves = Ghost(self.moves@.push(x));
            proof {
                assert(sim.moment() == moved(m, before.report, x).0);
                Course::lemma_still_settled(&before, self, x);
            }
        } else {
            self.leave_asking(sim);
        }
    }

    /// Nobody else is to be asked.
    fn leave_asking(&mut self, sim: &Sim)
        ensures
            final(self)@ == done_asking(old(self)@, sim.moment(), sim.mode),
            *final(self) == (Course { phase: final(self).phase, ..*old(self) }),
    {
        self.phase = if self.model.is_some() && sim.mode == SpeedMode::Deep && sim.thinking.waiting.calls.len() > 0 {
            Phase::Waiting
        } else {
            Phase::Acting
        };
    }

    /// Nobody else is to be asked, and the round is over.
    fn end_round(&mut self, sim: &Sim)
        requires
            sim.wf(),
            old(self).follows(sim),
            old(self).phase == Phase::Asking,
            errand_of(old(self)@, sim.moment()) is Proceed,
        ensures
            stepped(final(self), sim, old(self), sim, News::Go),
    {
        proof {
            reveal(Course::follows);
            reveal(advanced);
        }
        self.leave_asking(sim);
    }

    /// No answer is back. The tick goes on waiting while any is out, unless it has
    /// been given up.
    fn hear_none(&mut self, sim: &Sim, given_up: bool)
        requires
            sim.wf(),
            old(self).follows(sim),
            old(self).phase == Phase::Answers || old(self).phase == Phase::Waiting,
        ensures
            stepped(
                final(self),
                sim,
                old(self),
                sim,
                if given_up {
                    News::GivenUp
                } else {
                    News::NoAnswer
                },
            ),
    {
        proof {
            reveal(Course::follows);
            reveal(advanced);
        }
        if self.phase == Phase::Answers {
            self.phase = Phase::Habits;
        } else if given_up || sim.thinking.waiting.calls.len() == 0 {
            self.phase = Phase::Acting;
        }
    }

    /// Those who might be asked are ranked.
    fn weigh(&mut self, sim: &Sim, candidates: Vec<Candidate>)
        requires
            sim.wf(),
            old(self).follows(sim),
            old(self).phase == Phase::Weighing,
        ensures
            stepped(final(self), sim, old(self), sim, News::Weighed(candidates)),
    {
        proof {
            reveal(Course::follows);
            reveal(advanced);
        }
        assert(candidates@.len() == candidates.len());
        self.round = Asking::begin(&candidates, &sim.town.creatures, &sim.thinking.waiting, self.budget);
        self.candidates = candidates;
        self.phase = Phase::Asking;
        proof {
            let m = sim.moment();
            assert forall|k: int| 0 <= k < self.round.order@.len() implies (#[trigger] self.round.order@[k])
                < self.candidates@.len() && self.candidates@[self.round.order@[k] as int].place
                < m.town.people.len() by {
                law_nobody_is_asked_twice(candidates@, m.town.people, m.calls, k);
            }
        }
    }

    /// A question has been put, or could not be.
    fn post(&mut self, sim: &mut Sim, p: Posting, cost: ThinkCost)
        requires
            old(sim).wf(),
            old(self).follows(old(sim)),
            old(self).phase == Phase::Asking,
            errand_of(old(self)@, old(sim).moment()) is Ask,
        ensures
            stepped(final(self), final(sim), old(self), old(sim), News::Posted(p, cost)),
    {
        proof {
            reveal(Course::follows);
            reveal(advanced);
        }
        let ghost before = *self;
        let ghost m = sim.moment();
        let place = self.candidates[self.round.order[self.round.next]].place;
        assert(sim.persons().len() == sim.town.creatures@.len());
        proof {
            before.lemma_count();
        }
        if p == Posting::Sent {
            let mut report = self.report;
            sim.ask(place, cost, &mut report);
            self.report = report;
            let ghost x = Move::Question(place as int, cost);
            self.moves = Ghost(self.moves@.push(x));
            proof {
                Course::lemma_still_settled(&before, self, x);
            }
        }
        self.round.note(p);
    }

    /// Everybody acts.
    fn act(&mut self, sim: &mut Sim)
        requires
            old(sim).wf(),
            old(self).follows(old(sim)),
            old(self).phase == Phase::Acting,
            old(sim).roomy(),
        ensures
            stepped(final(self), final(sim), old(self), old(sim), News::Go),
    {
        proof {
            reveal(Course::follows);
            reveal(advanced);
        }
        let mut report = self.report;
        sim.act(&mut report);
        self.report = report;
        self.phase = Phase::Meeting;
    }

    /// Everything that takes two is settled.
    fn convene(&mut self, sim: &mut Sim)
        requires
            old(sim).wf(),
            old(self).follows(old(sim)),
            old(self).phase == Phase::Meeting,
            old(sim).roomy(),
        ensures
            stepped(final(self), final(sim), old(self), old(sim), News::Go),
    {
        proof {
            reveal(Course::follows);
            reveal(advanced);
        }
        let mut report = self.report;
        self.due = sim.meet(&mut report);
        self.report = report;
        self.next = 0;
        self.phase = Phase::Bearing;
        self.deviates = Ghost(Seq::empty());
        assert(sim.persons().len() == sim.town.creatures@.len());
    }

    /// The next birth begins, if one is due.
    fn bear(&mut self, sim: &mut Sim)
        requires
            old(sim).wf(),
            old(self).follows(old(sim)),
            old(self).phase == Phase::Bearing,
        ensures
            stepped(final(self), final(sim), old(self), old(sim), News::Go),
    {
        proof {
            reveal(Course::follows);
            reveal(advanced);
        }
        let ghost before = *self;
        assert(sim.persons().len() == sim.town.creatures@.len());
        if self.next >= self.due.len() {
            self.phase = Phase::Ending;
            return ;
        }
        let place = self.due[self.next];
        let labour = sim.begin_birth(place, &self.report);
        assert(sim.persons().len() == sim.town.creatures@.len());
        if labour.is_some() {
            self.labour = labour;
            self.phase = Phase::Labour;
        } else {
            self.next = self.next + 1;
            self.deviates = Ghost(self.deviates@.push(arbitrary()));
            proof {
                let (e, re) = before.convened();
                lemma_bearing_prefix(e, re, self.due@, self.deviates@, before.deviates@, before.next as nat);
            }
        }
    }

    /// A child is there.
    fn deliver(&mut self, sim: &mut Sim, l: Labour, z: Deviates)
        requires
            old(sim).wf(),
            old(self).follows(old(sim)),
            old(self).phase == Phase::Labour,
            old(self).labour == Some(l),
            old(sim).roomy(),
        ensures
            stepped(final(self), final(sim), old(self), old(sim), News::Born(z)),
    {
        proof {
            reveal(Course::follows);
            reveal(advanced);
        }
        let ghost before = *self;
        assert(sim.persons().len() == sim.town.creatures@.len());
        assert(self.due@.len() == self.due.len());
        let mut report = self.report;
        sim.finish_birth(l, z, &mut report);
        assert(sim.persons().len() == sim.town.creatures@.len());
        self.report = report;
        self.labour = None;
        self.next = self.next + 1;
        self.phase = Phase::Bearing;
        self.deviates = Ghost(self.deviates@.push(z));
        proof {
            let (e, re) = before.convened();
            lemma_bearing_prefix(e, re, self.due@, self.deviates@, before.deviates@, before.next as nat);
        }
    }

    /// Lives end.
    fn bury(&mut self, sim: &mut Sim)
        requires
            old(sim).wf(),
            old(self).follows(old(sim)),
            old(self).phase == Phase::Ending,
            old(sim).roomy(),
        ensures
            stepped(final(self), final(sim), old(self), old(sim), News::Go),
    {
        proof {
            reveal(Course::follows);
            reveal(advanced);
        }
        let mut report = self.report;
        sim.end_lives(&mut report);
        self.report = report;
        self.phase = Phase::Closing;
        assert(people_of(sim.pending_dead@).len() == sim.pending_dead@.len());
    }

    /// The tick closes.
    fn close(&mut self, sim: &mut Sim)
        requires
            old(sim).wf(),
            old(self).follows(old(sim)),
            old(self).phase == Phase::Closing,
            old(sim).roomy(),
        ensures
            stepped(final(self), final(sim), old(self), old(sim), News::Go),
    {
        proof {
            reveal(Course::follows);
            reveal(advanced);
        }
        let mut report = self.report;
        sim.close_tick(&mut report);
        self.report = report;
        self.phase = Phase::Over;
        proof {
            assert(old(sim).moment().log.len() == old(sim).ctx.events@.len());
            law_a_tick_is_one_tick(self.start@, self.decisions());
        }
    }

    /// Moves on by what came of the last errand. Where something stands in the way
    /// nothing is changed.
    pub fn advance(&mut self, sim: &mut Sim, news: News) -> (r: Result<(), Snag>)
        requires
            old(sim).wf(),
            old(self).follows(old(sim)),
        ensures
            match snag_of(old(self)@, old(sim), news) {
                None => r is Ok && stepped(final(self), final(sim), old(self), old(sim), news),
                Some(snag) => r == Err::<(), Snag>(snag) && *final(self) == *old(self) && *final(sim) == *old(sim),
            },
            final(sim).wf(),
            final(self).follows(final(sim)),
            final(self).phase == Phase::Over ==> (final(sim).moment(), final(self).report) == ticked(
                old(self).start@,
                final(self).decisions(),
            ),
    {
        proof {
            self.lemma_over(sim);
        }
        let room = match self.phase {
            Phase::World
            | Phase::Acting
            | Phase::Meeting
            | Phase::Labour
            | Phase::Ending
            | Phase::Closing => sim.has_room(),
            _ => true,
        };
        match (self.errand(sim), news) {
            (Errand::Proceed, News::Go) => {
                if !room {
                    return Err(Snag::Overgrown);
                }
                self.proceed(sim);
            },
            (Errand::Collect, News::Answer(done, verdict, cost)) => {
                if !sim.can_judge(&verdict) {
                    return Err(Snag::OffMap);
                }
                self.hear(sim, done, verdict, cost);
            },
            (Errand::Await, News::Answer(done, verdict, cost)) => {
                if !sim.can_judge(&verdict) {
                    return Err(Snag::OffMap);
                }
                self.hear(sim, done, verdict, cost);
            },
            (Errand::Collect, News::NoAnswer) => {
                self.hear_none(sim, false);
            },
            (Errand::Await, News::NoAnswer) => {
                self.hear_none(sim, false);
            },
            (Errand::Await, News::GivenUp) => {
                self.hear_none(sim, true);
            },
            (Errand::Decide(_), News::Habit(plan, rng)) => {
                if !sim.can_follow(&plan) {
                    return Err(Snag::OffMap);
                }
                self.adopt(sim, plan, rng);
            },
            (Errand::Weigh, News::Weighed(candidates)) => {
                self.weigh(sim, candidates);
            },
            (Errand::Ask(_), News::Posted(p, cost)) => {
                self.post(sim, p, cost);
            },
            (Errand::Deliver(l), News::Born(z)) => {
                if !room {
                    return Err(Snag::Overgrown);
                }
                self.deliver(sim, l, z);
            },
            _ => {
                return Err(Snag::Unfitting);
            },
        }
        proof {
            self.lemma_over(sim);
        }
        Ok(())
    }

    /// A tick that is over is a whole tick.
    proof fn lemma_over(&self, sim: &Sim)
        requires
            self.follows(sim),
        ensures
            self.phase == Phase::Over ==> (sim.moment(), self.report) == ticked(self.start@, self.decisions()),
    {
        reveal(Course::follows);
    }

    /// Goes on where nothing is wanted from outside.
    fn proceed(&mut self, sim: &mut Sim)
        requires
            old(sim).wf(),
            old(self).follows(old(sim)),
            errand_of(old(self)@, old(sim).moment()) is Proceed,
            takes_room(old(self).phase) ==> old(sim).roomy(),
        ensures
            stepped(final(self), final(sim), old(self), old(sim), News::Go),
    {
        match self.phase {
            Phase::World => self.turn(sim),
            Phase::Needs => self.feel(sim),
            Phase::Plans => self.review(sim),
            Phase::Habits => self.pass(sim),
            Phase::Asking => self.end_round(sim),
            Phase::Acting => self.act(sim),
            Phase::Meeting => self.convene(sim),
            Phase::Bearing => self.bear(sim),
            Phase::Ending => self.bury(sim),
            Phase::Closing => self.close(sim),
            _ => {},
        }
    }
}

/// Whether the first `n` plans are those of one habit: what it makes of a moment and
/// of somebody's place, with the stream after what it drew.
pub open spec fn are_habitual(
    a: Moment,
    report: TickReport,
    places: Seq<usize>,
    plans: Seq<(PlanV, Stream)>,
    habit: spec_fn(Moment, int) -> (PlanV, Stream),
    n: nat,
) -> bool {
    forall|k: nat|
        k < n ==> {
            let before = #[trigger] habit_moves(a, report, places, plans, k);
            let m = deliberating(a, report, before, before.len()).0;
            wants_plan(m, places[k as int] as int) ==> plans[k as int] == habit(m, places[k as int] as int)
        }
}

/// Whether the first `n` children got the deviates that are made of their draws.
pub open spec fn are_drawn(
    e: Moment,
    report: TickReport,
    due: Seq<usize>,
    z: Seq<Deviates>,
    make: spec_fn(Labour) -> Deviates,
    n: nat,
) -> bool {
    forall|k: nat|
        k < n ==> {
            let (b, r) = #[trigger] bearing(e, report, due, z, k);
            labouring(b, r, due[k as int] as int).1 matches Some(l) ==> z[k as int] == make(l)
        }
}

proof fn lemma_habits_agree(
    a: Moment,
    r: TickReport,
    places: Seq<usize>,
    x: Seq<(PlanV, Stream)>,
    y: Seq<(PlanV, Stream)>,
    habit: spec_fn(Moment, int) -> (PlanV, Stream),
    n: nat,
)
    requires
        are_habitual(a, r, places, x, habit, n),
        are_habitual(a, r, places, y, habit, n),
    ensures
        habit_moves(a, r, places, x, n) == habit_moves(a, r, places, y, n),
    decreases n,
{
    if n > 0 {
        let k = (n - 1) as nat;
        lemma_habits_agree(a, r, places, x, y, habit, k);
        let before = habit_moves(a, r, places, x, k);
        assert(before == habit_moves(a, r, places, y, k));
    }
}

proof fn lemma_births_agree(
    e: Moment,
    r: TickReport,
    due: Seq<usize>,
    x: Seq<Deviates>,
    y: Seq<Deviates>,
    make: spec_fn(Labour) -> Deviates,
    n: nat,
)
    requires
        are_drawn(e, r, due, x, make, n),
        are_drawn(e, r, due, y, make, n),
    ensures
        bearing(e, r, due, x, n) == bearing(e, r, due, y, n),
    decreases n,
{
    if n > 0 {
        let k = (n - 1) as nat;
        lemma_births_agree(e, r, due, x, y, make, k);
        let before = bearing(e, r, due, x, k);
        assert(before == bearing(e, r, due, y, k));
    }
}

impl Course {
    /// Whether everybody who wanted a plan got what one habit makes, and every child
    /// the deviates that are made of its draws.
    pub open spec fn is_made_by(
        &self,
        habit: spec_fn(Moment, int) -> (PlanV, Stream),
        make: spec_fn(Labour) -> Deviates,
    ) -> bool {
        let (a, r) = opening(self.start@);
        let (e, re) = self.convened();
        &&& are_habitual(a, r, a.flagged, self.plans@, habit, a.flagged.len())
        &&& are_drawn(e, re, self.due@, self.deviates@, make, self.due@.len())
    }
}

/// A tick that has been run is one tick: it is counted and reported as the next, and
/// everybody who was alive before it has acted.
pub proof fn law_everybody_acts_in_every_tick(c: &Course, sim: &Sim)
    requires
        c.follows(sim),
        c.phase == Phase::Over,
    ensures
        sim.ctx.tick == c.start@.tick + 1,
        c.report.tick == c.start@.tick + 1,
        c.report.acted == c.start@.town.people.len(),
{
    reveal(Course::follows);
    assert(sim.moment().tick == sim.ctx.tick);
}

/// Two runs that were alike, and have each run a tick in which the same was decided,
/// are at the same moment: the same people and world, the same digest, the same
/// events in the same order, the same report.
pub proof fn law_the_same_decisions_run_the_same_tick(a: &Course, sa: &Sim, b: &Course, sb: &Sim)
    requires
        sa.wf(),
        sb.wf(),
        a.follows(sa),
        b.follows(sb),
        a.phase == Phase::Over,
        b.phase == Phase::Over,
        alike_at_dawn(a.start@, b.start@),
        a.decisions() == b.decisions(),
    ensures
        sa.moment() == sb.moment(),
        sa.moment().log == sb.moment().log,
        sa.state() == sb.state(),
        a.report == b.report,
{
    reveal(Course::follows);
    law_the_same_tick_follows(a.start@, b.start@, a.decisions());
    law_the_digest_follows_the_moment(sa, sb);
}

/// Two runs that were alike, and have each run a tick without a model, by the same
/// habit and with the same way from draws to deviates, are at the same moment, and so
/// the next tick finds them alike again: from one seed comes one history, event for
/// event and digest for digest.
pub proof fn law_one_seed_runs_one_history(
    a: &Course,
    sa: &Sim,
    b: &Course,
    sb: &Sim,
    habit: spec_fn(Moment, int) -> (PlanV, Stream),
    make: spec_fn(Labour) -> Deviates,
)
    requires
        sa.wf(),
        sb.wf(),
        a.follows(sa),
        b.follows(sb),
        a.phase == Phase::Over,
        b.phase == Phase::Over,
        a.model is None,
        b.model is None,
        alike_at_dawn(a.start@, b.start@),
        a.is_made_by(habit, make),
        b.is_made_by(habit, make),
    ensures
        sa.moment() == sb.moment(),
        sa.moment().log == sb.moment().log,
        sa.state() == sb.state(),
        a.report == b.report,
        alike_at_dawn(sa.moment(), sb.moment()),
        sa.ctx.tick == a.start@.tick + 1,
        a.report.tick == a.start@.tick + 1,
        a.report.acted == a.start@.town.people.len(),
{
    reveal(Course::follows);
    let s = a.start@;
    law_the_same_tick_follows(s, b.start@, b.decisions());
    let (o, r) = opening(s);
    assert(opening(b.start@) == (o, r));
    lemma_habits_agree(o, r, o.flagged, a.plans@, b.plans@, habit, o.flagged.len());
    assert(a.moves@ == b.moves@);
    assert(a.convened() == b.convened());
    let (e, re) = a.convened();
    assert(a.due@ == b.due@);
    lemma_births_agree(e, re, a.due@, a.deviates@, b.deviates@, make, a.due@.len());
    assert(ticked(s, a.decisions()) == ticked(s, b.decisions()));
    law_the_digest_follows_the_moment(sa, sb);
    assert(sa.moment().tick == sa.ctx.tick);
}

} // verus!
