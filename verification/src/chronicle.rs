//! What is kept of what happened: a short diary for each creature, and a log in
//! which the routine is folded into counts.

use crate::event::{event_of, log_of, Event, EventKind, EventV};
use crate::lists::{
    count_where, first_where, lemma_count_where_bound, lemma_filter_start, lemma_filter_step, lemma_first_where,
    lemma_first_where_is,
};
use crate::num::{num, Num, NOTHING};
use crate::text::{integer, integer_text};
use crate::town::say;
use vstd::prelude::*;
use vstd::string::*;

verus! {

/// How many lines a diary holds.
pub const DIARY_LINES: usize = 4;

/// The last few things of note that happened to one creature, newest first.
#[derive(Debug)]
pub struct Page {
    pub id: i64,
    pub lines: Vec<String>,
}

/// A diary for every creature to which anything has happened.
#[derive(Debug)]
pub struct Diaries {
    pub pages: Vec<Page>,
}

pub open spec fn is_page_of(id: i64) -> spec_fn(Page) -> bool {
    |p: Page| p.id == id
}

/// The place of a creature's page, or the length.
pub open spec fn page_at(pages: Seq<Page>, id: i64) -> int {
    first_where(pages, is_page_of(id))
}

pub open spec fn lines_of(lines: Seq<String>) -> Seq<Seq<char>> {
    Seq::new(lines.len(), |i: int| lines[i]@)
}

/// The diaries by whom they are about.
pub open spec fn book_of(pages: Seq<Page>) -> Map<i64, Seq<Seq<char>>> {
    Map::new(
        |id: i64| page_at(pages, id) < pages.len(),
        |id: i64| lines_of(pages[page_at(pages, id)].lines@),
    )
}

impl View for Diaries {
    type V = Map<i64, Seq<Seq<char>>>;

    open spec fn view(&self) -> Map<i64, Seq<Seq<char>>> {
        book_of(self.pages@)
    }
}

pub open spec fn or_zero(id: Option<i64>) -> int {
    match id {
        Some(id) => id as int,
        None => 0,
    }
}

/// What an event reads like to the creature it happened to. Some are not for it
/// to read: it will not be reading of its own death.
pub open spec fn account_of(e: EventV) -> Option<Seq<char>> {
    match e.kind {
        EventKind::Paired => Some("you paired with #"@ + integer_text(or_zero(e.target_id))),
        EventKind::Rejected => Some("#"@ + integer_text(or_zero(e.target_id)) + " turned you down"@),
        EventKind::Conceived => Some("you are expecting a child"@),
        EventKind::ShelterBuilt => Some("you built a shelter"@),
        EventKind::HouseholdFounded => Some("you founded a household"@),
        EventKind::Taught => Some("you taught #"@ + integer_text(or_zero(e.target_id))),
        EventKind::Injured => Some("you were hurt working"@),
        EventKind::FellIll => Some("you fell ill"@),
        EventKind::Slaughtered => Some("you killed a sheep"@),
        EventKind::Planted => Some("you planted wheat"@),
        EventKind::ExposedNight => Some("you spent a night in the open"@),
        _ => None,
    }
}

fn account(e: &Event) -> (r: Option<String>)
    ensures
        r is Some == account_of(e@) is Some,
        r matches Some(s) ==> account_of(e@) == Some(s@),
{
    let target = match e.target_id {
        Some(id) => id,
        None => 0,
    };
    match e.kind {
        EventKind::Paired => {
            let mut s = "you paired with #".to_owned();
            s.append(integer(target).as_str());
            Some(s)
        },
        EventKind::Rejected => {
            let mut s = "#".to_owned();
            s.append(integer(target).as_str());
            s.append(" turned you down");
            Some(s)
        },
        EventKind::Conceived => Some("you are expecting a child".to_owned()),
        EventKind::ShelterBuilt => Some("you built a shelter".to_owned()),
        EventKind::HouseholdFounded => Some("you founded a household".to_owned()),
        EventKind::Taught => {
            let mut s = "you taught #".to_owned();
            s.append(integer(target).as_str());
            Some(s)
        },
        EventKind::Injured => Some("you were hurt working".to_owned()),
        EventKind::FellIll => Some("you fell ill".to_owned()),
        EventKind::Slaughtered => Some("you killed a sheep".to_owned()),
        EventKind::Planted => Some("you planted wheat".to_owned()),
        EventKind::ExposedNight => Some("you spent a night in the open".to_owned()),
        _ => None,
    }
}

/// A diary with a line at its head, and no more lines than it holds.
pub open spec fn headed(lines: Seq<Seq<char>>, line: Seq<char>) -> Seq<Seq<char>> {
    let all = seq![line] + lines;
    if all.len() > DIARY_LINES {
        all.take(DIARY_LINES as int)
    } else {
        all
    }
}

pub open spec fn diary_in(book: Map<i64, Seq<Seq<char>>>, id: i64) -> Seq<Seq<char>> {
    if book.contains_key(id) {
        book[id]
    } else {
        Seq::empty()
    }
}

/// The diaries once an event has been written down.
pub open spec fn noted_down(book: Map<i64, Seq<Seq<char>>>, e: EventV) -> Map<i64, Seq<Seq<char>>> {
    match (e.actor_id, account_of(e)) {
        (Some(actor), Some(line)) if actor != 0 => book.insert(
            actor,
            headed(diary_in(book, actor), "just now: "@ + line),
        ),
        _ => book,
    }
}

pub open spec fn all_noted_down(book: Map<i64, Seq<Seq<char>>>, log: Seq<EventV>, n: nat) -> Map<i64, Seq<Seq<char>>>
    decreases n,
{
    if n == 0 {
        book
    } else {
        noted_down(all_noted_down(book, log, (n - 1) as nat), log[n - 1])
    }
}

proof fn lemma_page(pages: Seq<Page>, id: i64)
    ensures
        0 <= page_at(pages, id) <= pages.len(),
        page_at(pages, id) < pages.len() ==> pages[page_at(pages, id)].id == id,
{
    lemma_first_where(pages, is_page_of(id));
}

/// Other pages stay where they are when one is changed.
proof fn lemma_pages_update(pages: Seq<Page>, i: int, page: Page, id: i64)
    requires
        0 <= i < pages.len(),
        page.id == pages[i].id,
    ensures
        page_at(pages.update(i, page), id) == page_at(pages, id),
{
    let p = is_page_of(id);
    let after = pages.update(i, page);
    lemma_first_where(pages, p);
    let k = page_at(pages, id);
    assert forall|j: int| 0 <= j < k implies !p(#[trigger] after[j]) by {
        assert(!p(pages[j]));
    }
    lemma_first_where_is(after, p, k);
}

proof fn lemma_pages_push(pages: Seq<Page>, page: Page, id: i64)
    requires
        page_at(pages, page.id) == pages.len(),
    ensures
        page_at(pages.push(page), id) == if id == page.id {
            pages.len() as int
        } else if page_at(pages, id) < pages.len() {
            page_at(pages, id)
        } else {
            pages.len() as int + 1
        },
{
    let p = is_page_of(id);
    let after = pages.push(page);
    lemma_first_where(pages, p);
    let k = page_at(pages, id);
    assert forall|j: int| 0 <= j < k implies !p(#[trigger] after[j]) by {
        assert(!p(pages[j]));
    }
    let to: int = if id == page.id {
        pages.len() as int
    } else if k < pages.len() {
        k
    } else {
        pages.len() as int + 1
    };
    lemma_first_where_is(after, p, to);
}

/// Puts a line at the head of a diary, and drops what no longer fits.
fn head(lines: &mut Vec<String>, line: String)
    ensures
        lines_of(final(lines)@) == headed(lines_of(old(lines)@), line@),
{
    let ghost kept = lines@;
    lines.insert(0, line);
    let ghost all = lines@;
    assert(lines_of(all) =~= seq![line@] + lines_of(kept));
    while lines.len() > DIARY_LINES
        invariant
            lines@.len() <= all.len(),
            lines@.len() >= DIARY_LINES || lines@.len() == all.len(),
            lines@ == all.take(lines@.len() as int),
        decreases lines@.len(),
    {
        lines.pop();
    }
    assert(lines_of(lines@) =~= headed(lines_of(kept), line@));
}

impl Diaries {
    pub open spec fn wf(&self) -> bool {
        pages_distinct(self.pages@)
    }

    pub fn new() -> (r: Self)
        ensures
            r.wf(),
            r@ == Map::<i64, Seq<Seq<char>>>::empty(),
    {
        let r = Diaries { pages: Vec::new() };
        assert(r@ =~= Map::<i64, Seq<Seq<char>>>::empty());
        r
    }

    fn place(&self, id: i64) -> (i: usize)
        ensures
            i == page_at(self.pages@, id),
            i <= self.pages@.len(),
            i < self.pages@.len() ==> self.pages@[i as int].id == id,
    {
        let mut i: usize = 0;
        while i < self.pages.len() && self.pages[i].id != id
            invariant
                i <= self.pages@.len(),
                forall|j: int| 0 <= j < i ==> (#[trigger] self.pages@[j]).id != id,
            decreases self.pages@.len() - i,
        {
            i = i + 1;
        }
        proof {
            lemma_first_where_is(self.pages@, is_page_of(id), i as int);
        }
        i
    }

    /// What has happened to a creature of late, newest first.
    pub fn recent(&self, id: i64) -> (r: Vec<String>)
        ensures
            lines_of(r@) == diary_in(self@, id),
    {
        let i = self.place(id);
        let mut r: Vec<String> = Vec::new();
        if i < self.pages.len() {
            let lines = &self.pages[i].lines;
            for k in 0..lines.len()
                invariant
                    r@.len() == k,
                    forall|j: int| 0 <= j < k ==> (#[trigger] r@[j])@ == lines@[j]@,
            {
                r.push(lines[k].clone());
            }
        }
        assert(lines_of(r@) =~= diary_in(self@, id));
        r
    }

    fn write(&mut self, id: i64, line: String)
        requires
            old(self).wf(),
        ensures
            final(self).wf(),
            final(self)@ == old(self)@.insert(id, headed(diary_in(old(self)@, id), line@)),
    {
        let ghost before = self.pages@;
        let i = self.place(id);
        if i == self.pages.len() {
            self.pages.push(Page { id, lines: Vec::new() });
            proof {
                assert forall|k: i64| true implies #[trigger] page_at(self.pages@, k) == if k == id {
                    before.len() as int
                } else if page_at(before, k) < before.len() {
                    page_at(before, k)
                } else {
                    before.len() as int + 1
                } by {
                    lemma_pages_push(before, self.pages@[before.len() as int], k);
                    lemma_page(before, k);
                }
            }
        }
        let ghost middle = self.pages@;
        let ghost kept = middle[i as int].lines@;
        assert(pages_distinct(middle)) by {
            if i == before.len() {
                assert forall|a: int| 0 <= a < before.len() implies (#[trigger] middle[a]).id != id by {
                    lemma_first_where(before, is_page_of(id));
                    assert(!is_page_of(id)(before[a]));
                }
            }
        }
        assert(lines_of(kept) =~= diary_in(old(self)@, id));
        assert forall|k: i64| k != id implies #[trigger] diary_in(book_of(middle), k) == diary_in(
            old(self)@,
            k,
        ) && book_of(middle).contains_key(k) == old(self)@.contains_key(k) by {
            lemma_page(before, k);
            lemma_page(middle, k);
        }
        head(&mut self.pages[i].lines, line);
        proof {
            let after = self.pages@;
            let book = old(self)@.insert(id, headed(diary_in(old(self)@, id), line@));
            assert(after == middle.update(i as int, after[i as int]));
            assert(pages_distinct(after)) by {
                assert forall|a: int, b: int| 0 <= a < b < after.len() implies (#[trigger] after[a]).id != (
                #[trigger] after[b]).id by {
                    assert(middle[a].id != middle[b].id);
                }
            }
            assert forall|k: i64| true implies #[trigger] page_at(after, k) == page_at(middle, k) by {
                lemma_pages_update(middle, i as int, after[i as int], k);
            }
            assert(page_at(middle, id) == i);
            assert forall|k: i64| #[trigger] self@.contains_key(k) <==> book.contains_key(k) by {
                lemma_page(middle, k);
                assert(page_at(after, k) == page_at(middle, k));
                if k != id {
                    assert(diary_in(book_of(middle), k) == diary_in(old(self)@, k));
                }
            }
            assert forall|k: i64| #[trigger] self@.contains_key(k) implies self@[k] == book[k] by {
                lemma_page(middle, k);
                assert(page_at(after, k) == page_at(middle, k));
                if k != id {
                    assert(diary_in(book_of(middle), k) == diary_in(old(self)@, k));
                    assert(page_at(middle, k) != i);
                    assert(after[page_at(middle, k)] == middle[page_at(middle, k)]);
                }
            }
            assert(self@ =~= book);
        }
    }

    /// Keeps a short history of each creature. Written before the routine is
    /// folded away, because some of what matters to a creature is exactly what
    /// gets folded.
    pub fn record_personal_events(&mut self, events: &Vec<Event>)
        requires
            old(self).wf(),
        ensures
            final(self).wf(),
            final(self)@ == all_noted_down(old(self)@, log_of(events@), events@.len()),
    {
        let ghost book = self@;
        let ghost log = log_of(events@);
        for i in 0..events.len()
            invariant
                self.wf(),
                log == log_of(events@),
                self@ == all_noted_down(book, log, i as nat),
        {
            let e = &events[i];
            assert(log[i as int] == e@);
            if let Some(actor) = e.actor_id {
                if actor != 0 {
                    if let Some(line) = account(e) {
                        let mut s = "just now: ".to_owned();
                        s.append(line.as_str());
                        self.write(actor, s);
                    }
                }
            }
        }
    }

    /// Drops the diary of a creature. Those of others stay.
    pub fn forget(&mut self, id: i64)
        requires
            old(self).wf(),
        ensures
            final(self)@ == old(self)@.remove(id),
            final(self).wf(),
    {
        let ghost before = self.pages@;
        let i = self.place(id);
        if i < self.pages.len() {
            self.pages.remove(i);
            proof {
                assert(self.pages@ == before.remove(i as int));
                assert forall|k: i64| true implies #[trigger] page_at(self.pages@, k) == if k == id {
                    self.pages@.len() as int
                } else if page_at(before, k) > i {
                    page_at(before, k) - 1
                } else {
                    page_at(before, k)
                } by {
                    lemma_pages_remove(before, i as int, k);
                }
            }
        }
        proof {
            let book = old(self)@.remove(id);
            assert forall|k: i64| #[trigger] self@.contains_key(k) <==> book.contains_key(k) by {
                lemma_page(before, k);
                lemma_page(self.pages@, k);
            }
            assert forall|k: i64| #[trigger] self@.contains_key(k) implies self@[k] == book[k] by {
                lemma_page(before, k);
                lemma_page(self.pages@, k);
            }
            assert(self@ =~= book);
        }
    }
}

/// One page per creature.
pub open spec fn pages_distinct(pages: Seq<Page>) -> bool {
    forall|i: int, j: int| 0 <= i < j < pages.len() ==> (#[trigger] pages[i]).id != (#[trigger] pages[j]).id
}

proof fn lemma_pages_remove(pages: Seq<Page>, i: int, id: i64)
    requires
        0 <= i < pages.len(),
        pages_distinct(pages),
    ensures
        page_at(pages.remove(i), id) == if id == pages[i].id {
            pages.len() - 1
        } else if page_at(pages, id) > i {
            page_at(pages, id) - 1
        } else {
            page_at(pages, id)
        },
{
    let p = is_page_of(id);
    let after = pages.remove(i);
    lemma_first_where(pages, p);
    let k = page_at(pages, id);
    let to: int = if id == pages[i].id {
        pages.len() - 1
    } else if k > i {
        k - 1
    } else {
        k
    };
    assert forall|j: int| 0 <= j < to implies !p(#[trigger] after[j]) by {
        if j < i {
            assert(after[j] == pages[j]);
        } else {
            assert(after[j] == pages[j + 1]);
        }
    }
    if to < after.len() {
        assert(after[to] == pages[k]);
    }
    lemma_first_where_is(after, p, to);
}

/// The events that happen to most creatures most ticks.
pub open spec fn is_routine(kind: EventKind) -> bool {
    kind == EventKind::Discovered || kind == EventKind::Drank || kind == EventKind::Ate || kind == EventKind::Rested
        || kind == EventKind::Sheltered
}

pub open spec fn of_kind(kind: EventKind) -> spec_fn(EventV) -> bool {
    |e: EventV| e.kind == kind
}

/// Whether an event keeps a row of its own.
pub open spec fn is_told() -> spec_fn(EventV) -> bool {
    |e: EventV| !is_routine(e.kind) && e.kind != EventKind::ExposedNight
}

/// How much was eaten, summed in order over the meals of the log. For eating the
/// payload is the report: consumption is counted in quantity, not in meals.
pub open spec fn eaten_in(log: Seq<EventV>) -> Num
    decreases log.len(),
{
    if log.len() == 0 {
        num(NOTHING)
    } else {
        let before = eaten_in(log.drop_last());
        let e = log.last();
        if e.kind == EventKind::Ate {
            before + match e.number("qty"@) {
                Some(q) => q,
                None => num(NOTHING),
            }
        } else {
            before
        }
    }
}

/// How often each routine thing happened.
#[derive(Debug, Clone, Copy, PartialEq, Eq, Structural)]
pub struct Routine {
    pub discovered: u32,
    pub drank: u32,
    pub ate: u32,
    pub rested: u32,
    pub sheltered: u32,
    pub exposed: u32,
}

pub open spec fn routine_of(log: Seq<EventV>) -> Routine {
    Routine {
        discovered: count_where(log, of_kind(EventKind::Discovered)) as u32,
        drank: count_where(log, of_kind(EventKind::Drank)) as u32,
        ate: count_where(log, of_kind(EventKind::Ate)) as u32,
        rested: count_where(log, of_kind(EventKind::Rested)) as u32,
        sheltered: count_where(log, of_kind(EventKind::Sheltered)) as u32,
        exposed: count_where(log, of_kind(EventKind::ExposedNight)) as u32,
    }
}

/// The one row that stands for the routine of a tick.
pub open spec fn summary_of(r: Routine, tick: i64) -> EventV {
    event_of(tick, EventKind::Discovered, 0).with_int("discovered"@, r.discovered as int).with_int(
        "drank"@,
        r.drank as int,
    ).with_int("ate"@, r.ate as int).with_int("rested"@, r.rested as int).with_int(
        "sheltered"@,
        r.sheltered as int,
    )
}

pub open spec fn is_quiet(r: Routine) -> bool {
    r.discovered == 0 && r.drank == 0 && r.ate == 0 && r.rested == 0 && r.sheltered == 0
}

/// The log with the routine folded into counts.
pub open spec fn folded(log: Seq<EventV>, tick: i64) -> Seq<EventV> {
    let r = routine_of(log);
    let eaten = eaten_in(log);
    let a = log.filter(is_told());
    let b = if is_quiet(r) {
        a
    } else {
        a.push(summary_of(r, tick))
    };
    let c = if eaten.gt(num(NOTHING)) {
        b.push(event_of(tick, EventKind::Ate, 0).with_num("qty"@, eaten))
    } else {
        b
    };
    if r.exposed > 0 {
        c.push(event_of(tick, EventKind::ExposedNight, 0).with_int("creatures"@, r.exposed as int))
    } else {
        c
    }
}

proof fn lemma_counts_step(log: Seq<EventV>, i: int, kind: EventKind)
    requires
        0 <= i < log.len(),
    ensures
        count_where(log.take(i + 1), of_kind(kind)) == count_where(log.take(i), of_kind(kind)) + if log[i].kind
            == kind {
            1nat
        } else {
            0nat
        },
        count_where(log.take(i), of_kind(kind)) <= i,
{
    assert(log.take(i + 1).drop_last() == log.take(i));
    lemma_count_where_bound(log.take(i), of_kind(kind));
}

/// Folds the routine into counts.
pub fn collapse_routine_events(events: &mut Vec<Event>, tick: i64)
    requires
        old(events)@.len() <= u32::MAX,
    ensures
        log_of(final(events)@) == folded(log_of(old(events)@), tick),
{
    let mut all: Vec<Event> = Vec::new();
    std::mem::swap(&mut all, events);
    let ghost rows = all@;
    let ghost log = log_of(rows);
    let mut r = Routine { discovered: 0, drank: 0, ate: 0, rested: 0, sheltered: 0, exposed: 0 };
    let mut eaten = num(NOTHING);
    proof {
        lemma_filter_start(log, is_told());
        assert(log.take(0).len() == 0);
        assert(log_of(events@) == log.take(0).filter(is_told()));
    }
    for e in iter: all.into_iter()
        invariant
            iter.seq() == rows,
            log == log_of(rows),
            log.len() <= u32::MAX,
            log_of(events@) == log.take(iter.index() as int).filter(is_told()),
            r == routine_of(log.take(iter.index() as int)),
            eaten == eaten_in(log.take(iter.index() as int)),
    {
        let ghost i = iter.index() as int;
        proof {
            assert(log[i] == e@);
            lemma_filter_step(log, is_told(), i);
            lemma_counts_step(log, i, EventKind::Discovered);
            lemma_counts_step(log, i, EventKind::Drank);
            lemma_counts_step(log, i, EventKind::Ate);
            lemma_counts_step(log, i, EventKind::Rested);
            lemma_counts_step(log, i, EventKind::Sheltered);
            lemma_counts_step(log, i, EventKind::ExposedNight);
            assert(log.take(i + 1).drop_last() == log.take(i));
        }
        match e.kind {
            EventKind::Discovered => r.discovered = r.discovered + 1,
            EventKind::Drank => r.drank = r.drank + 1,
            EventKind::Ate => {
                r.ate = r.ate + 1;
                let q = match e.num("qty") {
                    Some(q) => q,
                    None => num(NOTHING),
                };
                eaten = eaten + q;
            },
            EventKind::Rested => r.rested = r.rested + 1,
            EventKind::Sheltered => r.sheltered = r.sheltered + 1,
            EventKind::ExposedNight => r.exposed = r.exposed + 1,
            _ => say(events, e),
        }
    }
    assert(log.take(log.len() as int) == log);
    if r.discovered > 0 || r.drank > 0 || r.ate > 0 || r.rested > 0 || r.sheltered > 0 {
        let e = Event::new(tick, EventKind::Discovered, 0).with_int("discovered", r.discovered as i64).with_int(
            "drank",
            r.drank as i64,
        ).with_int("ate", r.ate as i64).with_int("rested", r.rested as i64).with_int(
            "sheltered",
            r.sheltered as i64,
        );
        say(events, e);
    }
    if eaten.gt(num(NOTHING)) {
        say(events, Event::new(tick, EventKind::Ate, 0).with_num("qty", eaten));
    }
    if r.exposed > 0 {
        say(events, Event::new(tick, EventKind::ExposedNight, 0).with_int("creatures", r.exposed as i64));
    }
}

/// Folding loses nothing but the routine: every other event keeps its row.
pub proof fn law_only_the_routine_is_folded(log: Seq<EventV>, tick: i64, i: int)
    requires
        0 <= i < log.len(),
        !is_routine(log[i].kind),
        log[i].kind != EventKind::ExposedNight,
    ensures
        folded(log, tick).contains(log[i]),
{
    let kept = log.filter(is_told());
    log.lemma_filter_contains(is_told(), i);
    let k = kept.index_of(log[i]);
    assert(folded(log, tick)[k] == kept[k]);
}

/// However much happens, the routine of a tick takes three rows at most.
pub proof fn law_the_routine_takes_three_rows(log: Seq<EventV>, tick: i64)
    ensures
        folded(log, tick).len() <= log.filter(is_told()).len() + 3,
{
}

/// What is routine: finding, drinking, eating, resting and sheltering, and nothing
/// else.
pub proof fn law_what_is_routine(kind: EventKind)
    ensures
        is_routine(kind) <==> kind == EventKind::Discovered || kind == EventKind::Drank || kind == EventKind::Ate || kind
            == EventKind::Rested || kind == EventKind::Sheltered,
        !is_routine(EventKind::Died) && !is_routine(EventKind::Born) && !is_routine(EventKind::Paired),
{
}

/// A quiet day is told as it was, and one that was not ends with its routine counted,
/// each thing under its own name, what was eaten, and how many lay in the open.
pub proof fn law_the_routine_is_counted(log: Seq<EventV>, tick: i64)
    requires
        log.len() <= u32::MAX,
    ensures
        ({
            let r = routine_of(log);
            let told = log.filter(is_told());
            let out = folded(log, tick);
            let eaten = num(0).lt(eaten_in(log));
            let busy = r.discovered + r.drank + r.ate + r.rested + r.sheltered > 0;
            &&& r.discovered == count_where(log, of_kind(EventKind::Discovered))
            &&& r.drank == count_where(log, of_kind(EventKind::Drank))
            &&& r.ate == count_where(log, of_kind(EventKind::Ate))
            &&& r.rested == count_where(log, of_kind(EventKind::Rested))
            &&& r.sheltered == count_where(log, of_kind(EventKind::Sheltered))
            &&& r.exposed == count_where(log, of_kind(EventKind::ExposedNight))
            &&& !busy && !eaten && r.exposed == 0 ==> out == told
            &&& busy ==> out.len() > told.len() && out[told.len() as int] == summary_of(r, tick)
            &&& r.exposed > 0 ==> out.last().kind == EventKind::ExposedNight
            &&& out.len() == told.len() + (if busy {
                1int
            } else {
                0
            }) + (if eaten {
                1int
            } else {
                0
            }) + (if r.exposed > 0 {
                1int
            } else {
                0
            })
            &&& forall|k: int| 0 <= k < told.len() ==> #[trigger] out[k] == told[k]
        }),
{
    lemma_count_where_bound(log, of_kind(EventKind::Discovered));
    lemma_count_where_bound(log, of_kind(EventKind::Drank));
    lemma_count_where_bound(log, of_kind(EventKind::Ate));
    lemma_count_where_bound(log, of_kind(EventKind::Rested));
    lemma_count_where_bound(log, of_kind(EventKind::Sheltered));
    lemma_count_where_bound(log, of_kind(EventKind::ExposedNight));
}

/// A diary says last things first and keeps the latest: a new line heads the old
/// ones, and only the oldest are dropped.
pub proof fn law_a_diary_keeps_the_latest(lines: Seq<Seq<char>>, line: Seq<char>)
    requires
        lines.len() <= DIARY_LINES,
    ensures
        ({
            let after = headed(lines, line);
            &&& after.len() == if lines.len() < DIARY_LINES {
                lines.len() + 1
            } else {
                lines.len()
            }
            &&& after.len() > 0 ==> after[0] == line
            &&& forall|k: int| 1 <= k < after.len() ==> #[trigger] after[k] == lines[k - 1]
        }),
{
}

/// What happens to somebody goes into their own diary and into nobody else's.
pub proof fn law_a_diary_is_ones_own(book: Map<i64, Seq<Seq<char>>>, e: EventV, id: i64)
    requires
        e.actor_id != Some(id),
    ensures
        diary_in(noted_down(book, e), id) == diary_in(book, id),
{
}

/// The routine of a day is told in one line, each thing counted under its own name.
pub proof fn law_the_routine_is_told_in_one_line(r: Routine, tick: i64)
    ensures
        summary_of(r, tick) == event_of(tick, EventKind::Discovered, 0).with_int(
            "discovered"@,
            r.discovered as int,
        ).with_int("drank"@, r.drank as int).with_int("ate"@, r.ate as int).with_int("rested"@, r.rested as int).with_int(
            "sheltered"@,
            r.sheltered as int,
        ),
        summary_of(r, tick).kind == EventKind::Discovered && summary_of(r, tick).tick == tick,
{
}

/// What goes into a diary, and in what words; nothing else does.
pub proof fn law_what_goes_into_a_diary(e: EventV, id: i64)
    requires
        e.target_id == Some(id),
    ensures
        e.kind == EventKind::Paired ==> account_of(e) == Some("you paired with #"@ + integer_text(id as int)),
        e.kind == EventKind::Rejected ==> account_of(e) == Some("#"@ + integer_text(id as int) + " turned you down"@),
        e.kind == EventKind::Taught ==> account_of(e) == Some("you taught #"@ + integer_text(id as int)),
        e.kind == EventKind::Conceived ==> account_of(e) == Some("you are expecting a child"@),
        e.kind == EventKind::ShelterBuilt ==> account_of(e) == Some("you built a shelter"@),
        e.kind == EventKind::HouseholdFounded ==> account_of(e) == Some("you founded a household"@),
        e.kind == EventKind::Injured ==> account_of(e) == Some("you were hurt working"@),
        e.kind == EventKind::FellIll ==> account_of(e) == Some("you fell ill"@),
        e.kind == EventKind::Slaughtered ==> account_of(e) == Some("you killed a sheep"@),
        e.kind == EventKind::Planted ==> account_of(e) == Some("you planted wheat"@),
        e.kind == EventKind::ExposedNight ==> account_of(e) == Some("you spent a night in the open"@),
        is_routine(e.kind) || e.kind == EventKind::Died || e.kind == EventKind::Born || e.kind == EventKind::Shared
            ==> account_of(e) is None,
{
}

} // verus!
