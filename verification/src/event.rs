//! The event log.
//!
//! Events record occurrences, never per-tick state. Movement, need decay and
//! partial progress produce nothing; a completed gather, a death, a discovery
//! and an abandoned plan all do.
//!
//! The digest of a run is taken over the event lines, so their contents and
//! order matter for reproducibility, not just for reporting.

use crate::num::Num;
use crate::text::{fixed, fixed_text, integer, integer_text, letters, read_fixed, read_text};
use vstd::prelude::*;
use vstd::string::*;

verus! {

#[derive(Debug, Clone, Copy, PartialEq, Eq, Structural)]
pub enum EventKind {
    Born,
    Died,
    Arrived,
    Gathered,
    Chopped,
    Harvested,
    Planted,
    Tended,
    Slaughtered,
    Drank,
    Ate,
    Rested,
    Sheltered,
    FireLit,
    FireFed,
    FireOut,
    ShelterBuilt,
    ShelterRepaired,
    Discovered,
    Verified,
    Forgot,
    PlanSet,
    PlanDone,
    PlanAbandoned,
    Spoiled,
    ExposedNight,
    Injured,
    FellIll,
    Settled,
    Deliberated,
    Rejected,
    HouseholdFounded,
    HouseholdJoined,
    HouseholdLeft,
    HouseholdDissolved,
    Inherited,
    Courted,
    Paired,
    Conceived,
    FedInfant,
    GaveFood,
    Shared,
    Taught,
    Orphaned,
}

impl EventKind {
    pub open spec fn text(self) -> Seq<char> {
        match self {
            EventKind::Born => "BORN"@,
            EventKind::Died => "DIED"@,
            EventKind::Arrived => "ARRIVED"@,
            EventKind::Gathered => "GATHERED"@,
            EventKind::Chopped => "CHOPPED"@,
            EventKind::Harvested => "HARVESTED"@,
            EventKind::Planted => "PLANTED"@,
            EventKind::Tended => "TENDED"@,
            EventKind::Slaughtered => "SLAUGHTERED"@,
            EventKind::Drank => "DRANK"@,
            EventKind::Ate => "ATE"@,
            EventKind::Rested => "RESTED"@,
            EventKind::Sheltered => "SHELTERED"@,
            EventKind::FireLit => "FIRE_LIT"@,
            EventKind::FireFed => "FIRE_FED"@,
            EventKind::FireOut => "FIRE_OUT"@,
            EventKind::ShelterBuilt => "SHELTER_BUILT"@,
            EventKind::ShelterRepaired => "SHELTER_REPAIRED"@,
            EventKind::Discovered => "DISCOVERED"@,
            EventKind::Verified => "VERIFIED"@,
            EventKind::Forgot => "FORGOT"@,
            EventKind::PlanSet => "PLAN_SET"@,
            EventKind::PlanDone => "PLAN_DONE"@,
            EventKind::PlanAbandoned => "PLAN_ABANDONED"@,
            EventKind::Spoiled => "SPOILED"@,
            EventKind::ExposedNight => "EXPOSED_NIGHT"@,
            EventKind::Injured => "INJURED"@,
            EventKind::FellIll => "FELL_ILL"@,
            EventKind::Settled => "SETTLED"@,
            EventKind::Deliberated => "DELIBERATED"@,
            EventKind::Rejected => "REJECTED"@,
            EventKind::HouseholdFounded => "HOUSEHOLD_FOUNDED"@,
            EventKind::HouseholdJoined => "HOUSEHOLD_JOINED"@,
            EventKind::HouseholdLeft => "HOUSEHOLD_LEFT"@,
            EventKind::HouseholdDissolved => "HOUSEHOLD_DISSOLVED"@,
            EventKind::Inherited => "INHERITED"@,
            EventKind::Courted => "COURTED"@,
            EventKind::Paired => "PAIRED"@,
            EventKind::Conceived => "CONCEIVED"@,
            EventKind::FedInfant => "FED_INFANT"@,
            EventKind::GaveFood => "GAVE_FOOD"@,
            EventKind::Shared => "SHARED"@,
            EventKind::Taught => "TAUGHT"@,
            EventKind::Orphaned => "ORPHANED"@,
        }
    }

    pub fn as_str(self) -> (s: &'static str)
        ensures
            s@ == self.text(),
    {
        match self {
            EventKind::Born => "BORN",
            EventKind::Died => "DIED",
            EventKind::Arrived => "ARRIVED",
            EventKind::Gathered => "GATHERED",
            EventKind::Chopped => "CHOPPED",
            EventKind::Harvested => "HARVESTED",
            EventKind::Planted => "PLANTED",
            EventKind::Tended => "TENDED",
            EventKind::Slaughtered => "SLAUGHTERED",
            EventKind::Drank => "DRANK",
            EventKind::Ate => "ATE",
            EventKind::Rested => "RESTED",
            EventKind::Sheltered => "SHELTERED",
            EventKind::FireLit => "FIRE_LIT",
            EventKind::FireFed => "FIRE_FED",
            EventKind::FireOut => "FIRE_OUT",
            EventKind::ShelterBuilt => "SHELTER_BUILT",
            EventKind::ShelterRepaired => "SHELTER_REPAIRED",
            EventKind::Discovered => "DISCOVERED",
            EventKind::Verified => "VERIFIED",
            EventKind::Forgot => "FORGOT",
            EventKind::PlanSet => "PLAN_SET",
            EventKind::PlanDone => "PLAN_DONE",
            EventKind::PlanAbandoned => "PLAN_ABANDONED",
            EventKind::Spoiled => "SPOILED",
            EventKind::ExposedNight => "EXPOSED_NIGHT",
            EventKind::Injured => "INJURED",
            EventKind::FellIll => "FELL_ILL",
            EventKind::Settled => "SETTLED",
            EventKind::Deliberated => "DELIBERATED",
            EventKind::Rejected => "REJECTED",
            EventKind::HouseholdFounded => "HOUSEHOLD_FOUNDED",
            EventKind::HouseholdJoined => "HOUSEHOLD_JOINED",
            EventKind::HouseholdLeft => "HOUSEHOLD_LEFT",
            EventKind::HouseholdDissolved => "HOUSEHOLD_DISSOLVED",
            EventKind::Inherited => "INHERITED",
            EventKind::Courted => "COURTED",
            EventKind::Paired => "PAIRED",
            EventKind::Conceived => "CONCEIVED",
            EventKind::FedInfant => "FED_INFANT",
            EventKind::GaveFood => "GAVE_FOOD",
            EventKind::Shared => "SHARED",
            EventKind::Taught => "TAUGHT",
            EventKind::Orphaned => "ORPHANED",
        }
    }
}

/// A letter of the texts that kinds are stored under.
pub open spec fn is_plain(c: char) -> bool {
    ('A' <= c && c <= 'Z') || c == '_'
}

/// No two kinds share a text, and each is some capital letters and underscores, so
/// it can hold neither what parts the columns of an event line nor a space.
pub proof fn law_kind_texts_are_distinct(a: EventKind, b: EventKind)
    ensures
        a.text() == b.text() ==> a == b,
        a.text().len() > 0,
        forall|i: int| 0 <= i < a.text().len() ==> is_plain(#[trigger] a.text()[i]),
        !a.text().contains('|'),
        !a.text().contains(' '),
{
    reveal_strlit("BORN");
    reveal_strlit("DIED");
    reveal_strlit("ARRIVED");
    reveal_strlit("GATHERED");
    reveal_strlit("CHOPPED");
    reveal_strlit("HARVESTED");
    reveal_strlit("PLANTED");
    reveal_strlit("TENDED");
    reveal_strlit("SLAUGHTERED");
    reveal_strlit("DRANK");
    reveal_strlit("ATE");
    reveal_strlit("RESTED");
    reveal_strlit("SHELTERED");
    reveal_strlit("FIRE_LIT");
    reveal_strlit("FIRE_FED");
    reveal_strlit("FIRE_OUT");
    reveal_strlit("SHELTER_BUILT");
    reveal_strlit("SHELTER_REPAIRED");
    reveal_strlit("DISCOVERED");
    reveal_strlit("VERIFIED");
    reveal_strlit("FORGOT");
    reveal_strlit("PLAN_SET");
    reveal_strlit("PLAN_DONE");
    reveal_strlit("PLAN_ABANDONED");
    reveal_strlit("SPOILED");
    reveal_strlit("EXPOSED_NIGHT");
    reveal_strlit("INJURED");
    reveal_strlit("FELL_ILL");
    reveal_strlit("SETTLED");
    reveal_strlit("DELIBERATED");
    reveal_strlit("REJECTED");
    reveal_strlit("HOUSEHOLD_FOUNDED");
    reveal_strlit("HOUSEHOLD_JOINED");
    reveal_strlit("HOUSEHOLD_LEFT");
    reveal_strlit("HOUSEHOLD_DISSOLVED");
    reveal_strlit("INHERITED");
    reveal_strlit("COURTED");
    reveal_strlit("PAIRED");
    reveal_strlit("CONCEIVED");
    reveal_strlit("FED_INFANT");
    reveal_strlit("GAVE_FOOD");
    reveal_strlit("SHARED");
    reveal_strlit("TAUGHT");
    reveal_strlit("ORPHANED");
    assert(a.text().len() == b.text().len() && a.text()[2] == b.text()[2] && a.text()[a.text().len() - 3] == b.text()[b.text().len() - 3]
        ==> a == b);
    assert forall|i: int| 0 <= i < a.text().len() implies is_plain(#[trigger] a.text()[i]) by {}
}

#[derive(Debug, Clone)]
pub struct Event {
    pub tick: i64,
    pub kind: EventKind,
    pub actor_id: Option<i64>,
    pub target_id: Option<i64>,
    pub x: Option<u32>,
    pub y: Option<u32>,
    /// Compact `key=value` pairs in the order they were added, so that an event
    /// is written the same way on every run.
    pub payload: String,
}

/// An event with its payload as a sequence of characters.
#[verifier::ext_equal]
pub struct EventV {
    pub tick: i64,
    pub kind: EventKind,
    pub actor_id: Option<i64>,
    pub target_id: Option<i64>,
    pub x: Option<u32>,
    pub y: Option<u32>,
    pub payload: Seq<char>,
}

impl View for Event {
    type V = EventV;

    open spec fn view(&self) -> EventV {
        EventV {
            tick: self.tick,
            kind: self.kind,
            actor_id: self.actor_id,
            target_id: self.target_id,
            x: self.x,
            y: self.y,
            payload: self.payload@,
        }
    }
}

/// A list of events, each by its view.
pub open spec fn log_of(events: Seq<Event>) -> Seq<EventV> {
    Seq::new(events.len(), |i: int| events[i]@)
}

/// A bare event of one creature.
pub open spec fn event_of(tick: i64, kind: EventKind, actor_id: i64) -> EventV {
    EventV {
        tick,
        kind,
        actor_id: Some(actor_id),
        target_id: None,
        x: None,
        y: None,
        payload: Seq::empty(),
    }
}

impl EventV {
    pub open spec fn at(self, x: u32, y: u32) -> EventV {
        EventV { x: Some(x), y: Some(y), ..self }
    }

    pub open spec fn target(self, id: i64) -> EventV {
        EventV { target_id: Some(id), ..self }
    }

    /// One more `key=value` pair, set off by a space from what precedes it.
    pub open spec fn with(self, key: Seq<char>, value: Seq<char>) -> EventV {
        let pair = key + "="@ + value;
        EventV {
            payload: if self.payload.len() == 0 {
                pair
            } else {
                self.payload + " "@ + pair
            },
            ..self
        }
    }

    pub open spec fn with_num(self, key: Seq<char>, value: Num) -> EventV {
        self.with(key, fixed_text(value))
    }

    pub open spec fn with_int(self, key: Seq<char>, value: int) -> EventV {
        self.with(key, integer_text(value))
    }

    /// The number written under a key.
    pub open spec fn number(self, key: Seq<char>) -> Option<Num> {
        match field_of(self.payload, key, 0) {
            Some(value) => read_text(value),
            None => None,
        }
    }

    /// The seven columns of a digest line.
    pub open spec fn line(self) -> Seq<char> {
        integer_text(self.tick as int) + "|"@ + self.kind.text() + "|"@ + column(self.actor_id) + "|"@
            + column(self.target_id) + "|"@ + narrow_column(self.x) + "|"@ + narrow_column(self.y) + "|"@
            + self.payload
    }
}

/// Where the word that starts at a place ends.
pub open spec fn word_end(s: Seq<char>, i: int) -> int
    decreases s.len() - i,
{
    if 0 <= i < s.len() && s[i] != ' ' {
        word_end(s, i + 1)
    } else {
        i
    }
}

pub proof fn lemma_word_end(s: Seq<char>, i: int)
    requires
        0 <= i <= s.len(),
    ensures
        i <= word_end(s, i) <= s.len(),
        word_end(s, i) < s.len() ==> s[word_end(s, i)] == ' ',
        forall|k: int| i <= k < word_end(s, i) ==> s[k] != ' ',
    decreases s.len() - i,
{
    if i < s.len() && s[i] != ' ' {
        lemma_word_end(s, i + 1);
    }
}

/// A word that reads `key=value`.
pub open spec fn is_pair(s: Seq<char>, i: int, j: int, key: Seq<char>) -> bool {
    i + key.len() < j && s.subrange(i, i + key.len()) == key && s[i + key.len()] == '='
}

/// What stands under a key in the words from a place on.
pub open spec fn field_of(s: Seq<char>, key: Seq<char>, i: int) -> Option<Seq<char>>
    decreases s.len() - i,
{
    let j = word_end(s, i);
    if i < 0 || j < i {
        None
    } else if is_pair(s, i, j, key) {
        Some(s.subrange(i + key.len() + 1, j))
    } else if j < s.len() {
        field_of(s, key, j + 1)
    } else {
        None
    }
}

/// An absent field leaves its column empty.
pub open spec fn column(v: Option<i64>) -> Seq<char> {
    match v {
        Some(i) => integer_text(i as int),
        None => Seq::empty(),
    }
}

pub open spec fn narrow_column(v: Option<u32>) -> Seq<char> {
    match v {
        Some(i) => integer_text(i as int),
        None => Seq::empty(),
    }
}

fn column_text(v: Option<i64>) -> (s: String)
    ensures
        s@ == column(v),
{
    match v {
        Some(i) => integer(i),
        None => String::new(),
    }
}

impl Event {
    pub fn new(tick: i64, kind: EventKind, actor_id: i64) -> (e: Self)
        ensures
            e@ == event_of(tick, kind, actor_id),
    {
        Event {
            tick,
            kind,
            actor_id: Some(actor_id),
            target_id: None,
            x: None,
            y: None,
            payload: String::new(),
        }
    }

    pub fn at(self, x: u32, y: u32) -> (e: Self)
        ensures
            e@ == self@.at(x, y),
    {
        let mut e = self;
        e.x = Some(x);
        e.y = Some(y);
        e
    }

    pub fn target(self, id: i64) -> (e: Self)
        ensures
            e@ == self@.target(id),
    {
        let mut e = self;
        e.target_id = Some(id);
        e
    }

    pub fn with(self, key: &str, value: &str) -> (e: Self)
        ensures
            e@ == self@.with(key@, value@),
    {
        let mut e = self;
        if !same_as_empty(&e.payload) {
            e.payload.append(" ");
        }
        e.payload.append(key);
        e.payload.append("=");
        e.payload.append(value);
        assert(e@.payload == self@.with(key@, value@).payload);
        e
    }

    /// Two decimal places, so a number never varies in its last digit between
    /// runs or platforms.
    pub fn with_num(self, key: &str, value: Num) -> (e: Self)
        ensures
            e@ == self@.with_num(key@, value),
    {
        let v = fixed(value);
        self.with(key, v.as_str())
    }

    pub fn with_int(self, key: &str, value: i64) -> (e: Self)
        ensures
            e@ == self@.with_int(key@, value as int),
    {
        let v = integer(value);
        self.with(key, v.as_str())
    }

    /// The number written under a key, if there is one.
    pub fn num(&self, key: &str) -> (r: Option<Num>)
        ensures
            r == self@.number(key@),
    {
        let s = letters(self.payload.as_str());
        let k = letters(key);
        let ghost text = s@;
        let mut i: usize = 0;
        loop
            invariant
                text == s@,
                text == self.payload@,
                k@ == key@,
                0 <= i <= text.len(),
                field_of(text, key@, 0) == field_of(text, key@, i as int),
            decreases text.len() - i,
        {
            proof {
                lemma_word_end(text, i as int);
            }
            let j = find_word_end(&s, i);
            if starts_pair(&s, i, j, &k) {
                return read_fixed(&s, i + k.len() + 1, j);
            }
            if j >= s.len() {
                return None;
            }
            i = j + 1;
        }
    }

    /// Stable line form, over which the digest of a run is taken.
    pub fn digest_line(&self) -> (s: String)
        ensures
            s@ == self@.line(),
    {
        let mut s = integer(self.tick);
        s.append("|");
        s.append(self.kind.as_str());
        s.append("|");
        let actor = column_text(self.actor_id);
        s.append(actor.as_str());
        s.append("|");
        let target = column_text(self.target_id);
        s.append(target.as_str());
        s.append("|");
        let x = column_text(match self.x {
            Some(v) => Some(v as i64),
            None => None,
        });
        s.append(x.as_str());
        s.append("|");
        let y = column_text(match self.y {
            Some(v) => Some(v as i64),
            None => None,
        });
        s.append(y.as_str());
        s.append("|");
        s.append(self.payload.as_str());
        s
    }
}

fn find_word_end(s: &Vec<char>, from: usize) -> (j: usize)
    requires
        from <= s@.len(),
    ensures
        j == word_end(s@, from as int),
        from <= j <= s@.len(),
{
    let mut j: usize = from;
    while j < s.len() && s[j] != ' '
        invariant
            from <= j <= s@.len(),
            word_end(s@, from as int) == word_end(s@, j as int),
        decreases s@.len() - j,
    {
        j = j + 1;
    }
    j
}

fn starts_pair(s: &Vec<char>, i: usize, j: usize, key: &Vec<char>) -> (r: bool)
    requires
        i <= j <= s@.len(),
    ensures
        r == is_pair(s@, i as int, j as int, key@),
{
    if key.len() >= j - i || s[i + key.len()] != '=' {
        return false;
    }
    for m in 0..key.len()
        invariant
            i <= j <= s@.len(),
            key@.len() < j - i,
            forall|q: int| 0 <= q < m ==> s@[i + q] == #[trigger] key@[q],
    {
        if s[i + m] != key[m] {
            assert(s@.subrange(i as int, i + key@.len())[m as int] != key@[m as int]);
            return false;
        }
    }
    assert(s@.subrange(i as int, i + key@.len()) == key@);
    true
}

proof fn lemma_word_end_is(s: Seq<char>, i: int, j: int)
    requires
        0 <= i <= j <= s.len(),
        forall|k: int| i <= k < j ==> s[k] != ' ',
        j < s.len() ==> s[j] == ' ',
    ensures
        word_end(s, i) == j,
    decreases j - i,
{
    if i < j {
        lemma_word_end_is(s, i + 1, j);
    }
}

/// Words that precede do not hide what follows.
proof fn lemma_field_after(p: Seq<char>, pair: Seq<char>, key: Seq<char>, i: int)
    requires
        0 <= i <= p.len(),
        field_of(p, key, i) is None,
    ensures
        field_of(p + seq![' '] + pair, key, i) == field_of(p + seq![' '] + pair, key, p.len() as int + 1),
    decreases p.len() - i,
{
    let s = p + seq![' '] + pair;
    let j = word_end(p, i);
    lemma_word_end(p, i);
    assert forall|k: int| 0 <= k < p.len() implies s[k] == p[k] by {}
    assert(s[p.len() as int] == ' ');
    lemma_word_end_is(s, i, j);
    if is_pair(s, i, j, key) {
        assert(s.subrange(i, i + key.len()) == p.subrange(i, i + key.len()));
        assert(is_pair(p, i, j, key));
    }
    if j < p.len() {
        if is_pair(p, i, j, key) {
            assert(false);
        }
        lemma_field_after(p, pair, key, j + 1);
    }
}

/// What is written under a key is read back from it, whatever stands before, as
/// long as neither has a space in it and the key was not used before.
pub proof fn law_a_field_reads_back(e: EventV, key: Seq<char>, value: Seq<char>)
    requires
        forall|k: int| 0 <= k < key.len() ==> key[k] != ' ',
        forall|k: int| 0 <= k < value.len() ==> value[k] != ' ',
        field_of(e.payload, key, 0) is None,
    ensures
        field_of(e.with(key, value).payload, key, 0) == Some(value),
{
    reveal_strlit("=");
    reveal_strlit(" ");
    let pair = key + "="@ + value;
    assert("="@ == seq!['=']);
    assert(" "@ == seq![' ']);
    let s = e.with(key, value).payload;
    let start: int = if e.payload.len() == 0 {
        0
    } else {
        e.payload.len() as int + 1
    };
    assert forall|k: int| 0 <= k < pair.len() implies pair[k] != ' ' by {
        if k < key.len() {
            assert(pair[k] == key[k]);
        } else if k > key.len() {
            assert(pair[k] == value[k - key.len() - 1]);
        }
    }
    if e.payload.len() > 0 {
        assert(s == e.payload + seq![' '] + pair);
        lemma_field_after(e.payload, pair, key, 0);
    }
    assert forall|k: int| 0 <= k < pair.len() implies s[start + k] == pair[k] by {}
    assert forall|k: int| start <= k < s.len() implies s[k] != ' ' by {
        assert(s[start + (k - start)] == pair[k - start]);
    }
    lemma_word_end_is(s, start, s.len() as int);
    assert(s.subrange(start, start + key.len()) == key) by {
        assert forall|k: int| 0 <= k < key.len() implies s.subrange(start, start + key.len())[k] == key[k] by {
            assert(s[start + k] == pair[k]);
        }
    }
    assert(s[start + key.len()] == pair[key.len() as int]);
    assert(is_pair(s, start, s.len() as int, key));
    assert(s.subrange(start + key.len() + 1, s.len() as int) == value) by {
        assert forall|k: int| 0 <= k < value.len() implies s.subrange(
            start + key.len() + 1,
            s.len() as int,
        )[k] == value[k] by {
            assert(s[start + (key.len() + 1 + k)] == pair[key.len() + 1 + k]);
        }
    }
}

fn same_as_empty(s: &String) -> (r: bool)
    ensures
        r == (s@.len() == 0),
{
    let empty = String::new();
    let r = *s == empty;
    assert(s@.len() == 0 ==> s@ == empty@);
    r
}

} // verus!
