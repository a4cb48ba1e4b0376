//! What is shown of a run: the people and structures on the map, what has been
//! happening, and what the community knows.

use crate::config::KnowledgeConfig;
use crate::creature::{people_of, Creature, CreatureV, LifeStage};
use crate::economy::Structure;
use crate::event::{log_of, Event, EventKind, EventV};
use crate::knowledge::Belief;
use crate::lists::{count_where, lemma_count_where_bound};
use crate::num::{num, Num};
use crate::text::{integer, integer_text, letters};
use crate::thinking::{is_waiting, Call, Waiting};
use crate::world::{div_ceil, groups};
use vstd::prelude::*;
use vstd::string::*;

verus! {

/// 255.0
pub const BRIGHTEST: u32 = 0x437F_0000;

/// How many lines of news are kept.
pub const NEWS_LINES: usize = 40;

/// World tiles to a side of a cell of the coverage grid.
pub const COVER_CELL: u32 = 8;

/// One creature, as the map needs it. Deliberately tiny: this is sent for
/// hundreds of creatures several times a second.
#[derive(Debug, Clone, Copy, PartialEq, Eq, Structural)]
pub struct CreatureDot {
    pub id: i64,
    pub x: u32,
    pub y: u32,
    /// 0 infant, 1 adult, 2 elder.
    pub stage: u8,
    /// Bit flags: 1 hungry, 2 thirsty, 4 cold, 8 sheltered, 16 at a fire,
    /// 32 thinking (a call is in flight), 64 running a plan the model wrote.
    pub flags: u8,
}

pub open spec fn stage_code_spec(s: LifeStage) -> u8 {
    match s {
        LifeStage::Infant => 0,
        LifeStage::Adult => 1,
        LifeStage::Elder => 2,
    }
}

#[verifier::when_used_as_spec(stage_code_spec)]
pub fn stage_code(s: LifeStage) -> (r: u8)
    ensures
        r == stage_code_spec(s),
{
    match s {
        LifeStage::Infant => 0,
        LifeStage::Adult => 1,
        LifeStage::Elder => 2,
    }
}

/// A flag that is up or not.
pub open spec fn flag(up: bool, bit: u8) -> int {
    if up {
        bit as int
    } else {
        0
    }
}

pub open spec fn runs_model_plan(c: CreatureV) -> bool {
    c.plan matches Some(p) && p.tier == 2
}

/// Everything a dot tells of how somebody is, each in a bit of its own.
pub open spec fn flags_of(c: CreatureV, threshold: Num, calls: Seq<Call>) -> int {
    flag(c.hunger.lt(threshold), 1) + flag(c.thirst.lt(threshold), 2) + flag(c.warmth.lt(threshold), 4) + flag(
        c.in_shelter is Some,
        8,
    ) + flag(c.at_fire, 16) + flag(is_waiting(calls, c.id), 32) + flag(runs_model_plan(c), 64)
}

pub open spec fn dot_of(c: CreatureV, threshold: Num, calls: Seq<Call>) -> CreatureDot {
    CreatureDot {
        id: c.id,
        x: c.x,
        y: c.y,
        stage: stage_code(c.life_stage),
        flags: flags_of(c, threshold, calls) as u8,
    }
}

fn raise(up: bool, bit: u8) -> (r: u8)
    ensures
        r == flag(up, bit),
{
    if up {
        bit
    } else {
        0
    }
}

fn model_plan(c: &Creature) -> (r: bool)
    ensures
        r == runs_model_plan(c@),
{
    match &c.plan {
        Some(p) => p.tier == 2,
        None => false,
    }
}

pub fn dot(c: &Creature, threshold: Num, waiting: &Waiting) -> (r: CreatureDot)
    ensures
        r == dot_of(c@, threshold, waiting.calls@),
{
    let flags: u8 = raise(c.hunger.lt(threshold), 1) + raise(c.thirst.lt(threshold), 2) + raise(
        c.warmth.lt(threshold),
        4,
    ) + raise(c.in_shelter.is_some(), 8) + raise(c.at_fire, 16) + raise(waiting.contains(c.id), 32) + raise(
        model_plan(c),
        64,
    );
    CreatureDot { id: c.id, x: c.x, y: c.y, stage: stage_code(c.life_stage), flags }
}

pub open spec fn dotting(threshold: Num, calls: Seq<Call>) -> spec_fn(CreatureV) -> CreatureDot {
    |c: CreatureV| dot_of(c, threshold, calls)
}

pub fn creature_dots(creatures: &Vec<Creature>, threshold: Num, waiting: &Waiting) -> (dots: Vec<CreatureDot>)
    ensures
        dots@ == people_of(creatures@).map_values(dotting(threshold, waiting.calls@)),
{
    let ghost people = people_of(creatures@);
    let mut dots: Vec<CreatureDot> = Vec::new();
    for i in 0..creatures.len()
        invariant
            people == people_of(creatures@),
            dots@.len() == i,
            forall|j: int| 0 <= j < i ==> #[trigger] dots@[j] == dot_of(people[j], threshold, waiting.calls@),
    {
        assert(people[i as int] == creatures@[i as int]@);
        dots.push(dot(&creatures[i], threshold, waiting));
    }
    assert(dots@ == people.map_values(dotting(threshold, waiting.calls@)));
    dots
}

/// A structure, as the map needs it.
#[derive(Debug, Clone, Copy)]
pub struct StructureDot {
    pub id: i64,
    pub x: u32,
    pub y: u32,
    pub kind: &'static str,
    pub lit: bool,
    pub condition: Num,
}

/// Whether a dot shows a structure as it is.
pub open spec fn shows(d: StructureDot, s: Structure, tick: i64) -> bool {
    &&& d.id == s.id
    &&& d.x == s.x
    &&& d.y == s.y
    &&& d.kind@ == s.kind.text()
    &&& d.lit == s.is_lit(tick)
    &&& d.condition == s.condition
}

pub fn structure_dots(items: &Vec<Structure>, tick: i64) -> (dots: Vec<StructureDot>)
    ensures
        dots@.len() == items@.len(),
        forall|i: int| 0 <= i < dots@.len() ==> shows(#[trigger] dots@[i], items@[i], tick),
{
    let mut dots: Vec<StructureDot> = Vec::new();
    for i in 0..items.len()
        invariant
            dots@.len() == i,
            forall|j: int| 0 <= j < i ==> shows(#[trigger] dots@[j], items@[j], tick),
    {
        let s = &items[i];
        dots.push(
            StructureDot {
                id: s.id,
                x: s.x,
                y: s.y,
                kind: s.kind.as_str(),
                lit: s.is_lit(tick),
                condition: s.condition,
            },
        );
    }
    dots
}

pub open spec fn is_of_stage(stage: LifeStage) -> spec_fn(CreatureV) -> bool {
    |c: CreatureV| c.life_stage == stage
}

pub open spec fn is_spoken_for() -> spec_fn(CreatureV) -> bool {
    |c: CreatureV| c.mate_id is Some
}

pub open spec fn is_expecting() -> spec_fn(CreatureV) -> bool {
    |c: CreatureV| c.pregnancy is Some
}

pub open spec fn is_on_model_plan() -> spec_fn(CreatureV) -> bool {
    |c: CreatureV| runs_model_plan(c)
}

/// A population by what it is doing.
#[derive(Debug, Clone, Copy, PartialEq, Eq, Structural)]
pub struct Census {
    pub infants: u32,
    pub adults: u32,
    pub elders: u32,
    pub paired: u32,
    pub expecting: u32,
    pub on_model_plans: u32,
    pub deepest_generation: i32,
}

/// The highest generation among the first `n`; the first generation if there is
/// nobody.
pub open spec fn deepest(people: Seq<CreatureV>, n: nat) -> i32
    decreases n,
{
    if n == 0 {
        1
    } else if n == 1 {
        people[0].generation
    } else {
        let before = deepest(people, (n - 1) as nat);
        if people[n - 1].generation > before {
            people[n - 1].generation
        } else {
            before
        }
    }
}

pub open spec fn census_of(people: Seq<CreatureV>) -> Census {
    Census {
        infants: count_where(people, is_of_stage(LifeStage::Infant)) as u32,
        adults: count_where(people, is_of_stage(LifeStage::Adult)) as u32,
        elders: count_where(people, is_of_stage(LifeStage::Elder)) as u32,
        paired: count_where(people, is_spoken_for()) as u32,
        expecting: count_where(people, is_expecting()) as u32,
        on_model_plans: count_where(people, is_on_model_plan()) as u32,
        deepest_generation: deepest(people, people.len()),
    }
}

proof fn lemma_count_step(people: Seq<CreatureV>, i: int, p: spec_fn(CreatureV) -> bool)
    requires
        0 <= i < people.len(),
    ensures
        count_where(people.take(i + 1), p) == count_where(people.take(i), p) + if p(people[i]) {
            1nat
        } else {
            0nat
        },
        count_where(people.take(i), p) <= i,
{
    assert(people.take(i + 1).drop_last() == people.take(i));
    lemma_count_where_bound(people.take(i), p);
}

proof fn lemma_deepest_prefix(people: Seq<CreatureV>, i: int, n: nat)
    requires
        0 <= n <= i <= people.len(),
    ensures
        deepest(people.take(i), n) == deepest(people, n),
    decreases n,
{
    if n > 1 {
        lemma_deepest_prefix(people, i, (n - 1) as nat);
    }
}

/// Every creature counted once.
pub fn take_census(creatures: &Vec<Creature>) -> (r: Census)
    requires
        creatures@.len() <= u32::MAX,
    ensures
        r == census_of(people_of(creatures@)),
{
    let ghost people = people_of(creatures@);
    let mut r = Census {
        infants: 0,
        adults: 0,
        elders: 0,
        paired: 0,
        expecting: 0,
        on_model_plans: 0,
        deepest_generation: 1,
    };
    assert(people.take(0).len() == 0);
    for i in 0..creatures.len()
        invariant
            people == people_of(creatures@),
            people.len() <= u32::MAX,
            r == census_of(people.take(i as int)),
    {
        let c = &creatures[i];
        proof {
            assert(people[i as int] == c@);
            lemma_count_step(people, i as int, is_of_stage(LifeStage::Infant));
            lemma_count_step(people, i as int, is_of_stage(LifeStage::Adult));
            lemma_count_step(people, i as int, is_of_stage(LifeStage::Elder));
            lemma_count_step(people, i as int, is_spoken_for());
            lemma_count_step(people, i as int, is_expecting());
            lemma_count_step(people, i as int, is_on_model_plan());
            lemma_deepest_prefix(people, i as int, i as nat);
            lemma_deepest_prefix(people, i + 1, (i + 1) as nat);
        }
        match c.life_stage {
            LifeStage::Infant => r.infants = r.infants + 1,
            LifeStage::Adult => r.adults = r.adults + 1,
            LifeStage::Elder => r.elders = r.elders + 1,
        }
        if c.mate_id.is_some() {
            r.paired = r.paired + 1;
        }
        if c.pregnancy.is_some() {
            r.expecting = r.expecting + 1;
        }
        if model_plan(c) {
            r.on_model_plans = r.on_model_plans + 1;
        }
        if i == 0 || c.generation > r.deepest_generation {
            r.deepest_generation = c.generation;
        }
    }
    assert(people.take(people.len() as int) == people);
    r
}

/// Everybody is an infant, an adult or an elder, and only one of them.
pub proof fn law_the_stages_add_up(people: Seq<CreatureV>)
    ensures
        count_where(people, is_of_stage(LifeStage::Infant)) + count_where(people, is_of_stage(LifeStage::Adult))
            + count_where(people, is_of_stage(LifeStage::Elder)) == people.len(),
    decreases people.len(),
{
    if people.len() > 0 {
        law_the_stages_add_up(people.drop_last());
    }
}

/// A line of news.
#[derive(Debug)]
pub struct TickerLine {
    pub tick: i64,
    pub kind: &'static str,
    pub text: String,
    /// "death", "birth", or nothing: how the line is stressed.
    pub tone: &'static str,
}

/// A line of news with its words as sequences.
#[verifier::ext_equal]
pub struct TickerV {
    pub tick: i64,
    pub kind: Seq<char>,
    pub text: Seq<char>,
    pub tone: Seq<char>,
}

impl View for TickerLine {
    type V = TickerV;

    open spec fn view(&self) -> TickerV {
        TickerV { tick: self.tick, kind: self.kind@, text: self.text@, tone: self.tone@ }
    }
}

pub open spec fn news_of(lines: Seq<TickerLine>) -> Seq<TickerV> {
    Seq::new(lines.len(), |i: int| lines[i]@)
}

pub open spec fn whom(e: EventV) -> Seq<char> {
    "#"@ + integer_text(
        match e.actor_id {
            Some(id) => id as int,
            None => 0,
        },
    )
}

pub open spec fn place_text(e: EventV) -> Seq<char> {
    integer_text(
        match e.x {
            Some(x) => x as int,
            None => 0,
        },
    ) + ","@ + integer_text(
        match e.y {
            Some(y) => y as int,
            None => 0,
        },
    )
}

/// Whether a letter parts words.
pub open spec fn parts_words(c: char) -> bool {
    match c {
        ' ' | '\t' | '\n' | '\u{b}' | '\u{c}' | '\r' | '\u{85}' | '\u{a0}' | '\u{1680}' | '\u{2000}' | '\u{2001}'
        | '\u{2002}' | '\u{2003}' | '\u{2004}' | '\u{2005}' | '\u{2006}' | '\u{2007}' | '\u{2008}' | '\u{2009}'
        | '\u{200a}' | '\u{2028}' | '\u{2029}' | '\u{202f}' | '\u{205f}' | '\u{3000}' => true,
        _ => false,
    }
}

/// The first word of a text from which what parts words is left off in front.
pub open spec fn first_word(s: Seq<char>) -> Seq<char>
    decreases s.len(),
{
    if s.len() == 0 {
        s
    } else if parts_words(s[0]) {
        first_word(s.skip(1))
    } else {
        leading_word(s)
    }
}

/// The letters in front of the first that parts words.
pub open spec fn leading_word(s: Seq<char>) -> Seq<char>
    decreases s.len(),
{
    if s.len() == 0 || parts_words(s.last()) {
        if s.len() == 0 {
            s
        } else {
            leading_word(s.drop_last())
        }
    } else {
        let before = leading_word(s.drop_last());
        if before.len() == s.len() - 1 {
            s
        } else {
            before
        }
    }
}

/// Whether a text begins with another.
pub open spec fn begins_with(s: Seq<char>, key: Seq<char>) -> bool {
    s.len() >= key.len() && s.take(key.len() as int) == key
}

/// A text from the letter `i` on, with every occurrence of another taken out.
pub open spec fn without(s: Seq<char>, key: Seq<char>, i: int) -> Seq<char>
    decreases s.len() - i,
{
    if i < 0 || i >= s.len() {
        Seq::empty()
    } else if key.len() > 0 && begins_with(s.skip(i), key) {
        without(s, key, i + key.len())
    } else {
        seq![s[i]] + without(s, key, i + 1)
    }
}

/// What somebody died of, by the first word of what is told of it.
pub open spec fn cause_in(payload: Seq<char>) -> Seq<char> {
    without(first_word(payload), "cause="@, 0)
}

/// How an event is told to somebody watching: its stress and its words. Discovery
/// and routine upkeep are the bulk of the log and would bury everything.
pub open spec fn headline_of(e: EventV) -> Option<(Seq<char>, Seq<char>)> {
    match e.kind {
        EventKind::Died => Some(("death"@, whom(e) + " died \u{2014} "@ + cause_in(e.payload))),
        EventKind::Born => Some(("birth"@, whom(e) + " was born"@)),
        EventKind::Settled => Some(("birth"@, whom(e) + " arrived as a settler"@)),
        EventKind::ShelterBuilt => Some((""@, whom(e) + " raised a shelter at "@ + place_text(e))),
        EventKind::Planted => Some((""@, whom(e) + " planted wheat at "@ + place_text(e))),
        EventKind::Slaughtered => Some((""@, whom(e) + " slaughtered a sheep"@)),
        EventKind::FireLit => Some((""@, whom(e) + " lit a fire at "@ + place_text(e))),
        EventKind::Injured => Some(("death"@, whom(e) + " was hurt working"@)),
        EventKind::FellIll => Some(("death"@, whom(e) + " fell ill"@)),
        _ => None,
    }
}

fn whom_text(e: &Event) -> (s: String)
    ensures
        s@ == whom(e@),
{
    let mut s = "#".to_owned();
    let id = match e.actor_id {
        Some(id) => id,
        None => 0,
    };
    s.append(integer(id).as_str());
    s
}

fn append_place(s: &mut String, e: &Event)
    ensures
        final(s)@ == old(s)@ + place_text(e@),
{
    let x = match e.x {
        Some(x) => x as i64,
        None => 0,
    };
    let y = match e.y {
        Some(y) => y as i64,
        None => 0,
    };
    s.append(integer(x).as_str());
    s.append(",");
    s.append(integer(y).as_str());
    assert(s@ == old(s)@ + place_text(e@));
}

fn is_space(c: char) -> (r: bool)
    ensures
        r == parts_words(c),
{
    match c {
        ' ' | '\t' | '\n' | '\u{b}' | '\u{c}' | '\r' | '\u{85}' | '\u{a0}' | '\u{1680}' | '\u{2000}' | '\u{2001}'
        | '\u{2002}' | '\u{2003}' | '\u{2004}' | '\u{2005}' | '\u{2006}' | '\u{2007}' | '\u{2008}' | '\u{2009}'
        | '\u{200a}' | '\u{2028}' | '\u{2029}' | '\u{202f}' | '\u{205f}' | '\u{3000}' => true,
        _ => false,
    }
}

/// Where the first word begins and ends.
fn word_bounds(s: &Vec<char>) -> (r: (usize, usize))
    ensures
        r.0 <= r.1 <= s@.len(),
        s@.subrange(r.0 as int, r.1 as int) == first_word(s@),
{
    let mut from: usize = 0;
    assert(s@.skip(0) == s@);
    while from < s.len() && is_space(s[from])
        invariant
            from <= s@.len(),
            first_word(s@) == first_word(s@.skip(from as int)),
        decreases s@.len() - from,
    {
        assert(s@.skip(from as int).skip(1) == s@.skip(from + 1));
        from = from + 1;
    }
    let ghost rest = s@.skip(from as int);
    let mut to: usize = from;
    assert(rest.take(0) == leading_word(rest.take(0)));
    for i in from..s.len()
        invariant
            from <= to <= i <= s@.len(),
            rest == s@.skip(from as int),
            rest.take(to - from) == leading_word(rest.take(i - from)),
    {
        let c = s[i];
        assert(rest.take(i - from + 1).drop_last() == rest.take(i - from));
        assert(rest.take(i - from + 1).last() == c);
        if to == i && !is_space(c) {
            to = i + 1;
        }
    }
    assert(rest.take(s@.len() - from) == rest);
    assert(s@.subrange(from as int, to as int) == rest.take(to - from));
    proof {
        if from < s@.len() {
            assert(rest[0] == s@[from as int]);
        }
    }
    (from, to)
}

/// Whether a stretch of a text begins with another text from the letter `i` on.
fn begins(s: &Vec<char>, i: usize, to: usize, key: &Vec<char>) -> (r: bool)
    requires
        i <= to <= s@.len(),
    ensures
        r == begins_with(s@.subrange(i as int, to as int), key@),
{
    if to - i < key.len() {
        return false;
    }
    let ghost rest = s@.subrange(i as int, to as int);
    for j in 0..key.len()
        invariant
            i <= to <= s@.len(),
            rest == s@.subrange(i as int, to as int),
            rest.len() >= key@.len(),
            forall|k: int| 0 <= k < j ==> rest[k] == #[trigger] key@[k],
    {
        if s[i + j] != key[j] {
            assert(rest[j as int] != key@[j as int]);
            assert(rest.take(key@.len() as int)[j as int] == rest[j as int]);
            return false;
        }
    }
    assert(rest.take(key@.len() as int) == key@);
    true
}

fn cause_text(payload: &str) -> (s: String)
    ensures
        s@ == cause_in(payload@),
{
    let all = letters(payload);
    let (from, to) = word_bounds(&all);
    let key = letters("cause=");
    proof {
        reveal_strlit("cause=");
        reveal_strlit("");
    }
    let ghost word = all@.subrange(from as int, to as int);
    let mut out = "".to_owned();
    let mut i: usize = from;
    assert(out@ + without(word, key@, 0) == without(word, key@, 0));
    while i < to
        invariant
            key@.len() == 6,
            all@ == payload@,
            from <= i <= to <= all@.len(),
            word == all@.subrange(from as int, to as int),
            out@ + without(word, key@, i - from) == without(word, key@, 0),
        decreases to - i,
    {
        let ghost before = out@;
        assert(word.skip(i - from) == all@.subrange(i as int, to as int));
        if begins(&all, i, to, &key) {
            i = i + key.len();
        } else {
            out.append(payload.substring_char(i, i + 1));
            assert(out@ == before + seq![word[i - from]]);
            assert(before + (seq![word[i - from]] + without(word, key@, i - from + 1)) == out@ + without(
                word,
                key@,
                i - from + 1,
            ));
            i = i + 1;
        }
    }
    assert(out@ == without(word, key@, 0));
    out
}

fn headline(e: &Event) -> (r: Option<(&'static str, String)>)
    ensures
        match r {
            Some((tone, text)) => headline_of(e@) == Some((tone@, text@)),
            None => headline_of(e@) is None,
        },
{
    let mut s = whom_text(e);
    match e.kind {
        EventKind::Died => {
            s.append(" died \u{2014} ");
            s.append(cause_text(e.payload.as_str()).as_str());
            Some(("death", s))
        },
        EventKind::Born => {
            s.append(" was born");
            Some(("birth", s))
        },
        EventKind::Settled => {
            s.append(" arrived as a settler");
            Some(("birth", s))
        },
        EventKind::ShelterBuilt => {
            s.append(" raised a shelter at ");
            append_place(&mut s, e);
            Some(("", s))
        },
        EventKind::Planted => {
            s.append(" planted wheat at ");
            append_place(&mut s, e);
            Some(("", s))
        },
        EventKind::Slaughtered => {
            s.append(" slaughtered a sheep");
            Some(("", s))
        },
        EventKind::FireLit => {
            s.append(" lit a fire at ");
            append_place(&mut s, e);
            Some(("", s))
        },
        EventKind::Injured => {
            s.append(" was hurt working");
            Some(("death", s))
        },
        EventKind::FellIll => {
            s.append(" fell ill");
            Some(("death", s))
        },
        _ => None,
    }
}

/// The news with the first `n` events of a log told, newest first.
pub open spec fn told_of(news: Seq<TickerV>, log: Seq<EventV>, n: nat) -> Seq<TickerV>
    decreases n,
{
    if n == 0 {
        news
    } else {
        let before = told_of(news, log, (n - 1) as nat);
        let e = log[n - 1];
        match headline_of(e) {
            Some((tone, text)) => seq![TickerV { tick: e.tick, kind: e.kind.text(), text, tone }] + before,
            None => before,
        }
    }
}

/// The news after a tick: no more lines than are kept.
pub open spec fn news_after(news: Seq<TickerV>, log: Seq<EventV>) -> Seq<TickerV> {
    let all = told_of(news, log, log.len());
    if all.len() > NEWS_LINES {
        all.take(NEWS_LINES as int)
    } else {
        all
    }
}

/// Tells the events of a tick.
pub fn collect_ticker(lines: &mut Vec<TickerLine>, events: &Vec<Event>)
    ensures
        news_of(final(lines)@) == news_after(news_of(old(lines)@), log_of(events@)),
{
    let ghost start = news_of(lines@);
    let ghost log = log_of(events@);
    for i in 0..events.len()
        invariant
            log == log_of(events@),
            news_of(lines@) == told_of(start, log, i as nat),
    {
        let e = &events[i];
        assert(log[i as int] == e@);
        let ghost before = news_of(lines@);
        if let Some((tone, text)) = headline(e) {
            let line = TickerLine { tick: e.tick, kind: e.kind.as_str(), text, tone };
            let ghost v = line@;
            lines.insert(0, line);
            assert(news_of(lines@) =~= seq![v] + before);
        }
    }
    let ghost all = lines@;
    while lines.len() > NEWS_LINES
        invariant
            lines@.len() <= all.len(),
            lines@.len() >= NEWS_LINES || lines@.len() == all.len(),
            lines@ == all.take(lines@.len() as int),
        decreases lines@.len(),
    {
        lines.pop();
    }
    assert(news_of(lines@) =~= news_after(start, log));
}

/// The cell of the coverage grid that a place falls in.
pub open spec fn cover_cell(x: u32, y: u32, dim: int) -> int {
    let cx = if (x / COVER_CELL) < dim {
        (x / COVER_CELL) as int
    } else {
        dim - 1
    };
    let cy = if (y / COVER_CELL) < dim {
        (y / COVER_CELL) as int
    } else {
        dim - 1
    };
    cy * dim + cx
}

/// How bright a belief shines.
pub open spec fn brightness(b: Belief, tick: i64, k: &KnowledgeConfig) -> u8 {
    (b.confidence_at_spec(tick, k) * num(BRIGHTEST)).truncated(u8::MAX as nat) as u8
}

/// The brightest that any of some beliefs shines in a cell.
pub open spec fn brightest_of(beliefs: Seq<Belief>, cell: int, dim: int, tick: i64, k: &KnowledgeConfig) -> u8
    decreases beliefs.len(),
{
    if beliefs.len() == 0 {
        0
    } else {
        let before = brightest_of(beliefs.drop_last(), cell, dim, tick, k);
        let b = beliefs.last();
        if cover_cell(b.x, b.y, dim) == cell && brightness(b, tick, k) > before {
            brightness(b, tick, k)
        } else {
            before
        }
    }
}

/// The brightest that anything known to the first `n` shines in a cell.
pub open spec fn brightest_known(
    people: Seq<CreatureV>,
    n: nat,
    cell: int,
    dim: int,
    tick: i64,
    k: &KnowledgeConfig,
) -> u8
    decreases n,
{
    if n == 0 {
        0
    } else {
        let before = brightest_known(people, (n - 1) as nat, cell, dim, tick, k);
        let own = brightest_of(people[n - 1].beliefs, cell, dim, tick, k);
        if own > before {
            own
        } else {
            before
        }
    }
}

fn shine(grid: &mut Vec<u8>, beliefs: &Vec<Belief>, dim: u32, tick: i64, k: &KnowledgeConfig)
    requires
        dim > 0,
        old(grid)@.len() == dim * dim,
        dim * dim <= u32::MAX,
    ensures
        final(grid)@.len() == old(grid)@.len(),
        forall|c: int|
            0 <= c < final(grid)@.len() ==> #[trigger] final(grid)@[c] == if brightest_of(
                beliefs@,
                c,
                dim as int,
                tick,
                k,
            ) > old(grid)@[c] {
                brightest_of(beliefs@, c, dim as int, tick, k)
            } else {
                old(grid)@[c]
            },
{
    let ghost start = grid@;
    assert(beliefs@.take(0).len() == 0);
    for i in 0..beliefs.len()
        invariant
            dim > 0,
            start.len() == dim * dim,
            dim * dim <= u32::MAX,
            grid@.len() == start.len(),
            forall|c: int|
                0 <= c < start.len() ==> #[trigger] grid@[c] == if brightest_of(
                    beliefs@.take(i as int),
                    c,
                    dim as int,
                    tick,
                    k,
                ) > start[c] {
                    brightest_of(beliefs@.take(i as int), c, dim as int, tick, k)
                } else {
                    start[c]
                },
    {
        let b = &beliefs[i];
        let ghost before = grid@;
        let cx = if b.x / COVER_CELL < dim {
            b.x / COVER_CELL
        } else {
            dim - 1
        };
        let cy = if b.y / COVER_CELL < dim {
            b.y / COVER_CELL
        } else {
            dim - 1
        };
        proof {
            assert(beliefs@.take(i + 1).drop_last() == beliefs@.take(i as int));
            assert(0 <= cy * dim && cy * dim + cx < dim * dim) by (nonlinear_arith)
                requires
                    0 <= cx < dim,
                    0 <= cy < dim,
            ;
        }
        let at = (cy * dim + cx) as usize;
        assert(at == cover_cell(b.x, b.y, dim as int));
        let v = (b.confidence_at(tick, k) * num(BRIGHTEST)).to_u8();
        if v > grid[at] {
            grid.set(at, v);
        }
        assert forall|c: int| 0 <= c < start.len() implies #[trigger] grid@[c] == if brightest_of(
            beliefs@.take(i + 1),
            c,
            dim as int,
            tick,
            k,
        ) > start[c] {
            brightest_of(beliefs@.take(i + 1), c, dim as int, tick, k)
        } else {
            start[c]
        } by {
            assert(before[c] == if brightest_of(beliefs@.take(i as int), c, dim as int, tick, k) > start[c] {
                brightest_of(beliefs@.take(i as int), c, dim as int, tick, k)
            } else {
                start[c]
            });
        }
    }
    assert(beliefs@.take(beliefs@.len() as int) == beliefs@);
}

/// What the community collectively knows, reduced to a coverage grid: one byte
/// per cell, the strongest confidence anyone holds about anything in it. Also the
/// side of the grid, and the tiles to a cell.
pub fn collective_map(creatures: &Vec<Creature>, width: u32, tick: i64, k: &KnowledgeConfig) -> (r: (Vec<u8>, u32, u32))
    requires
        width > 0,
        groups(width, COVER_CELL) * groups(width, COVER_CELL) <= u32::MAX,
    ensures
        r.1 == groups(width, COVER_CELL),
        r.2 == COVER_CELL,
        r.0@.len() == r.1 * r.1,
        forall|c: int|
            0 <= c < r.0@.len() ==> #[trigger] r.0@[c] == brightest_known(
                people_of(creatures@),
                creatures@.len(),
                c,
                r.1 as int,
                tick,
                k,
            ),
{
    let dim = div_ceil(width, COVER_CELL);
    assert(dim == (width + 7) / 8);
    let cells = dim * dim;
    let mut grid: Vec<u8> = Vec::new();
    for i in 0..cells
        invariant
            grid@.len() == i,
            forall|c: int| 0 <= c < i ==> #[trigger] grid@[c] == 0,
    {
        grid.push(0);
    }
    let ghost people = people_of(creatures@);
    for i in 0..creatures.len()
        invariant
            people == people_of(creatures@),
            dim > 0,
            grid@.len() == dim * dim,
            dim * dim <= u32::MAX,
            forall|c: int|
                0 <= c < grid@.len() ==> #[trigger] grid@[c] == brightest_known(people, i as nat, c, dim as int, tick, k),
    {
        assert(people[i as int] == creatures@[i as int]@);
        let ghost before = grid@;
        shine(&mut grid, &creatures[i].beliefs, dim, tick, k);
        assert forall|c: int| 0 <= c < grid@.len() implies #[trigger] grid@[c] == brightest_known(
            people,
            (i + 1) as nat,
            c,
            dim as int,
            tick,
            k,
        ) by {
            assert(before[c] == brightest_known(people, i as nat, c, dim as int, tick, k));
        }
    }
    (grid, dim, COVER_CELL)
}

/// Each flag of a dot says one thing: from the lowest, hungry, thirsty, cold, under a
/// roof, at a fire, waited for, and on a plan of the model's.
pub proof fn law_each_flag_says_one_thing(c: CreatureV, threshold: Num, calls: Seq<Call>)
    ensures
        ({
            let f = dot_of(c, threshold, calls).flags as int;
            &&& 0 <= f < 128
            &&& f % 2 == 1 <==> c.hunger.lt(threshold)
            &&& f / 2 % 2 == 1 <==> c.thirst.lt(threshold)
            &&& f / 4 % 2 == 1 <==> c.warmth.lt(threshold)
            &&& f / 8 % 2 == 1 <==> c.in_shelter is Some
            &&& f / 16 % 2 == 1 <==> c.at_fire
            &&& f / 32 % 2 == 1 <==> is_waiting(calls, c.id)
            &&& f / 64 % 2 == 1 <==> (c.plan matches Some(p) && p.tier == 2)
        }),
        dot_of(c, threshold, calls).id == c.id,
        dot_of(c, threshold, calls).x == c.x,
        dot_of(c, threshold, calls).y == c.y,
        dot_of(c, threshold, calls).stage == if c.life_stage == LifeStage::Infant {
            0u8
        } else if c.life_stage == LifeStage::Adult {
            1u8
        } else {
            2u8
        },
{
}

/// The deepest generation is somebody's, and nobody's is deeper.
pub proof fn law_the_deepest_is_the_deepest(people: Seq<CreatureV>, n: nat)
    requires
        0 < n <= people.len(),
    ensures
        exists|i: int| 0 <= i < n && (#[trigger] people[i]).generation == deepest(people, n),
        forall|i: int| 0 <= i < n ==> (#[trigger] people[i]).generation <= deepest(people, n),
    decreases n,
{
    if n > 1 {
        law_the_deepest_is_the_deepest(people, (n - 1) as nat);
        let i = choose|i: int| 0 <= i < n - 1 && (#[trigger] people[i]).generation == deepest(people, (n - 1) as nat);
        assert(people[i].generation <= deepest(people, n));
        assert(people[n - 1].generation <= deepest(people, n));
    } else {
        assert(people[0].generation == deepest(people, n));
    }
}

/// What makes news: births and arrivals, deaths, injuries and illness, and what is
/// raised, sown, killed and lit; nothing else does. Bad news is toned as such, and
/// good news.
pub proof fn law_what_makes_news(e: EventV)
    ensures
        headline_of(e) is Some <==> e.kind == EventKind::Died || e.kind == EventKind::Born || e.kind == EventKind::Settled
            || e.kind == EventKind::ShelterBuilt || e.kind == EventKind::Planted || e.kind == EventKind::Slaughtered
            || e.kind == EventKind::FireLit || e.kind == EventKind::Injured || e.kind == EventKind::FellIll,
        headline_of(e) matches Some((tone, text)) ==> {
            let grim = e.kind == EventKind::Died || e.kind == EventKind::Injured || e.kind == EventKind::FellIll;
            let glad = e.kind == EventKind::Born || e.kind == EventKind::Settled;
            tone == if grim {
                "death"@
            } else if glad {
                "birth"@
            } else {
                ""@
            }
        },
{
}

/// The latest news is on top, and of the old only the oldest drops off the end: one
/// more event that makes news heads what there was, and one that makes none changes
/// nothing.
pub proof fn law_the_latest_news_is_on_top(news: Seq<TickerV>, log: Seq<EventV>, n: nat)
    requires
        n < log.len(),
    ensures
        ({
            let (before, after) = (told_of(news, log, n), told_of(news, log, (n + 1) as nat));
            &&& headline_of(log[n as int]) is None ==> after == before
            &&& headline_of(log[n as int]) matches Some((tone, text)) ==> after.len() == before.len() + 1 && after[0].text
                == text && after[0].tone == tone && after[0].tick == log[n as int].tick && after.skip(1) == before
        }),
        news_after(news, log).len() <= 40,
        forall|k: int|
            0 <= k < news_after(news, log).len() ==> #[trigger] news_after(news, log)[k] == told_of(
                news,
                log,
                log.len(),
            )[k],
{
    let before = told_of(news, log, n);
    let after = told_of(news, log, (n + 1) as nat);
    if headline_of(log[n as int]) is Some {
        assert(after.skip(1) =~= before);
    }
}

/// The map of what is known shows the surest anybody is of anything in a cell.
pub proof fn law_the_surest_shows(beliefs: Seq<Belief>, cell: int, dim: int, tick: i64, k: &KnowledgeConfig, i: int)
    requires
        0 <= i < beliefs.len(),
    ensures
        cover_cell(beliefs[i].x, beliefs[i].y, dim) == cell ==> brightness(beliefs[i], tick, k) <= brightest_of(
            beliefs,
            cell,
            dim,
            tick,
            k,
        ),
        brightest_of(beliefs, cell, dim, tick, k) > 0 ==> exists|j: int|
            0 <= j < beliefs.len() && cover_cell((#[trigger] beliefs[j]).x, beliefs[j].y, dim) == cell && brightness(
                beliefs[j],
                tick,
                k,
            ) == brightest_of(beliefs, cell, dim, tick, k),
    decreases beliefs.len(),
{
    let shorter = beliefs.drop_last();
    assert(beliefs[beliefs.len() - 1] == beliefs.last());
    assert(forall|j: int| 0 <= j < shorter.len() ==> #[trigger] beliefs[j] == shorter[j]);
    if shorter.len() > 0 {
        let m = if i < shorter.len() {
            i
        } else {
            0
        };
        law_the_surest_shows(shorter, cell, dim, tick, k, m);
        if brightest_of(shorter, cell, dim, tick, k) > 0 {
            let j = choose|j: int|
                0 <= j < shorter.len() && cover_cell((#[trigger] shorter[j]).x, shorter[j].y, dim) == cell && brightness(
                    shorter[j],
                    tick,
                    k,
                ) == brightest_of(shorter, cell, dim, tick, k);
            assert(beliefs[j] == shorter[j]);
        }
    } else {
        assert(brightest_of(shorter, cell, dim, tick, k) == 0);
    }
}

/// The census counts everybody under what they are: by stage of life, the paired, the
/// expecting, and those on a plan of the model's.
pub proof fn law_the_census_counts(people: Seq<CreatureV>, c: CreatureV)
    ensures
        is_of_stage(LifeStage::Infant)(c) <==> c.life_stage == LifeStage::Infant,
        is_spoken_for()(c) <==> c.mate_id is Some,
        is_expecting()(c) <==> c.pregnancy is Some,
        is_on_model_plan()(c) <==> (c.plan matches Some(p) && p.tier == 2),
        people.len() <= u32::MAX ==> {
            let census = census_of(people);
            &&& census.infants == count_where(people, is_of_stage(LifeStage::Infant))
            &&& census.adults == count_where(people, is_of_stage(LifeStage::Adult))
            &&& census.elders == count_where(people, is_of_stage(LifeStage::Elder))
            &&& census.paired == count_where(people, is_spoken_for())
            &&& census.expecting == count_where(people, is_expecting())
            &&& census.on_model_plans == count_where(people, is_on_model_plan())
            &&& census.infants + census.adults + census.elders == people.len()
        },
{
    lemma_count_where_bound(people, is_of_stage(LifeStage::Infant));
    lemma_count_where_bound(people, is_of_stage(LifeStage::Adult));
    lemma_count_where_bound(people, is_of_stage(LifeStage::Elder));
    lemma_count_where_bound(people, is_spoken_for());
    lemma_count_where_bound(people, is_expecting());
    lemma_count_where_bound(people, is_on_model_plan());
    law_the_stages_add_up(people);
}

/// And of everybody the surest shows.
pub proof fn law_the_surest_of_all_shows(
    people: Seq<CreatureV>,
    n: nat,
    cell: int,
    dim: int,
    tick: i64,
    k: &KnowledgeConfig,
    i: int,
)
    requires
        0 <= i < n <= people.len(),
    ensures
        brightest_of(people[i].beliefs, cell, dim, tick, k) <= brightest_known(people, n, cell, dim, tick, k),
    decreases n,
{
    if i < n - 1 {
        law_the_surest_of_all_shows(people, (n - 1) as nat, cell, dim, tick, k, i);
    }
}

} // verus!
