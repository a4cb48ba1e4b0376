//! Birth.
//!
//! An infant is born with inherited traits and a small mutation, and childbirth
//! carries a real risk to the mother, which is what makes reproduction a gamble
//! rather than a free action. A birth comes in two halves, because the mutation
//! is a normal deviate made from two uniform draws: the first half draws them,
//! and the second takes the deviates that were made from them.

use crate::actions::ActionCtx;
use crate::chance::Stream;
use crate::config::WorldConfig;
use crate::creature::{people_of, with_taken, Batch, Creature, CreatureV, DeathCause, Inventory, ItemKind, Traits};
use crate::economy::NodeIndex;
use crate::event::{log_of, Event, EventV};
use crate::needs::lemma_people_update;
use crate::num::{num, Num, NOTHING};
use crate::nursery::{
    brood_of, coin_flip_sex, only_told, place_of as where_born, sex_of, spawn_at, spawned, welcomes, Brood, Place,
    Register,
};
use crate::perception::WorldCache;
use crate::records::{count_one, one_more, TickReport};
use crate::social::{
    bonded_both, draw_mutation, home_at, homes_of, inherit, inherited, lemma_home_at, mutation_at, HouseholdV,
    RelKind,
};
use crate::town::{bump, bumped, index_of, is_here, lemma_place, place_of, Town, TownV};
use vstd::prelude::*;

verus! {

/// 0.8
pub const MOTHERLY: u32 = 0x3F4C_CCCD;

/// 0.7
pub const FATHERLY: u32 = 0x3F33_3333;

/// A town in which children are being born.
#[verifier::ext_equal]
pub struct Cradle {
    pub town: TownV,
    pub next_id: i64,
    pub total_births: u64,
    pub pending: Seq<i64>,
    pub log: Seq<EventV>,
    pub rng: Stream,
    pub report: TickReport,
}

impl Cradle {
    pub open spec fn brood(self) -> Brood {
        Brood {
            people: self.town.people,
            next_id: self.next_id,
            total_births: self.total_births,
            pending: self.pending,
            log: self.log,
            rng: self.rng,
        }
    }

    /// With a newcomer.
    pub open spec fn joined_by(self, b: Brood) -> Cradle {
        Cradle {
            town: TownV { people: b.people, ..self.town },
            next_id: b.next_id,
            total_births: b.total_births,
            pending: b.pending,
            log: b.log,
            rng: b.rng,
            report: self.report,
        }
    }

    /// With one creature changed.
    pub open spec fn with(self, i: int, c: CreatureV) -> Cradle {
        Cradle { town: TownV { people: self.town.people.update(i, c), ..self.town }, ..self }
    }
}

pub open spec fn cradle_of(town: &Town, register: &Register, ctx: &ActionCtx, report: &TickReport) -> Cradle {
    Cradle {
        town: town@,
        next_id: register.next_id,
        total_births: register.total_births,
        pending: register.pending@,
        log: log_of(ctx.events@),
        rng: ctx.rng,
        report: *report,
    }
}

pub open spec fn is_due(c: CreatureV, tick: i64) -> bool {
    c.pregnancy matches Some(p) && p.due_tick <= tick
}

/// Those among the first `n` whose time has come, by place.
pub open spec fn due_in(people: Seq<CreatureV>, n: nat, tick: i64) -> Seq<usize>
    decreases n,
{
    if n == 0 {
        Seq::empty()
    } else {
        let before = due_in(people, (n - 1) as nat, tick);
        if is_due(people[n - 1], tick) {
            before.push((n - 1) as usize)
        } else {
            before
        }
    }
}

/// Whose time has come.
pub fn due_mothers(creatures: &Vec<Creature>, tick: i64) -> (due: Vec<usize>)
    ensures
        due@ == due_in(people_of(creatures@), creatures@.len(), tick),
        forall|k: int| 0 <= k < due@.len() ==> (#[trigger] due@[k]) < creatures@.len(),
{
    let ghost people = people_of(creatures@);
    let mut due: Vec<usize> = Vec::new();
    for i in 0..creatures.len()
        invariant
            people == people_of(creatures@),
            due@ == due_in(people, i as nat, tick),
            forall|k: int| 0 <= k < due@.len() ==> (#[trigger] due@[k]) < creatures@.len(),
    {
        assert(people[i as int] == creatures@[i as int]@);
        let now = match creatures[i].pregnancy {
            Some(p) => p.due_tick <= tick,
            None => false,
        };
        if now {
            due.push(i);
        }
    }
    due
}

/// The uniform draws that the mutation of each trait is made from.
#[derive(Debug, Clone, Copy)]
pub struct Draws {
    pub boldness: (Num, Num),
    pub industry: (Num, Num),
    pub sociability: (Num, Num),
    pub caution: (Num, Num),
}

/// The normal deviates by which a child differs from its parents.
#[derive(Debug, Clone, Copy, PartialEq, Eq, Structural)]
pub struct Deviates {
    pub boldness: Num,
    pub industry: Num,
    pub sociability: Num,
    pub caution: Num,
}

/// A birth half done.
#[derive(Debug, Clone, Copy)]
pub struct Labour {
    /// The mother's place in the list.
    pub place: usize,
    pub mother_id: i64,
    pub father_id: i64,
    pub x: u32,
    pub y: u32,
    pub household: Option<i64>,
    pub generation: i32,
    pub mother: Traits,
    /// The father's traits, or the mother's if he is gone.
    pub father: Traits,
    pub draws: Draws,
}

/// The stream two draws on.
pub open spec fn two_on(s: Stream) -> Stream {
    s.stepped().stepped()
}

pub open spec fn draws_at(s: Stream) -> Draws {
    Draws {
        boldness: mutation_at(s),
        industry: mutation_at(two_on(s)),
        sociability: mutation_at(two_on(two_on(s))),
        caution: mutation_at(two_on(two_on(two_on(s)))),
    }
}

/// The stream after the draws.
pub open spec fn drawn_out(s: Stream) -> Stream {
    two_on(two_on(two_on(two_on(s))))
}

/// What a birth leaves of a store: it draws on grain, or if there is none on
/// meat, or if there is none on forage.
pub open spec fn drawn_on(store: Seq<Batch>, want: Num) -> Seq<Batch> {
    let (a, grain) = with_taken(store, ItemKind::Grain, want);
    if grain.gt(num(NOTHING)) {
        a
    } else {
        let (b, meat) = with_taken(a, ItemKind::Meat, want);
        if meat.gt(num(NOTHING)) {
            b
        } else {
            with_taken(b, ItemKind::Forage, want).0
        }
    }
}

/// The homes after a birth in one of them.
pub open spec fn fed_from(homes: Seq<HouseholdV>, home: Option<i64>, want: Num) -> Seq<HouseholdV> {
    match home {
        Some(id) if home_at(homes, id) < homes.len() => {
            let i = home_at(homes, id);
            homes.update(i, HouseholdV { store: drawn_on(homes[i].store, want), dirty: true, ..homes[i] })
        },
        _ => homes,
    }
}

/// The traits of somebody, or others if they are gone.
pub open spec fn traits_of(people: Seq<CreatureV>, id: i64, otherwise: Traits) -> Traits {
    if is_here(people, id) {
        people[place_of(people, id)].traits
    } else {
        otherwise
    }
}

/// The first half of a birth.
pub open spec fn laboured(k: Cradle, i: int, cfg: &WorldConfig, tick: i64) -> (Cradle, Option<Labour>) {
    let m = k.town.people[i];
    match m.pregnancy {
        None => (k, None),
        Some(p) => {
            let a = k.with(i, CreatureV { pregnancy: None, last_birth_tick: Some(tick), dirty: true, ..m });
            let after = Cradle {
                town: TownV {
                    homes: fed_from(a.town.homes, m.household_id, cfg.reproduction.birth_store_cost),
                    ..a.town
                },
                rng: drawn_out(a.rng),
                ..a
            };
            let labour = Labour {
                place: i as usize,
                mother_id: m.id,
                father_id: p.father_id,
                x: m.x,
                y: m.y,
                household: m.household_id,
                generation: m.generation,
                mother: m.traits,
                father: traits_of(a.town.people, p.father_id, m.traits),
                draws: draws_at(k.rng),
            };
            (after, Some(labour))
        },
    }
}

fn draw_on(store: &mut Inventory, want: Num)
    ensures
        final(store).batches@ == drawn_on(old(store).batches@, want),
{
    if store.take(ItemKind::Grain, want).gt(num(NOTHING)) {
        return ;
    }
    if store.take(ItemKind::Meat, want).gt(num(NOTHING)) {
        return ;
    }
    store.take(ItemKind::Forage, want);
}

/// A household fed a birth.
fn feed_from(town: &mut Town, home: Option<i64>, want: Num)
    ensures
        final(town)@ == (TownV { homes: fed_from(old(town)@.homes, home, want), ..old(town)@ }),
        final(town).creatures == old(town).creatures,
        final(town).relationships == old(town).relationships,
{
    if let Some(id) = home {
        proof {
            lemma_home_at(town.households.items@, id);
        }
        let ghost before = town.households.items@;
        let i = town.households.position(id);
        if i < town.households.items.len() {
            {
                let h = &mut town.households.items[i];
                draw_on(&mut h.store, want);
                h.dirty = true;
            }
            proof {
                assert(town.households.items@ == before.update(i as int, town.households.items@[i as int]));
                assert(homes_of(town.households.items@) == fed_from(homes_of(before), home, want));
            }
        }
    }
}

/// The first half of a birth: the end of the pregnancy, what it costs the store,
/// and the draws that decide how the child will differ.
pub fn begin_birth(
    town: &mut Town,
    rng: &mut Stream,
    place: usize,
    cfg: &WorldConfig,
    tick: i64,
    register: &Register,
    events: &Vec<Event>,
    report: &TickReport,
) -> (labour: Option<Labour>)
    requires
        old(town).wf(),
        place < old(town).creatures@.len(),
    ensures
        ({
            let before = Cradle {
                town: old(town)@,
                next_id: register.next_id,
                total_births: register.total_births,
                pending: register.pending@,
                log: log_of(events@),
                rng: *old(rng),
                report: *report,
            };
            let (after, l) = laboured(before, place as int, cfg, tick);
            &&& labour == l
            &&& final(town)@ == after.town
            &&& *final(rng) == after.rng
            &&& after == (Cradle { town: after.town, rng: after.rng, ..before })
        }),
        final(town).wf(),
        final(town).creatures@.len() == old(town).creatures@.len(),
        labour matches Some(l) ==> l.place == place && l.x == old(town).creatures@[place as int].x && l.y == old(
            town,
        ).creatures@[place as int].y,
{
    let ghost start = town.creatures@;
    assert(people_of(start)[place as int] == start[place as int]@);
    let p = match town.creatures[place].pregnancy {
        Some(p) => p,
        None => {
            return None;
        },
    };
    let c = &town.creatures[place];
    let (mother_id, x, y) = (c.id, c.x, c.y);
    let household = c.household_id;
    let generation = c.generation;
    let mother = c.traits;
    {
        let c = &mut town.creatures[place];
        c.pregnancy = None;
        c.last_birth_tick = Some(tick);
        c.dirty = true;
    }
    proof {
        lemma_people_update(start, place as int, town.creatures@[place as int]);
        assert(town.creatures@ == start.update(place as int, town.creatures@[place as int]));
        lemma_place(people_of(town.creatures@), p.father_id);
    }
    let father = match index_of(&town.creatures, p.father_id) {
        Some(j) => town.creatures[j].traits,
        None => mother,
    };
    feed_from(town, household, cfg.reproduction.birth_store_cost);
    let boldness = draw_mutation(rng);
    let industry = draw_mutation(rng);
    let sociability = draw_mutation(rng);
    let caution = draw_mutation(rng);
    Some(
        Labour {
            place,
            mother_id,
            father_id: p.father_id,
            x,
            y,
            household,
            generation,
            mother,
            father,
            draws: Draws { boldness, industry, sociability, caution },
        },
    )
}

/// A child of two parents, moved by the deviates.
pub open spec fn blended(l: Labour, z: Deviates, sigma: Num) -> Traits {
    Traits {
        boldness: inherited(l.mother.boldness, l.father.boldness, sigma, z.boldness),
        industry: inherited(l.mother.industry, l.father.industry, sigma, z.industry),
        sociability: inherited(l.mother.sociability, l.father.sociability, sigma, z.sociability),
        caution: inherited(l.mother.caution, l.father.caution, sigma, z.caution),
    }
}

/// What its parents make of a newborn. It has seen nothing: whatever it comes to
/// know, it will be taught or find out.
pub open spec fn newborn(c: CreatureV, l: Labour, z: Deviates, sigma: Num) -> CreatureV {
    CreatureV {
        mother_id: Some(l.mother_id),
        father_id: Some(l.father_id),
        household_id: l.household,
        guardian_id: Some(l.mother_id),
        traits: blended(l, z, sigma),
        beliefs: Seq::empty(),
        ..c
    }
}

/// The child put into the world.
pub open spec fn cradled(k: Cradle, p: Place, l: Labour, z: Deviates) -> Cradle {
    let sex = sex_of(k.rng.coin_here());
    let a = Cradle { rng: k.rng.stepped(), ..k };
    let b = a.joined_by(spawned(a.brood(), p, l.x, l.y, sex, 0, bump(l.generation)));
    let i = b.town.people.len() - 1;
    b.with(i, newborn(b.town.people[i], l, z, p.cfg.reproduction.mutation_sigma))
}

/// The second half of a birth. The risk to the mother is taken after the child
/// exists, so one who does not survive still leaves a child behind.
pub open spec fn delivered(k: Cradle, p: Place, l: Labour, z: Deviates) -> Cradle {
    let child = k.next_id;
    let b = cradled(k, p, l, z);
    let m = l.place as int;
    let c = b.with(m, CreatureV { children_born: bump(b.town.people[m].children_born), ..b.town.people[m] });
    let by_mother = bonded_both(c.town.bonds, l.mother_id, child, num(MOTHERLY), Some(RelKind::Kin), p.tick);
    let by_both = bonded_both(by_mother, l.father_id, child, num(FATHERLY), Some(RelKind::Kin), p.tick);
    let d = Cradle {
        town: TownV { bonds: by_both, ..c.town },
        report: TickReport { births: one_more(c.report.births), ..c.report },
        rng: c.rng.stepped(),
        ..c
    };
    if c.rng.unit_here().lt(p.cfg.reproduction.childbirth_mortality) {
        d.with(
            m,
            CreatureV {
                health: num(NOTHING),
                trauma: Some((DeathCause::Childbirth, p.tick)),
                ..d.town.people[m]
            },
        )
    } else {
        d
    }
}

fn lay_in_cradle(
    town: &mut Town,
    register: &mut Register,
    ctx: &mut ActionCtx,
    cache: &WorldCache,
    index: &NodeIndex,
    scratch: &mut Vec<u32>,
    report: &TickReport,
    l: Labour,
    z: Deviates,
)
    requires
        old(town).creatures@.len() < u32::MAX,
        welcomes(old(ctx), cache, index),
        old(ctx).world.inside(l.x as int, l.y as int),
        old(register).next_id < i64::MAX,
    ensures
        cradle_of(final(town), final(register), final(ctx), report) == cradled(
            cradle_of(old(town), old(register), old(ctx), report),
            where_born(old(ctx), index@),
            l,
            z,
        ),
        final(town).relationships == old(town).relationships,
        only_told(final(ctx), old(ctx)),
        final(town).creatures@.len() == old(town).creatures@.len() + 1,
{
    let ghost k = cradle_of(town, register, ctx, report);
    let ghost p = where_born(ctx, index@);
    let ghost sex0 = sex_of(k.rng.coin_here());
    let ghost a = Cradle { rng: k.rng.stepped(), ..k };
    let ghost b = a.joined_by(spawned(a.brood(), p, l.x, l.y, sex0, 0, bump(l.generation)));
    let sigma = ctx.cfg.reproduction.mutation_sigma;
    let traits = Traits {
        boldness: inherit(l.mother.boldness, l.father.boldness, sigma, z.boldness),
        industry: inherit(l.mother.industry, l.father.industry, sigma, z.industry),
        sociability: inherit(l.mother.sociability, l.father.sociability, sigma, z.sociability),
        caution: inherit(l.mother.caution, l.father.caution, sigma, z.caution),
    };
    let sex = coin_flip_sex(&mut ctx.rng);
    assert(brood_of(&town.creatures, register, ctx) == a.brood());
    spawn_at(
        &mut town.creatures,
        register,
        ctx,
        cache,
        index,
        scratch,
        l.x,
        l.y,
        sex,
        0,
        bumped(l.generation),
    );
    assert(cradle_of(town, register, ctx, report) == b);
    let last = town.creatures.len() - 1;
    let ghost before = town.creatures@;
    {
        let c = &mut town.creatures[last];
        c.mother_id = Some(l.mother_id);
        c.father_id = Some(l.father_id);
        c.household_id = l.household;
        c.guardian_id = Some(l.mother_id);
        c.traits = traits;
        c.beliefs.clear();
    }
    proof {
        assert(people_of(before)[last as int] == before[last as int]@);
        lemma_people_update(before, last as int, town.creatures@[last as int]);
        assert(town.creatures@ == before.update(last as int, town.creatures@[last as int]));
        assert(town.creatures@[last as int]@ == newborn(before[last as int]@, l, z, sigma));
    }
}

/// The second half of a birth.
pub fn finish_birth(
    town: &mut Town,
    register: &mut Register,
    ctx: &mut ActionCtx,
    cache: &WorldCache,
    index: &NodeIndex,
    scratch: &mut Vec<u32>,
    report: &mut TickReport,
    l: Labour,
    z: Deviates,
)
    requires
        old(town).wf(),
        old(town).creatures@.len() < u32::MAX,
        l.place < old(town).creatures@.len(),
        welcomes(old(ctx), cache, index),
        old(ctx).world.inside(l.x as int, l.y as int),
        old(register).next_id < i64::MAX,
    ensures
        cradle_of(final(town), final(register), final(ctx), final(report)) == delivered(
            cradle_of(old(town), old(register), old(ctx), old(report)),
            where_born(old(ctx), index@),
            l,
            z,
        ),
        final(town).wf(),
        only_told(final(ctx), old(ctx)),
        final(town).creatures@.len() == old(town).creatures@.len() + 1,
{
    let tick = ctx.tick;
    let child = register.next_id;
    lay_in_cradle(town, register, ctx, cache, index, scratch, report, l, z);
    let ghost before = town.creatures@;
    assert(people_of(before)[l.place as int] == before[l.place as int]@);
    {
        let c = &mut town.creatures[l.place];
        c.children_born = bumped(c.children_born);
    }
    proof {
        lemma_people_update(before, l.place as int, town.creatures@[l.place as int]);
        assert(town.creatures@ == before.update(l.place as int, town.creatures@[l.place as int]));
    }
    town.relationships.adjust_both(l.mother_id, child, num(MOTHERLY), Some(RelKind::Kin), tick);
    town.relationships.adjust_both(l.father_id, child, num(FATHERLY), Some(RelKind::Kin), tick);
    report.births = count_one(report.births);
    if ctx.rng.unit().lt(ctx.cfg.reproduction.childbirth_mortality) {
        let ghost middle = town.creatures@;
        assert(people_of(middle)[l.place as int] == middle[l.place as int]@);
        {
            let c = &mut town.creatures[l.place];
            c.health = num(NOTHING);
            c.trauma = Some((DeathCause::Childbirth, tick));
        }
        proof {
            lemma_people_update(middle, l.place as int, town.creatures@[l.place as int]);
            assert(town.creatures@ == middle.update(l.place as int, town.creatures@[l.place as int]));
        }
    }
}

/// Whatever becomes of the mother, the child is there, with her as its guardian
/// and knowing nothing.
pub proof fn law_a_mother_leaves_a_child(k: Cradle, p: Place, l: Labour, z: Deviates)
    requires
        l.place < k.town.people.len(),
    ensures
        delivered(k, p, l, z).town.people.len() == k.town.people.len() + 1,
        delivered(k, p, l, z).town.people.last().id == k.next_id,
        delivered(k, p, l, z).town.people.last().mother_id == Some(l.mother_id),
        delivered(k, p, l, z).town.people.last().guardian_id == Some(l.mother_id),
        delivered(k, p, l, z).town.people.last().beliefs.len() == 0,
        delivered(k, p, l, z).town.people[l.place as int].pregnancy == k.town.people[l.place as int].pregnancy,
{
}

} // verus!
