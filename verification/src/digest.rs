//! A digest of everything a run has produced: two runs from the same seed must
//! agree on it exactly.

use crate::creature::{people_of, weight_of, Creature, CreatureV};
use crate::records::Tally;
use crate::social::{homes_of, Household, HouseholdV, Relation};
use crate::town::Town;
use crate::world::{
    hash_bytes, hash_of, law_long_words_are_told_apart, law_words_are_told_apart, lemma_split, long_bytes, push_long,
    push_word, word_bytes, ResourceNode,
};
use vstd::prelude::*;

verus! {

/// The bits of a signed integer.
pub open spec fn bits_of(i: i64) -> u64 {
    i as u64
}

pub open spec fn small_bits_of(i: i32) -> u32 {
    i as u32
}

/// A value that may be missing: whether it is there, and the value if it is.
pub open spec fn maybe_bytes(v: Option<i64>) -> Seq<u8> {
    match v {
        Some(i) => long_bytes(1) + long_bytes(bits_of(i)),
        None => long_bytes(0),
    }
}

fn push_maybe(out: &mut Vec<u8>, v: Option<i64>)
    ensures
        final(out)@ == old(out)@ + maybe_bytes(v),
{
    match v {
        Some(i) => {
            push_long(out, 1);
            push_long(out, i as u64);
            assert(out@ == old(out)@ + maybe_bytes(v));
        },
        None => push_long(out, 0),
    }
}

/// Where somebody is and how they are.
pub open spec fn body_bytes(c: CreatureV) -> Seq<u8> {
    long_bytes(bits_of(c.id)) + word_bytes(c.x) + word_bytes(c.y) + word_bytes(c.hunger.bits) + word_bytes(
        c.thirst.bits,
    ) + word_bytes(c.fatigue.bits) + word_bytes(c.warmth.bits) + word_bytes(c.health.bits) + long_bytes(
        c.beliefs.len() as u64,
    ) + word_bytes(weight_of(c.pack).bits)
}

/// Whom somebody belongs with.
pub open spec fn kin_bytes(c: CreatureV) -> Seq<u8> {
    maybe_bytes(c.household_id) + maybe_bytes(c.mate_id) + word_bytes(small_bits_of(c.generation)) + (
    match c.pregnancy {
        Some(p) => long_bytes(1) + long_bytes(bits_of(p.father_id)) + long_bytes(bits_of(p.due_tick)),
        None => long_bytes(0),
    })
}

pub open spec fn stock_bytes(n: ResourceNode) -> Seq<u8> {
    word_bytes(n.x) + word_bytes(n.y) + word_bytes(n.quantity.bits)
}

pub open spec fn home_bytes(h: HouseholdV) -> Seq<u8> {
    long_bytes(bits_of(h.id)) + maybe_bytes(h.dissolved_tick) + word_bytes(weight_of(h.store).bits)
}

pub open spec fn bond_bytes(r: Relation) -> Seq<u8> {
    long_bytes(bits_of(r.from)) + long_bytes(bits_of(r.to)) + word_bytes(r.edge.affinity.bits)
}

/// The bytes of each element of a list, one after the other.
pub open spec fn all_bytes<T>(s: Seq<T>, f: spec_fn(T) -> Seq<u8>, n: nat) -> Seq<u8>
    decreases n,
{
    if n == 0 {
        Seq::empty()
    } else {
        all_bytes(s, f, (n - 1) as nat) + f(s[n - 1])
    }
}

pub open spec fn bodies() -> spec_fn(CreatureV) -> Seq<u8> {
    |c: CreatureV| body_bytes(c)
}

pub open spec fn kinships() -> spec_fn(CreatureV) -> Seq<u8> {
    |c: CreatureV| kin_bytes(c)
}

pub open spec fn stocks() -> spec_fn(ResourceNode) -> Seq<u8> {
    |n: ResourceNode| stock_bytes(n)
}

pub open spec fn houses() -> spec_fn(HouseholdV) -> Seq<u8> {
    |h: HouseholdV| home_bytes(h)
}

pub open spec fn bonds() -> spec_fn(Relation) -> Seq<u8> {
    |r: Relation| bond_bytes(r)
}

/// The tallies, preceded by how many there are.
pub open spec fn tally_bytes(t: Tally) -> Seq<u8> {
    long_bytes(7) + word_bytes(t.slot0) + word_bytes(t.slot1) + word_bytes(t.slot2) + word_bytes(t.slot3) + word_bytes(
        t.slot4,
    ) + word_bytes(t.slot5) + word_bytes(t.slot6)
}

/// Everything a digest is taken over.
pub open spec fn state_bytes(
    tick: i64,
    people: Seq<CreatureV>,
    nodes: Seq<ResourceNode>,
    homes: Seq<HouseholdV>,
    edges: Seq<Relation>,
    deaths: Tally,
) -> Seq<u8> {
    long_bytes(bits_of(tick)) + long_bytes(people.len() as u64) + all_bytes(people, bodies(), people.len()) + all_bytes(
        people,
        kinships(),
        people.len(),
    ) + all_bytes(nodes, stocks(), nodes.len()) + all_bytes(homes, houses(), homes.len()) + all_bytes(
        edges,
        bonds(),
        edges.len(),
    ) + tally_bytes(deaths)
}

fn push_body(out: &mut Vec<u8>, c: &Creature)
    ensures
        final(out)@ == old(out)@ + body_bytes(c@),
{
    push_long(out, c.id as u64);
    push_word(out, c.x);
    push_word(out, c.y);
    push_word(out, c.hunger.bits);
    push_word(out, c.thirst.bits);
    push_word(out, c.fatigue.bits);
    push_word(out, c.warmth.bits);
    push_word(out, c.health.bits);
    push_long(out, c.beliefs.len() as u64);
    push_word(out, c.inventory.weight().bits);
    assert(out@ == old(out)@ + body_bytes(c@));
}

fn push_kin(out: &mut Vec<u8>, c: &Creature)
    ensures
        final(out)@ == old(out)@ + kin_bytes(c@),
{
    push_maybe(out, c.household_id);
    push_maybe(out, c.mate_id);
    push_word(out, c.generation as u32);
    match c.pregnancy {
        Some(p) => {
            push_long(out, 1);
            push_long(out, p.father_id as u64);
            push_long(out, p.due_tick as u64);
        },
        None => push_long(out, 0),
    }
    assert(out@ == old(out)@ + kin_bytes(c@));
}

fn push_people(out: &mut Vec<u8>, creatures: &Vec<Creature>)
    ensures
        final(out)@ == old(out)@ + all_bytes(people_of(creatures@), bodies(), creatures@.len()) + all_bytes(
            people_of(creatures@),
            kinships(),
            creatures@.len(),
        ),
{
    let ghost start = out@;
    let ghost people = people_of(creatures@);
    assert(start + Seq::<u8>::empty() == start);
    for i in 0..creatures.len()
        invariant
            people == people_of(creatures@),
            out@ == start + all_bytes(people, bodies(), i as nat),
    {
        let ghost so_far = all_bytes(people, bodies(), i as nat);
        push_body(out, &creatures[i]);
        assert(people[i as int] == creatures@[i as int]@);
        assert(start + so_far + body_bytes(people[i as int]) == start + (so_far + body_bytes(people[i as int])));
    }
    let ghost middle = out@;
    assert(middle + Seq::<u8>::empty() == middle);
    for i in 0..creatures.len()
        invariant
            people == people_of(creatures@),
            out@ == middle + all_bytes(people, kinships(), i as nat),
    {
        let ghost so_far = all_bytes(people, kinships(), i as nat);
        push_kin(out, &creatures[i]);
        assert(people[i as int] == creatures@[i as int]@);
        assert(middle + so_far + kin_bytes(people[i as int]) == middle + (so_far + kin_bytes(people[i as int])));
    }
}

fn push_stocks(out: &mut Vec<u8>, nodes: &Vec<ResourceNode>)
    ensures
        final(out)@ == old(out)@ + all_bytes(nodes@, stocks(), nodes@.len()),
{
    let ghost start = out@;
    assert(start + Seq::<u8>::empty() == start);
    for i in 0..nodes.len()
        invariant
            out@ == start + all_bytes(nodes@, stocks(), i as nat),
    {
        let ghost so_far = all_bytes(nodes@, stocks(), i as nat);
        let n = nodes[i];
        push_word(out, n.x);
        push_word(out, n.y);
        push_word(out, n.quantity.bits);
        assert(out@ == start + (so_far + stock_bytes(n)));
    }
}

fn push_homes(out: &mut Vec<u8>, homes: &Vec<Household>)
    ensures
        final(out)@ == old(out)@ + all_bytes(homes_of(homes@), houses(), homes@.len()),
{
    let ghost start = out@;
    let ghost all = homes_of(homes@);
    assert(start + Seq::<u8>::empty() == start);
    for i in 0..homes.len()
        invariant
            all == homes_of(homes@),
            out@ == start + all_bytes(all, houses(), i as nat),
    {
        let ghost so_far = all_bytes(all, houses(), i as nat);
        let h = &homes[i];
        assert(all[i as int] == h@);
        push_long(out, h.id as u64);
        push_maybe(out, h.dissolved_tick);
        push_word(out, h.store.weight().bits);
        assert(out@ == start + (so_far + home_bytes(h@)));
    }
}

fn push_bonds(out: &mut Vec<u8>, edges: &Vec<Relation>)
    ensures
        final(out)@ == old(out)@ + all_bytes(edges@, bonds(), edges@.len()),
{
    let ghost start = out@;
    assert(start + Seq::<u8>::empty() == start);
    for i in 0..edges.len()
        invariant
            out@ == start + all_bytes(edges@, bonds(), i as nat),
    {
        let ghost so_far = all_bytes(edges@, bonds(), i as nat);
        let r = edges[i];
        push_long(out, r.from as u64);
        push_long(out, r.to as u64);
        push_word(out, r.edge.affinity.bits);
        assert(out@ == start + (so_far + bond_bytes(r)));
    }
}

fn push_tally(out: &mut Vec<u8>, t: &Tally)
    ensures
        final(out)@ == old(out)@ + tally_bytes(*t),
{
    push_long(out, 7);
    push_word(out, t.slot0);
    push_word(out, t.slot1);
    push_word(out, t.slot2);
    push_word(out, t.slot3);
    push_word(out, t.slot4);
    push_word(out, t.slot5);
    push_word(out, t.slot6);
    assert(out@ == old(out)@ + tally_bytes(*t));
}

/// The digest of a state.
pub fn state_digest(tick: i64, town: &Town, nodes: &Vec<ResourceNode>, deaths: &Tally) -> (h: u64)
    ensures
        h == hash_of(
            state_bytes(
                tick,
                people_of(town.creatures@),
                nodes@,
                homes_of(town.households.items@),
                town.relationships.edges@,
                *deaths,
            ),
        ),
{
    let mut out: Vec<u8> = Vec::new();
    push_long(&mut out, tick as u64);
    push_long(&mut out, town.creatures.len() as u64);
    push_people(&mut out, &town.creatures);
    push_stocks(&mut out, nodes);
    push_homes(&mut out, &town.households.items);
    push_bonds(&mut out, &town.relationships.edges);
    push_tally(&mut out, deaths);
    assert(out@ == state_bytes(
        tick,
        people_of(town.creatures@),
        nodes@,
        homes_of(town.households.items@),
        town.relationships.edges@,
        *deaths,
    ));
    hash_bytes(&out)
}

/// Two bodies are written alike only if they are alike: in number and place, in every
/// need, in health, in how much is known and how much is carried.
pub proof fn law_bodies_are_told_apart(a: CreatureV, b: CreatureV)
    requires
        a.beliefs.len() <= u64::MAX,
        b.beliefs.len() <= u64::MAX,
    ensures
        body_bytes(a).len() == 48,
        body_bytes(a) == body_bytes(b) ==> {
            &&& bits_of(a.id) == bits_of(b.id) && a.x == b.x && a.y == b.y
            &&& a.hunger == b.hunger && a.thirst == b.thirst && a.fatigue == b.fatigue && a.warmth == b.warmth && a.health
                == b.health
            &&& a.beliefs.len() == b.beliefs.len()
            &&& weight_of(a.pack) == weight_of(b.pack)
        },
{
    law_long_words_are_told_apart(bits_of(a.id), bits_of(b.id));
    law_words_are_told_apart(a.x, b.x);
    law_words_are_told_apart(a.y, b.y);
    law_words_are_told_apart(a.hunger.bits, b.hunger.bits);
    law_words_are_told_apart(a.thirst.bits, b.thirst.bits);
    law_words_are_told_apart(a.fatigue.bits, b.fatigue.bits);
    law_words_are_told_apart(a.warmth.bits, b.warmth.bits);
    law_words_are_told_apart(a.health.bits, b.health.bits);
    law_long_words_are_told_apart(a.beliefs.len() as u64, b.beliefs.len() as u64);
    law_words_are_told_apart(weight_of(a.pack).bits, weight_of(b.pack).bits);
    if body_bytes(a) == body_bytes(b) {
        let (i, x, y, h, t) = (
            long_bytes(bits_of(a.id)),
            word_bytes(a.x),
            word_bytes(a.y),
            word_bytes(a.hunger.bits),
            word_bytes(a.thirst.bits),
        );
        let (f, w, g, n, p) = (
            word_bytes(a.fatigue.bits),
            word_bytes(a.warmth.bits),
            word_bytes(a.health.bits),
            long_bytes(a.beliefs.len() as u64),
            word_bytes(weight_of(a.pack).bits),
        );
        let (i2, x2, y2, h2, t2) = (
            long_bytes(bits_of(b.id)),
            word_bytes(b.x),
            word_bytes(b.y),
            word_bytes(b.hunger.bits),
            word_bytes(b.thirst.bits),
        );
        let (f2, w2, g2, n2, p2) = (
            word_bytes(b.fatigue.bits),
            word_bytes(b.warmth.bits),
            word_bytes(b.health.bits),
            long_bytes(b.beliefs.len() as u64),
            word_bytes(weight_of(b.pack).bits),
        );
        lemma_lengths(b);
        lemma_split(i + x + y + h + t + f + w + g + n, p, i2 + x2 + y2 + h2 + t2 + f2 + w2 + g2 + n2, p2);
        lemma_split(i + x + y + h + t + f + w + g, n, i2 + x2 + y2 + h2 + t2 + f2 + w2 + g2, n2);
        lemma_split(i + x + y + h + t + f + w, g, i2 + x2 + y2 + h2 + t2 + f2 + w2, g2);
        lemma_split(i + x + y + h + t + f, w, i2 + x2 + y2 + h2 + t2 + f2, w2);
        lemma_split(i + x + y + h + t, f, i2 + x2 + y2 + h2 + t2, f2);
        lemma_split(i + x + y + h, t, i2 + x2 + y2 + h2, t2);
        lemma_split(i + x + y, h, i2 + x2 + y2, h2);
        lemma_split(i + x, y, i2 + x2, y2);
        lemma_split(i, x, i2, x2);
    }
}

proof fn lemma_lengths(b: CreatureV)
    ensures
        long_bytes(bits_of(b.id)).len() == 8,
        long_bytes(b.beliefs.len() as u64).len() == 8,
        forall|w: u32| #[trigger] word_bytes(w).len() == 4,
{
    law_long_words_are_told_apart(bits_of(b.id), bits_of(b.id));
    law_long_words_are_told_apart(b.beliefs.len() as u64, b.beliefs.len() as u64);
    assert forall|w: u32| #[trigger] word_bytes(w).len() == 4 by {
        law_words_are_told_apart(w, w);
    }
}

/// Two stocks, households and bonds are written alike only if what is written of them
/// is alike.
pub proof fn law_stocks_and_bonds_are_told_apart(a: ResourceNode, b: ResourceNode, r: Relation, s: Relation)
    ensures
        stock_bytes(a) == stock_bytes(b) ==> a.x == b.x && a.y == b.y && a.quantity == b.quantity,
        bond_bytes(r) == bond_bytes(s) ==> bits_of(r.from) == bits_of(s.from) && bits_of(r.to) == bits_of(s.to)
            && r.edge.affinity == s.edge.affinity,
{
    law_words_are_told_apart(a.x, b.x);
    law_words_are_told_apart(a.y, b.y);
    law_words_are_told_apart(a.quantity.bits, b.quantity.bits);
    law_words_are_told_apart(b.y, b.y);
    law_words_are_told_apart(b.quantity.bits, b.quantity.bits);
    law_long_words_are_told_apart(bits_of(r.from), bits_of(s.from));
    law_long_words_are_told_apart(bits_of(r.to), bits_of(s.to));
    law_long_words_are_told_apart(bits_of(s.to), bits_of(s.to));
    law_words_are_told_apart(r.edge.affinity.bits, s.edge.affinity.bits);
    law_words_are_told_apart(s.edge.affinity.bits, s.edge.affinity.bits);
    if stock_bytes(a) == stock_bytes(b) {
        lemma_split(
            word_bytes(a.x) + word_bytes(a.y),
            word_bytes(a.quantity.bits),
            word_bytes(b.x) + word_bytes(b.y),
            word_bytes(b.quantity.bits),
        );
        lemma_split(word_bytes(a.x), word_bytes(a.y), word_bytes(b.x), word_bytes(b.y));
    }
    if bond_bytes(r) == bond_bytes(s) {
        lemma_split(
            long_bytes(bits_of(r.from)) + long_bytes(bits_of(r.to)),
            word_bytes(r.edge.affinity.bits),
            long_bytes(bits_of(s.from)) + long_bytes(bits_of(s.to)),
            word_bytes(s.edge.affinity.bits),
        );
        lemma_split(
            long_bytes(bits_of(r.from)),
            long_bytes(bits_of(r.to)),
            long_bytes(bits_of(s.from)),
            long_bytes(bits_of(s.to)),
        );
    }
}

/// Two tallies are written alike only if they are alike.
pub proof fn law_tallies_are_told_apart(a: Tally, b: Tally)
    ensures
        tally_bytes(a).len() == 36,
        tally_bytes(a) == tally_bytes(b) ==> a == b,
{
    law_long_words_are_told_apart(7, 7);
    law_words_are_told_apart(a.slot0, b.slot0);
    law_words_are_told_apart(a.slot1, b.slot1);
    law_words_are_told_apart(a.slot2, b.slot2);
    law_words_are_told_apart(a.slot3, b.slot3);
    law_words_are_told_apart(a.slot4, b.slot4);
    law_words_are_told_apart(a.slot5, b.slot5);
    law_words_are_told_apart(a.slot6, b.slot6);
    if tally_bytes(a) == tally_bytes(b) {
        let l = long_bytes(7);
        let (p0, p1, p2, p3, p4, p5, p6) = (
            word_bytes(a.slot0),
            word_bytes(a.slot1),
            word_bytes(a.slot2),
            word_bytes(a.slot3),
            word_bytes(a.slot4),
            word_bytes(a.slot5),
            word_bytes(a.slot6),
        );
        let (q0, q1, q2, q3, q4, q5, q6) = (
            word_bytes(b.slot0),
            word_bytes(b.slot1),
            word_bytes(b.slot2),
            word_bytes(b.slot3),
            word_bytes(b.slot4),
            word_bytes(b.slot5),
            word_bytes(b.slot6),
        );
        lemma_split(l + p0 + p1 + p2 + p3 + p4 + p5, p6, l + q0 + q1 + q2 + q3 + q4 + q5, q6);
        lemma_split(l + p0 + p1 + p2 + p3 + p4, p5, l + q0 + q1 + q2 + q3 + q4, q5);
        lemma_split(l + p0 + p1 + p2 + p3, p4, l + q0 + q1 + q2 + q3, q4);
        lemma_split(l + p0 + p1 + p2, p3, l + q0 + q1 + q2, q3);
        lemma_split(l + p0 + p1, p2, l + q0 + q1, q2);
        lemma_split(l + p0, p1, l + q0, q1);
        lemma_split(l, p0, l, q0);
    }
}

/// Moments are told apart: two that are alike but for the tick, for who has died of
/// what, or for one list, are written alike only if what they differ in is written
/// alike.
pub proof fn law_moments_are_told_apart(
    tick: i64,
    later: i64,
    people: Seq<CreatureV>,
    others: Seq<CreatureV>,
    nodes: Seq<ResourceNode>,
    homes: Seq<HouseholdV>,
    edges: Seq<Relation>,
    deaths: Tally,
    more: Tally,
)
    requires
        people.len() == others.len(),
        all_bytes(people, kinships(), people.len()).len() == all_bytes(others, kinships(), others.len()).len(),
        all_bytes(people, bodies(), people.len()).len() == all_bytes(others, bodies(), others.len()).len(),
        state_bytes(tick, people, nodes, homes, edges, deaths) == state_bytes(later, others, nodes, homes, edges, more),
    ensures
        bits_of(tick) == bits_of(later),
        deaths == more,
        all_bytes(people, bodies(), people.len()) == all_bytes(others, bodies(), others.len()),
        all_bytes(people, kinships(), people.len()) == all_bytes(others, kinships(), others.len()),
{
    let (t, u) = (long_bytes(bits_of(tick)), long_bytes(bits_of(later)));
    let n = long_bytes(people.len() as u64);
    let (b, c) = (all_bytes(people, bodies(), people.len()), all_bytes(others, bodies(), others.len()));
    let (k, l) = (all_bytes(people, kinships(), people.len()), all_bytes(others, kinships(), others.len()));
    let s = all_bytes(nodes, stocks(), nodes.len());
    let h = all_bytes(homes, houses(), homes.len());
    let e = all_bytes(edges, bonds(), edges.len());
    law_tallies_are_told_apart(deaths, more);
    law_tallies_are_told_apart(more, deaths);
    law_long_words_are_told_apart(bits_of(tick), bits_of(later));
    lemma_split(t + n + b + k + s + h + e, tally_bytes(deaths), u + n + c + l + s + h + e, tally_bytes(more));
    lemma_split(t + n + b + k + s + h, e, u + n + c + l + s + h, e);
    lemma_split(t + n + b + k + s, h, u + n + c + l + s, h);
    lemma_split(t + n + b + k, s, u + n + c + l, s);
    lemma_split(t + n + b, k, u + n + c, l);
    lemma_split(t + n, b, u + n, c);
    lemma_split(t, n, u, n);
}

/// A number that may be missing is read back as it was, and what follows it too.
proof fn lemma_maybe_apart(v: Option<i64>, w: Option<i64>, r: Seq<u8>, s: Seq<u8>)
    requires
        maybe_bytes(v) + r == maybe_bytes(w) + s,
    ensures
        v is Some <==> w is Some,
        v is Some ==> bits_of(v->0) == bits_of(w->0),
        r == s,
{
    let (a, b) = (maybe_bytes(v) + r, maybe_bytes(w) + s);
    let tag = |o: Option<i64>| long_bytes(if o is Some { 1u64 } else { 0u64 });
    law_long_words_are_told_apart(0, 1);
    law_long_words_are_told_apart(1, 0);
    let (tv, tw) = (tag(v), tag(w));
    assert forall|i: int| 0 <= i < 8 implies #[trigger] tv[i] == tw[i] by {
        assert(a[i] == tv[i]);
        assert(b[i] == tw[i]);
    }
    assert(tv =~= tw);
    if v is Some {
        law_long_words_are_told_apart(bits_of(v->0), bits_of(w->0));
        law_long_words_are_told_apart(bits_of(w->0), bits_of(v->0));
    }
    assert(maybe_bytes(v).len() == maybe_bytes(w).len());
    assert((maybe_bytes(v) + r).len() == maybe_bytes(v).len() + r.len());
    assert((maybe_bytes(w) + s).len() == maybe_bytes(w).len() + s.len());
    lemma_split(maybe_bytes(v), r, maybe_bytes(w), s);
    if v is Some {
        lemma_split(long_bytes(1), long_bytes(bits_of(v->0)), long_bytes(1), long_bytes(bits_of(w->0)));
    }
}

/// What is written first is read first, if it is known how long it is.
proof fn lemma_split_front(a: Seq<u8>, b: Seq<u8>, c: Seq<u8>, d: Seq<u8>)
    requires
        a + b == c + d,
        a.len() == c.len(),
    ensures
        a == c,
        b == d,
{
    assert((a + b).len() == a.len() + b.len() && (c + d).len() == c.len() + d.len());
    lemma_split(a, b, c, d);
}

proof fn lemma_regrouped(a: Seq<u8>, b: Seq<u8>, c: Seq<u8>, d: Seq<u8>)
    ensures
        a + b + c + d == a + (b + (c + d)),
{
    assert(a + b + c + d =~= a + (b + (c + d)));
}

/// What is written of a child on the way.
spec fn expected_bytes(c: CreatureV) -> Seq<u8> {
    match c.pregnancy {
        Some(p) => long_bytes(1) + long_bytes(bits_of(p.father_id)) + long_bytes(bits_of(p.due_tick)),
        None => long_bytes(0),
    }
}

proof fn lemma_expected_apart(a: CreatureV, b: CreatureV)
    requires
        expected_bytes(a) == expected_bytes(b),
    ensures
        a.pregnancy is Some <==> b.pregnancy is Some,
        a.pregnancy is Some ==> bits_of((a.pregnancy->0).father_id) == bits_of((b.pregnancy->0).father_id) && bits_of(
            (a.pregnancy->0).due_tick,
        ) == bits_of((b.pregnancy->0).due_tick),
{
    law_long_words_are_told_apart(0, 1);
    law_long_words_are_told_apart(1, 0);
    if let (Some(p), Some(q)) = (a.pregnancy, b.pregnancy) {
        law_long_words_are_told_apart(bits_of(p.father_id), bits_of(q.father_id));
        law_long_words_are_told_apart(bits_of(p.due_tick), bits_of(q.due_tick));
        law_long_words_are_told_apart(bits_of(q.due_tick), bits_of(p.due_tick));
        lemma_split(
            long_bytes(1) + long_bytes(bits_of(p.father_id)),
            long_bytes(bits_of(p.due_tick)),
            long_bytes(1) + long_bytes(bits_of(q.father_id)),
            long_bytes(bits_of(q.due_tick)),
        );
        lemma_split_front(
            long_bytes(1),
            long_bytes(bits_of(p.father_id)),
            long_bytes(1),
            long_bytes(bits_of(q.father_id)),
        );
    } else if let Some(p) = a.pregnancy {
        law_long_words_are_told_apart(bits_of(p.father_id), 0);
        law_long_words_are_told_apart(bits_of(p.due_tick), 0);
    } else if let Some(q) = b.pregnancy {
        law_long_words_are_told_apart(bits_of(q.father_id), 0);
        law_long_words_are_told_apart(bits_of(q.due_tick), 0);
    }
}

/// Two lives are written alike only if household, mate and generation are alike, and
/// so is what they expect, and of whom and when.
#[verifier::rlimit(40)]
#[verifier::spinoff_prover]
pub proof fn law_lives_are_told_apart(a: CreatureV, b: CreatureV)
    requires
        kin_bytes(a) == kin_bytes(b),
    ensures
        a.household_id is Some <==> b.household_id is Some,
        a.household_id is Some ==> bits_of(a.household_id->0) == bits_of(b.household_id->0),
        a.mate_id is Some <==> b.mate_id is Some,
        a.mate_id is Some ==> bits_of(a.mate_id->0) == bits_of(b.mate_id->0),
        small_bits_of(a.generation) == small_bits_of(b.generation),
        a.pregnancy is Some <==> b.pregnancy is Some,
        a.pregnancy is Some ==> bits_of((a.pregnancy->0).father_id) == bits_of((b.pregnancy->0).father_id) && bits_of(
            (a.pregnancy->0).due_tick,
        ) == bits_of((b.pregnancy->0).due_tick),
{
    let (x, y) = (small_bits_of(a.generation), small_bits_of(b.generation));
    let (ra, rb) = (expected_bytes(a), expected_bytes(b));
    lemma_regrouped(maybe_bytes(a.household_id), maybe_bytes(a.mate_id), word_bytes(x), ra);
    lemma_regrouped(maybe_bytes(b.household_id), maybe_bytes(b.mate_id), word_bytes(y), rb);
    lemma_maybe_apart(
        a.household_id,
        b.household_id,
        maybe_bytes(a.mate_id) + (word_bytes(x) + ra),
        maybe_bytes(b.mate_id) + (word_bytes(y) + rb),
    );
    lemma_maybe_apart(a.mate_id, b.mate_id, word_bytes(x) + ra, word_bytes(y) + rb);
    law_words_are_told_apart(x, y);
    law_words_are_told_apart(y, x);
    lemma_split_front(word_bytes(x), ra, word_bytes(y), rb);
    lemma_expected_apart(a, b);
}

/// Two households are written alike only if they are alike in what is written.
pub proof fn law_households_are_told_apart(a: HouseholdV, b: HouseholdV)
    requires
        home_bytes(a) == home_bytes(b),
    ensures
        bits_of(a.id) == bits_of(b.id),
        a.dissolved_tick is Some <==> b.dissolved_tick is Some,
        weight_of(a.store) == weight_of(b.store),
{
    let (ia, ib) = (long_bytes(bits_of(a.id)), long_bytes(bits_of(b.id)));
    let (da, db) = (maybe_bytes(a.dissolved_tick), maybe_bytes(b.dissolved_tick));
    let (wa, wb) = (word_bytes(weight_of(a.store).bits), word_bytes(weight_of(b.store).bits));
    law_long_words_are_told_apart(bits_of(a.id), bits_of(b.id));
    law_long_words_are_told_apart(bits_of(b.id), bits_of(a.id));
    law_words_are_told_apart(weight_of(a.store).bits, weight_of(b.store).bits);
    law_words_are_told_apart(weight_of(b.store).bits, weight_of(a.store).bits);
    lemma_split(ia + da, wa, ib + db, wb);
    let (x, y) = (ia + da, ib + db);
    assert forall|i: int| 0 <= i < 8 implies #[trigger] ia[i] == ib[i] by {
        assert(x[i] == ia[i] && y[i] == ib[i]);
    }
    assert(ia =~= ib);
    assert((ia + da).len() == ia.len() + da.len() && (ib + db).len() == ib.len() + db.len());
    lemma_split(ia, da, ib, db);
    assert(da + Seq::<u8>::empty() =~= da && db + Seq::<u8>::empty() =~= db);
    lemma_maybe_apart(a.dissolved_tick, b.dissolved_tick, Seq::empty(), Seq::empty());
}

} // verus!
