//! Small facts about sequences that several modules share.

use crate::num::Num;
use vstd::prelude::*;

verus! {

/// The place of the first element with a property, or the length.
pub open spec fn first_where<T>(s: Seq<T>, p: spec_fn(T) -> bool) -> int
    decreases s.len(),
{
    if s.len() == 0 {
        0
    } else {
        let before = first_where(s.drop_last(), p);
        if before < s.len() - 1 || p(s.last()) {
            before
        } else {
            s.len() as int
        }
    }
}

pub proof fn lemma_first_where<T>(s: Seq<T>, p: spec_fn(T) -> bool)
    ensures
        0 <= first_where(s, p) <= s.len(),
        first_where(s, p) < s.len() ==> p(s[first_where(s, p)]),
        forall|j: int| 0 <= j < first_where(s, p) ==> !p(#[trigger] s[j]),
    decreases s.len(),
{
    if s.len() > 0 {
        let shorter = s.drop_last();
        lemma_first_where(shorter, p);
        let f = first_where(s, p);
        assert forall|j: int| 0 <= j < f implies !p(#[trigger] s[j]) by {
            if j < shorter.len() {
                assert(s[j] == shorter[j]);
            }
        }
    }
}

/// What is found first is found by looking.
pub proof fn lemma_first_where_is<T>(s: Seq<T>, p: spec_fn(T) -> bool, i: int)
    requires
        0 <= i <= s.len(),
        i < s.len() ==> p(s[i]),
        forall|j: int| 0 <= j < i ==> !p(#[trigger] s[j]),
    ensures
        first_where(s, p) == i,
{
    lemma_first_where(s, p);
    let f = first_where(s, p);
    if f < i {
        assert(p(s[f]));
    } else if i < f {
        assert(!p(s[i]));
    }
}

/// How many elements have a property.
pub open spec fn count_where<T>(s: Seq<T>, p: spec_fn(T) -> bool) -> nat
    decreases s.len(),
{
    if s.len() == 0 {
        0
    } else {
        count_where(s.drop_last(), p) + if p(s.last()) {
            1nat
        } else {
            0nat
        }
    }
}

pub proof fn lemma_count_where_bound<T>(s: Seq<T>, p: spec_fn(T) -> bool)
    ensures
        count_where(s, p) <= s.len(),
    decreases s.len(),
{
    if s.len() > 0 {
        lemma_count_where_bound(s.drop_last(), p);
    }
}

/// Filtering one element more.
pub proof fn lemma_filter_step<T>(s: Seq<T>, p: spec_fn(T) -> bool, i: int)
    requires
        0 <= i < s.len(),
    ensures
        s.take(i + 1).filter(p) == if p(s[i]) {
            s.take(i).filter(p).push(s[i])
        } else {
            s.take(i).filter(p)
        },
{
    reveal(Seq::filter);
    assert(s.take(i + 1).drop_last() == s.take(i));
}

pub proof fn lemma_filter_start<T>(s: Seq<T>, p: spec_fn(T) -> bool)
    ensures
        s.take(0).filter(p) == Seq::<T>::empty(),
        s.take(s.len() as int) == s,
{
    reveal(Seq::filter);
    assert(s.take(0).len() == 0);
    assert(s.take(s.len() as int) == s);
}

/// Every element smaller than all that follow.
pub open spec fn ascending(s: Seq<u32>) -> bool {
    forall|i: int, j: int| 0 <= i < j < s.len() ==> s[i] < s[j]
}

/// The place where a value belongs in an ascending list.
fn place_of(v: &Vec<u32>, x: u32) -> (at: usize)
    requires
        ascending(v@),
    ensures
        at <= v@.len(),
        forall|i: int| 0 <= i < at ==> #[trigger] v@[i] < x,
        forall|i: int| at <= i < v@.len() ==> #[trigger] v@[i] >= x,
{
    let mut at: usize = v.len();
    while at > 0 && v[at - 1] >= x
        invariant
            ascending(v@),
            at <= v@.len(),
            forall|i: int| at <= i < v@.len() ==> #[trigger] v@[i] >= x,
        decreases at,
    {
        at = at - 1;
    }
    at
}

/// Adds a value to an ascending list; one that is there already is not added again.
pub fn insert_ascending(v: &mut Vec<u32>, x: u32)
    requires
        ascending(old(v)@),
    ensures
        ascending(final(v)@),
        forall|y: u32| #[trigger] final(v)@.contains(y) <==> old(v)@.contains(y) || y == x,
{
    let at = place_of(v, x);
    let ghost before = v@;
    if at < v.len() && v[at] == x {
        assert(before.contains(x));
        return;
    }
    v.insert(at, x);
    proof {
        assert(v@ == before.insert(at as int, x));
        assert forall|y: u32| #[trigger] v@.contains(y) <==> before.contains(y) || y == x by {
            if before.contains(y) {
                let k = before.index_of(y);
                if k < at {
                    assert(v@[k] == y);
                } else {
                    assert(v@[k + 1] == y);
                }
            }
            assert(v@[at as int] == x);
            if v@.contains(y) && y != x {
                let k = v@.index_of(y);
                if k < at {
                    assert(before[k] == y);
                } else {
                    assert(before[k - 1] == y);
                }
            }
        }
        assert forall|i: int, j: int| 0 <= i < j < v@.len() implies v@[i] < v@[j] by {
            if i < at {
                assert(v@[i] == before[i]);
            } else if i > at {
                assert(v@[i] == before[i - 1]);
            }
            if j < at {
                assert(v@[j] == before[j]);
            } else if j > at {
                assert(v@[j] == before[j - 1]);
            }
        }
    }
}

/// The remainder that is never negative.
pub fn floor_mod(t: i64, m: i64) -> (r: i64)
    requires
        m > 0,
    ensures
        r == t as int % m as int,
        0 <= r < m,
{
    if t >= 0 {
        t % m
    } else {
        let r = (-(t + 1)) % m;
        proof {
            let n = -(t + 1) as int;
            let q = n / m as int;
            vstd::arithmetic::div_mod::lemma_fundamental_div_mod(n, m as int);
            assert(t as int == (-q - 1) * m + (m - 1 - r)) by (nonlinear_arith)
                requires
                    n == -(t + 1),
                    n == m * q + r,
            ;
            vstd::arithmetic::div_mod::lemma_fundamental_div_mod_converse(
                t as int,
                m as int,
                -q - 1,
                m - 1 - r,
            );
        }
        m - 1 - r
    }
}

/// Ranked ahead: a higher score, or the same score and an earlier index.
pub open spec fn outranks(a: (usize, Num), b: (usize, Num)) -> bool {
    a.1.order_key() > b.1.order_key() || (a.1.order_key() == b.1.order_key() && a.0 < b.0)
}

/// A candidate put into a ranking behind all whose score is no lower.
pub open spec fn insert_scored(order: Seq<(usize, Num)>, x: (usize, Num)) -> Seq<(usize, Num)>
    decreases order.len(),
{
    if order.len() == 0 || order.last().1.order_key() >= x.1.order_key() {
        order.push(x)
    } else {
        insert_scored(order.drop_last(), x).push(order.last())
    }
}

/// The elements among the first `n` that a score is given to, best first.
pub open spec fn ranked_by<T>(s: Seq<T>, f: spec_fn(T) -> Option<Num>, n: int) -> Seq<(usize, Num)>
    decreases n,
{
    if n <= 0 {
        Seq::empty()
    } else {
        let before = ranked_by(s, f, n - 1);
        match f(s[n - 1]) {
            Some(q) => insert_scored(before, ((n - 1) as usize, q)),
            None => before,
        }
    }
}

/// The places of the best few.
pub open spec fn top_of(order: Seq<(usize, Num)>, n: nat) -> Seq<usize> {
    let few = if n < order.len() {
        n
    } else {
        order.len()
    };
    Seq::new(few, |i: int| order[i].0)
}

pub fn rank_in(order: &mut Vec<(usize, Num)>, x: (usize, Num))
    ensures
        final(order)@ == insert_scored(old(order)@, x),
{
    let ghost before = order@;
    let mut at: usize = order.len();
    assert(before.take(at as int) == before);
    assert(insert_scored(before.take(at as int), x) + before.skip(at as int) == insert_scored(before, x));
    while at > 0 && order[at - 1].1.order_key() < x.1.order_key()
        invariant
            order@ == before,
            at <= before.len(),
            insert_scored(before.take(at as int), x) + before.skip(at as int) == insert_scored(before, x),
        decreases at,
    {
        proof {
            let head = before.take(at as int);
            assert(head.last() == before[at - 1]);
            assert(head.drop_last() == before.take(at - 1));
            let shorter = insert_scored(head.drop_last(), x);
            assert(shorter.push(head.last()) + before.skip(at as int) == shorter + before.skip(at - 1));
        }
        at = at - 1;
    }
    proof {
        let head = before.take(at as int);
        if at > 0 {
            assert(head.last() == before[at - 1]);
        }
        assert(insert_scored(head, x) == head.push(x));
        assert(before.insert(at as int, x) == head.push(x) + before.skip(at as int));
    }
    order.insert(at, x);
}

pub fn top(order: &Vec<(usize, Num)>, n: usize) -> (r: Vec<usize>)
    ensures
        r@ == top_of(order@, n as nat),
{
    let few = if n < order.len() {
        n
    } else {
        order.len()
    };
    let mut r: Vec<usize> = Vec::new();
    for i in 0..few
        invariant
            few <= order@.len(),
            r@.len() == i,
            forall|j: int| 0 <= j < i ==> #[trigger] r@[j] == order@[j].0,
    {
        r.push(order[i].0);
    }
    assert(r@ == top_of(order@, n as nat));
    r
}

proof fn lemma_insert_scored(order: Seq<(usize, Num)>, x: (usize, Num))
    requires
        forall|k: int| 0 <= k < order.len() ==> (#[trigger] order[k]).0 < x.0,
        forall|k: int, l: int| 0 <= k < l < order.len() ==> outranks(#[trigger] order[k], #[trigger] order[l]),
    ensures
        insert_scored(order, x).len() == order.len() + 1,
        forall|y: (usize, Num)| #[trigger] insert_scored(order, x).contains(y) <==> order.contains(y) || y == x,
        forall|k: int, l: int|
            0 <= k < l <= order.len() ==> outranks(
                #[trigger] insert_scored(order, x)[k],
                #[trigger] insert_scored(order, x)[l],
            ),
    decreases order.len(),
{
    let r = insert_scored(order, x);
    if order.len() == 0 || order.last().1.order_key() >= x.1.order_key() {
        assert(r == order.push(x));
        assert forall|y: (usize, Num)| #[trigger] r.contains(y) <==> order.contains(y) || y == x by {
            if order.contains(y) {
                let k = order.index_of(y);
                assert(r[k] == y);
            }
            assert(r[order.len() as int] == x);
            if r.contains(y) && y != x {
                let k = r.index_of(y);
                assert(order[k] == y);
            }
        }
        assert forall|k: int, l: int| 0 <= k < l <= order.len() implies outranks(
            #[trigger] r[k],
            #[trigger] r[l],
        ) by {
            if l == order.len() {
                if k < order.len() - 1 {
                    assert(outranks(order[k], order[order.len() - 1]));
                }
            } else {
                assert(outranks(order[k], order[l]));
            }
        }
    } else {
        let shorter = order.drop_last();
        let rest = insert_scored(shorter, x);
        assert forall|k: int, l: int| 0 <= k < l < shorter.len() implies outranks(
            #[trigger] shorter[k],
            #[trigger] shorter[l],
        ) by {
            assert(outranks(order[k], order[l]));
        }
        assert forall|k: int| 0 <= k < shorter.len() implies (#[trigger] shorter[k]).0 < x.0 by {
            assert(order[k].0 < x.0);
        }
        lemma_insert_scored(shorter, x);
        assert(r == rest.push(order.last()));
        assert forall|y: (usize, Num)| #[trigger] r.contains(y) <==> order.contains(y) || y == x by {
            if order.contains(y) {
                let k = order.index_of(y);
                if k < shorter.len() {
                    assert(shorter[k] == y);
                    assert(shorter.contains(y));
                    assert(rest.contains(y));
                    let m = rest.index_of(y);
                    assert(r[m] == y);
                } else {
                    assert(r[rest.len() as int] == y);
                }
            }
            assert(rest.contains(x));
            let m = rest.index_of(x);
            assert(r[m] == x);
            if r.contains(y) && y != x {
                let k = r.index_of(y);
                if k < rest.len() {
                    assert(rest[k] == y);
                    assert(rest.contains(y));
                    assert(shorter.contains(y));
                    let q = shorter.index_of(y);
                    assert(order[q] == y);
                } else {
                    assert(order[order.len() - 1] == y);
                }
            }
        }
        assert forall|k: int, l: int| 0 <= k < l <= order.len() implies outranks(
            #[trigger] r[k],
            #[trigger] r[l],
        ) by {
            if l == order.len() {
                assert(rest.contains(rest[k]));
                if rest[k] != x {
                    assert(shorter.contains(rest[k]));
                    let q = shorter.index_of(rest[k]);
                    assert(outranks(order[q], order[order.len() - 1]));
                }
            } else {
                assert(outranks(rest[k], rest[l]));
            }
        }
    }
}

/// A ranking holds exactly the elements that a score is given to, each once,
/// and none stands before one that outranks it.
pub proof fn law_ranking_is_ordered<T>(s: Seq<T>, f: spec_fn(T) -> Option<Num>, n: int)
    requires
        0 <= n <= s.len(),
        s.len() <= usize::MAX,
    ensures
        forall|k: int, l: int|
            0 <= k < l < ranked_by(s, f, n).len() ==> outranks(
                #[trigger] ranked_by(s, f, n)[k],
                #[trigger] ranked_by(s, f, n)[l],
            ),
        forall|i: usize, q: Num| #[trigger] ranked_by(s, f, n).contains((i, q)) <==> i < n && f(s[i as int]) == Some(q),
        forall|k: int| 0 <= k < ranked_by(s, f, n).len() ==> (#[trigger] ranked_by(s, f, n)[k]).0 < n,
    decreases n,
{
    if n > 0 {
        law_ranking_is_ordered(s, f, n - 1);
        let before = ranked_by(s, f, n - 1);
        let r = ranked_by(s, f, n);
        if let Some(q) = f(s[n - 1]) {
            lemma_insert_scored(before, ((n - 1) as usize, q));
        }
        assert forall|i: usize, q: Num| #[trigger] r.contains((i, q)) <==> i < n && f(s[i as int]) == Some(q) by {
            assert(before.contains((i, q)) <==> i < n - 1 && f(s[i as int]) == Some(q));
        }
        assert forall|k: int| 0 <= k < r.len() implies (#[trigger] r[k]).0 < n by {
            assert(r.contains((r[k].0, r[k].1)));
        }
    }
}

/// The numbers below a bound that have a property, smallest first.
pub open spec fn those_below(n: int, p: spec_fn(u32) -> bool) -> Seq<u32>
    decreases n,
{
    if n <= 0 {
        Seq::empty()
    } else {
        let before = those_below(n - 1, p);
        if p((n - 1) as u32) {
            before.push((n - 1) as u32)
        } else {
            before
        }
    }
}

/// The list holds what has the property, and nothing else.
pub proof fn lemma_those_below_hold(n: int, p: spec_fn(u32) -> bool, i: u32)
    requires
        0 <= n <= u32::MAX + 1,
    ensures
        those_below(n, p).contains(i) <==> i < n && p(i),
    decreases n,
{
    if n > 0 {
        lemma_those_below_hold(n - 1, p, i);
        let before = those_below(n - 1, p);
        let after = those_below(n, p);
        let top = (n - 1) as u32;
        if before.contains(i) {
            let k = before.index_of(i);
            assert(after[k] == i);
        }
        if p(top) {
            assert(after[before.len() as int] == top);
            if after.contains(i) && i != top {
                let k = after.index_of(i);
                assert(before[k] == i);
            }
        }
    }
}

/// An ascending list is settled by what it holds.
pub proof fn lemma_those_below(s: Seq<u32>, n: int, p: spec_fn(u32) -> bool)
    requires
        0 <= n <= u32::MAX + 1,
        ascending(s),
        forall|i: u32| #[trigger] s.contains(i) <==> i < n && p(i),
    ensures
        s == those_below(n, p),
    decreases n,
{
    if n <= 0 {
        if s.len() > 0 {
            assert(s.contains(s[0]));
        }
        assert(s == those_below(n, p));
    } else {
        let top = (n - 1) as u32;
        if p(top) {
            assert(s.contains(top));
            let k = s.index_of(top);
            if k < s.len() - 1 {
                assert(s.contains(s[k + 1]));
                assert(s[k] < s[k + 1]);
            }
            let rest = s.drop_last();
            assert forall|i: u32| #[trigger] rest.contains(i) <==> i < n - 1 && p(i) by {
                if rest.contains(i) {
                    let m = rest.index_of(i);
                    assert(s[m] == i);
                    assert(s.contains(i));
                    assert(s[m] < s[k]);
                }
                if i < n - 1 && p(i) {
                    assert(s.contains(i));
                    let m = s.index_of(i);
                    assert(rest[m] == i);
                }
            }
            lemma_those_below(rest, n - 1, p);
            assert(s == rest.push(top));
        } else {
            assert forall|i: u32| #[trigger] s.contains(i) <==> i < n - 1 && p(i) by {
            }
            lemma_those_below(s, n - 1, p);
        }
    }
}

/// What a filter keeps is what passes it, and nothing else.
pub proof fn lemma_filtered<T>(s: Seq<T>, p: spec_fn(T) -> bool, x: T)
    ensures
        s.filter(p).contains(x) <==> s.contains(x) && p(x),
    decreases s.len(),
{
    reveal(Seq::filter);
    if s.len() > 0 {
        let shorter = s.drop_last();
        let before = shorter.filter(p);
        lemma_filtered(shorter, p, x);
        if shorter.contains(x) {
            let i = shorter.index_of(x);
            assert(s[i] == x);
        }
        if s.contains(x) && x != s.last() {
            let i = s.index_of(x);
            assert(shorter[i] == x);
        }
        if p(s.last()) {
            let after = before.push(s.last());
            assert(s.filter(p) == after);
            if before.contains(x) {
                let i = before.index_of(x);
                assert(after[i] == x);
            }
            if after.contains(x) && x != s.last() {
                let i = after.index_of(x);
                assert(before[i] == x);
            }
            assert(after[before.len() as int] == s.last());
        }
        assert(s[s.len() - 1] == s.last());
    }
}

} // verus!
