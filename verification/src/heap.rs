//! The open set of a search: a binary heap that gives back the least entry.

use vstd::prelude::*;

verus! {

/// An entry of the open set: an estimate of the whole cost and the tile it is
/// for. Entries compare by the estimate, then by the tile, so the order in
/// which they leave is total.
#[derive(Debug, Clone, Copy, PartialEq, Eq, Structural)]
pub struct Open {
    pub f: u64,
    pub idx: u32,
}

pub open spec fn precedes(a: Open, b: Open) -> bool {
    a.f < b.f || (a.f == b.f && a.idx < b.idx)
}

fn before(a: &Open, b: &Open) -> (r: bool)
    ensures
        r == precedes(*a, *b),
{
    a.f < b.f || (a.f == b.f && a.idx < b.idx)
}

pub struct Heap {
    pub items: Vec<Open>,
}

pub open spec fn parent(i: int) -> int {
    (i - 1) / 2
}

pub open spec fn ordered(v: Seq<Open>, i: int) -> bool {
    !precedes(v[i], v[parent(i)])
}

/// No entry precedes its parent.
pub open spec fn heaped(v: Seq<Open>) -> bool {
    forall|i: int| 0 < i < v.len() ==> #[trigger] ordered(v, i)
}

/// Everything in the heap comes no sooner than the root.
proof fn lemma_root_is_least(v: Seq<Open>, i: int)
    requires
        heaped(v),
        0 <= i < v.len(),
    ensures
        !precedes(v[i], v[0]),
    decreases i,
{
    if i > 0 {
        lemma_root_is_least(v, parent(i));
        assert(ordered(v, i));
    }
}

/// Exchanging two places keeps what a sequence holds.
proof fn lemma_swap(v: Seq<Open>, w: Seq<Open>, i: int, j: int)
    requires
        0 <= i < v.len(),
        0 <= j < v.len(),
        w == v.update(i, v[j]).update(j, v[i]),
    ensures
        forall|e: Open| #[trigger] w.contains(e) <==> v.contains(e),
        v.no_duplicates() ==> w.no_duplicates(),
{
    assert forall|e: Open| #[trigger] w.contains(e) <==> v.contains(e) by {
        if v.contains(e) {
            let k = v.index_of(e);
            let m = if k == i {
                j
            } else if k == j {
                i
            } else {
                k
            };
            assert(w[m] == e);
        }
        if w.contains(e) {
            let k = w.index_of(e);
            let m = if k == i {
                j
            } else if k == j {
                i
            } else {
                k
            };
            assert(v[m] == e);
        }
    }
}

impl Heap {
    /// Heap order, and no entry twice.
    pub open spec fn wf(&self) -> bool {
        heaped(self.items@) && self.items@.no_duplicates()
    }

    pub open spec fn view(&self) -> Set<Open> {
        Set::new(|e: Open| self.items@.contains(e))
    }

    pub fn new() -> (h: Self)
        ensures
            h.wf(),
            h@ == Set::<Open>::empty(),
    {
        let h = Heap { items: Vec::new() };
        assert(h@ == Set::<Open>::empty());
        h
    }

    pub fn clear(&mut self)
        ensures
            final(self).wf(),
            final(self)@ == Set::<Open>::empty(),
    {
        self.items.clear();
        assert(self@ == Set::<Open>::empty());
    }

    pub fn push(&mut self, e: Open)
        requires
            old(self).wf(),
            !old(self)@.contains(e),
        ensures
            final(self).wf(),
            final(self)@ == old(self)@.insert(e),
    {
        let ghost start = self.items@;
        self.items.push(e);
        let mut i: usize = self.items.len() - 1;
        proof {
            let v = self.items@;
            assert forall|x: Open| #[trigger] v.contains(x) <==> start.contains(x) || x == e by {
                if start.contains(x) {
                    let k = start.index_of(x);
                    assert(v[k] == x);
                }
                assert(v[start.len() as int] == e);
                if v.contains(x) && x != e {
                    let k = v.index_of(x);
                    assert(start[k] == x);
                }
            }
            assert forall|a: int, b: int| 0 <= a < v.len() && 0 <= b < v.len() && a != b implies v[a] != v[b] by {
                if a == start.len() {
                    assert(start.contains(v[b]));
                } else if b == start.len() {
                    assert(start.contains(v[a]));
                }
            }
            assert forall|k: int| 0 < k < v.len() && k != i implies #[trigger] ordered(v, k) by {
                assert(ordered(start, k));
            }
        }
        while i > 0 && before(&self.items[i], &self.items[(i - 1) / 2])
            invariant
                i < self.items@.len(),
                self.items@.no_duplicates(),
                forall|x: Open| #[trigger] self.items@.contains(x) <==> start.contains(x) || x == e,
                forall|k: int|
                    0 < k < self.items@.len() && k != i ==> #[trigger] ordered(self.items@, k),
                forall|k: int|
                    0 < k < self.items@.len() && parent(k) == i && i > 0 ==> !precedes(
                        #[trigger] self.items@[k],
                        self.items@[parent(i as int)],
                    ),
            decreases i,
        {
            let p = (i - 1) / 2;
            let ghost v = self.items@;
            let a = self.items[i];
            let b = self.items[p];
            self.items[i] = b;
            self.items[p] = a;
            proof {
                let w = self.items@;
                assert(parent(i as int) == p);
                assert(w == v.update(i as int, v[p as int]).update(p as int, v[i as int]));
                lemma_swap(v, w, i as int, p as int);
                assert forall|k: int| 0 < k < w.len() && k != p implies #[trigger] ordered(w, k) by {
                    if k == i {
                        assert(w[i as int] == b && w[p as int] == a);
                    } else if parent(k) == i {
                        assert(!precedes(v[k], v[parent(i as int)]));
                    } else if parent(k) == p {
                        assert(ordered(v, k));
                    } else {
                        assert(ordered(v, k));
                    }
                }
                assert forall|k: int| 0 < k < w.len() && parent(k) == p && p > 0 implies !precedes(
                    #[trigger] w[k],
                    w[parent(p as int)],
                ) by {
                    assert(ordered(v, p as int));
                    if k == i {
                    } else {
                        assert(ordered(v, k));
                    }
                }
            }
            i = p;
        }
        proof {
            assert(heaped(self.items@)) by {
                assert forall|k: int| 0 < k < self.items@.len() implies #[trigger] ordered(self.items@, k) by {
                    if k == i {
                        assert(parent(i as int) == (i - 1) / 2);
                    }
                }
            }
            assert(self@ == old(self)@.insert(e));
        }
    }

    /// The least entry, taken out.
    pub fn pop(&mut self) -> (r: Option<Open>)
        requires
            old(self).wf(),
        ensures
            final(self).wf(),
            match r {
                Some(e) => old(self)@.contains(e) && final(self)@ == old(self)@.remove(e) && forall|x: Open|
                    old(self)@.contains(x) ==> !#[trigger] precedes(x, e),
                None => old(self)@ == Set::<Open>::empty() && *final(self) == *old(self),
            },
    {
        let ghost start = self.items@;
        if self.items.len() == 0 {
            assert(self@ == Set::<Open>::empty());
            return None;
        }
        let top = self.items[0];
        proof {
            assert(start.contains(start[0]));
            assert forall|x: Open| old(self)@.contains(x) implies !#[trigger] precedes(x, top) by {
                let k = start.index_of(x);
                lemma_root_is_least(start, k);
            }
        }
        let last = self.items[self.items.len() - 1];
        self.items.truncate(self.items.len() - 1);
        let n = self.items.len();
        if n == 0 {
            proof {
                assert forall|x: Open| start.contains(x) implies x == top by {
                    let k = start.index_of(x);
                }
                assert(self@ == old(self)@.remove(top));
            }
            return Some(top);
        }
        self.items[0] = last;
        proof {
            let v = self.items@;
            assert(v == start.drop_last().update(0, start.last()));
            assert forall|x: Open| #[trigger] v.contains(x) <==> start.contains(x) && x != top by {
                if start.contains(x) && x != top {
                    let k = start.index_of(x);
                    if k == start.len() - 1 {
                        assert(v[0] == x);
                    } else {
                        assert(v[k] == x);
                    }
                }
                if v.contains(x) {
                    let k = v.index_of(x);
                    if k == 0 {
                        assert(start[start.len() - 1] == x);
                    } else {
                        assert(start[k] == x);
                    }
                }
            }
            assert forall|a: int, b: int| 0 <= a < v.len() && 0 <= b < v.len() && a != b implies v[a] != v[b] by {
                let a2 = if a == 0 {
                    start.len() - 1
                } else {
                    a
                };
                let b2 = if b == 0 {
                    start.len() - 1
                } else {
                    b
                };
                assert(start[a2] != start[b2]);
            }
            assert forall|k: int| 0 < k < v.len() && parent(k) != 0 implies #[trigger] ordered(v, k) by {
                assert(ordered(start, k));
            }
        }
        let mut i: usize = 0;
        loop
            invariant
                n == self.items@.len(),
                i < n,
                self.items@.no_duplicates(),
                forall|x: Open| #[trigger] self.items@.contains(x) <==> start.contains(x) && x != top,
                forall|k: int|
                    0 < k < n && parent(k) != i ==> #[trigger] ordered(self.items@, k),
                forall|k: int|
                    0 < k < n && parent(k) == i && i > 0 ==> !precedes(
                        #[trigger] self.items@[k],
                        self.items@[parent(i as int)],
                    ),
            ensures
                heaped(self.items@),
                self.items@.no_duplicates(),
                forall|x: Open| #[trigger] self.items@.contains(x) <==> start.contains(x) && x != top,
            decreases n - i,
        {
            if i >= n / 2 {
                proof {
                    assert forall|k: int| 0 < k < self.items@.len() implies #[trigger] ordered(self.items@, k) by {}
                }
                break;
            }
            let left = 2 * i + 1;
            let mut least = left;
            if left + 1 < n && before(&self.items[left + 1], &self.items[left]) {
                least = left + 1;
            }
            if !before(&self.items[least], &self.items[i]) {
                proof {
                    assert forall|k: int| 0 < k < self.items@.len() implies #[trigger] ordered(self.items@, k) by {
                        if parent(k) == i {
                            assert(k == left || k == left + 1);
                        }
                    }
                }
                break;
            }
            let ghost v = self.items@;
            let a = self.items[i];
            let b = self.items[least];
            self.items[i] = b;
            self.items[least] = a;
            proof {
                let w = self.items@;
                assert(w == v.update(i as int, v[least as int]).update(least as int, v[i as int]));
                lemma_swap(v, w, i as int, least as int);
                assert(parent(least as int) == i);
                assert forall|k: int| 0 < k < n && parent(k) != least implies #[trigger] ordered(w, k) by {
                    if parent(k) == i {
                        assert(k == left || k == left + 1);
                    } else if k == i {
                        assert(!precedes(v[least as int], v[parent(i as int)]));
                    } else {
                        assert(ordered(v, k));
                    }
                }
                assert forall|k: int| 0 < k < n && parent(k) == least && least > 0 implies !precedes(
                    #[trigger] w[k],
                    w[parent(least as int)],
                ) by {
                    assert(ordered(v, k));
                }
            }
            i = least;
        }
        assert(self@ == old(self)@.remove(top));
        Some(top)
    }
}

} // verus!
