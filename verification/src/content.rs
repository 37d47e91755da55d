//! How the stored pairs, and with them the abstract map, follow a change to one or
//! two leaves.

use crate::map::{ascending, BTreeMap};
use vstd::prelude::*;

verus! {

/// A sorted run stays sorted when an entry goes in where its key belongs.
pub(crate) proof fn lemma_ascending_insert(e: Seq<(u64, u64)>, j: int, x: (u64, u64))
    requires
        ascending(e),
        0 <= j <= e.len(),
        forall|i: int| 0 <= i < j ==> e[i].0 < x.0,
        forall|i: int| j <= i < e.len() ==> x.0 < e[i].0,
    ensures
        ascending(e.insert(j, x)),
{
    let f = e.insert(j, x);
    assert forall|a: int, b: int| 0 <= a < b < f.len() implies f[a].0 < f[b].0 by {
        let a0 = if a < j { a } else { a - 1 };
        let b0 = if b < j { b } else { b - 1 };
        if a != j && b != j {
            assert(e[a0].0 < e[b0].0);
        }
    }
}

/// Two sorted runs, the first below the second, make one sorted run.
pub(crate) proof fn lemma_ascending_join(a: Seq<(u64, u64)>, b: Seq<(u64, u64)>)
    requires
        ascending(a),
        ascending(b),
        a.len() > 0 && b.len() > 0 ==> a.last().0 < b[0].0,
    ensures
        ascending(a + b),
{
    let f = a + b;
    assert forall|x: int, y: int| 0 <= x < y < f.len() implies f[x].0 < f[y].0 by {
        if x < a.len() && y >= a.len() {
            assert(a[x].0 <= a.last().0);
            assert(b[0].0 <= b[y - a.len()].0);
        }
    }
}

impl BTreeMap {
    /// The entries of slot `i` if it is a leaf, nothing otherwise.
    pub(crate) open spec fn own(&self, i: int) -> Seq<(u64, u64)> {
        if self.is_leaf(i) {
            self.entries(i)
        } else {
            Seq::empty()
        }
    }

    /// The entries of `a` followed by those of `b`.
    pub(crate) open spec fn cat(&self, a: int, b: int) -> Seq<(u64, u64)> {
        if a == b {
            self.own(a)
        } else {
            self.own(a) + self.own(b)
        }
    }

    /// Some leaf other than `a` and `b` holds `e`.
    pub(crate) open spec fn rest(&self, a: int, b: int, e: (u64, u64)) -> bool {
        exists|i: int, j: int| #[trigger] self.holds(i, j, e) && i != a && i != b
    }

    /// Leaves are sorted within and across.
    pub(crate) open spec fn sorted(&self) -> bool {
        &&& forall|i: int| #[trigger] self.is_leaf(i) ==> ascending(self.entries(i))
        &&& self.ring_ok()
    }

    /// A pair is stored either in `a` or `b` or in some other leaf.
    pub(crate) proof fn lemma_carry_cat(&self, a: int, b: int, e: (u64, u64))
        ensures
            self.carries(e) == (self.rest(a, b, e) || self.cat(a, b).contains(e)),
    {
        if self.carries(e) {
            let (i, j) = choose|i: int, j: int| self.holds(i, j, e);
            if i == a {
                assert(self.cat(a, b)[j] == e);
            } else if i == b {
                assert(self.cat(a, b)[self.own(a).len() + j] == e);
            }
        }
        if self.cat(a, b).contains(e) {
            let x = choose|x: int| 0 <= x < self.cat(a, b).len() && self.cat(a, b)[x] == e;
            if a == b || x < self.own(a).len() {
                assert(self.holds(a, x, e));
            } else {
                assert(self.holds(b, x - self.own(a).len(), e));
            }
        }
        if self.rest(a, b, e) {
            let (i, j) = choose|i: int, j: int| #[trigger] self.holds(i, j, e) && i != a && i != b;
            assert(self.holds(i, j, e));
        }
    }

    /// Leaves that did not change hold what they held.
    pub(crate) proof fn lemma_rest_same(&self, t: &BTreeMap, a: int, b: int)
        requires
            forall|i: int| i != a && i != b ==> #[trigger] t.own(i) == self.own(i),
        ensures
            forall|e: (u64, u64)| #[trigger] t.rest(a, b, e) == self.rest(a, b, e),
    {
        assert forall|e: (u64, u64)| #[trigger] t.rest(a, b, e) == self.rest(a, b, e) by {
            if t.rest(a, b, e) {
                let (i, j) = choose|i: int, j: int| #[trigger] t.holds(i, j, e) && i != a && i != b;
                assert(t.own(i) == self.own(i));
                assert(self.holds(i, j, e));
            }
            if self.rest(a, b, e) {
                let (i, j) = choose|i: int, j: int|
                    #[trigger] self.holds(i, j, e) && i != a && i != b;
                assert(t.own(i) == self.own(i));
                assert(t.holds(i, j, e));
            }
        }
    }

    /// No key is stored twice.
    pub(crate) proof fn lemma_single(&self, i1: int, j1: int, i2: int, j2: int)
        requires
            self.sorted(),
            self.is_leaf(i1),
            self.is_leaf(i2),
            0 <= j1 < self.entries(i1).len(),
            0 <= j2 < self.entries(i2).len(),
            self.entries(i1)[j1].0 == self.entries(i2)[j2].0,
        ensures
            i1 == i2,
            j1 == j2,
    {
        if i1 != i2 {
            let p = self.pos(i1);
            let q = self.pos(i2);
            if p < q {
                assert(self.before(p, q));
            } else {
                assert(self.before(q, p));
            }
        }
    }

    /// A key is stored with one value only.
    pub(crate) proof fn lemma_one_value(&self, e1: (u64, u64), e2: (u64, u64))
        requires
            self.sorted(),
            self.carries(e1),
            self.carries(e2),
            e1.0 == e2.0,
        ensures
            e1 == e2,
    {
        let (i1, j1) = choose|i: int, j: int| self.holds(i, j, e1);
        let (i2, j2) = choose|i: int, j: int| self.holds(i, j, e2);
        self.lemma_single(i1, j1, i2, j2);
    }

    /// The model maps a present key to the value stored beside it.
    pub(crate) proof fn lemma_value_of(&self, e: (u64, u64))
        requires
            self.sorted(),
            self.keys_ok(),
            self.carries(e),
        ensures
            self.model().contains_key(e.0),
            self.model()[e.0] == e.1,
    {
        let (i, j) = choose|i: int, j: int| self.holds(i, j, e);
        assert(self.holds(i, j, e));
        let v = self.value(e.0);
        assert(self.carries((e.0, v)));
        self.lemma_one_value(e, (e.0, v));
    }

    /// A key outside `keys` is stored nowhere, and one inside is stored somewhere.
    pub(crate) proof fn lemma_key_carried(&self, k: u64)
        requires
            self.keys_ok(),
        ensures
            self.keys@.contains(k) <==> exists|v: u64| self.carries((k, v)),
    {
        if exists|v: u64| self.carries((k, v)) {
            let v = choose|v: u64| self.carries((k, v));
            let (i, j) = choose|i: int, j: int| self.holds(i, j, (k, v));
            assert(self.holds(i, j, (k, v)));
        }
    }

    /// No leaf changed: the ring, the key set and the model are as they were.
    pub(crate) proof fn lemma_leaves_kept(&self, t: &BTreeMap)
        requires
            self.sorted(),
            self.keys_ok(),
            t.order == self.order,
            t.keys == self.keys,
            t.length == self.length,
            forall|i: int| #[trigger] self.is_leaf(i) ==> t.is_leaf(i) && t.leaf(i) == self.leaf(i),
            forall|i: int| #[trigger] t.is_leaf(i) ==> self.is_leaf(i),
        ensures
            t.sorted(),
            t.keys_ok(),
            t.model() == self.model(),
    {
        let s = self;
        assert forall|p: int| 0 <= p < t.order@.len() implies #[trigger] t.linked(p) by {
            assert(s.linked(p));
        }
        assert forall|p: int, q: int| 0 <= p < q < t.order@.len() implies #[trigger] t.before(
            p,
            q,
        ) by {
            assert(s.before(p, q));
            assert(s.linked(p));
            assert(s.linked(q));
        }
        assert forall|i: int| #[trigger] t.is_leaf(i) implies 0 <= t.pos(i) < t.order@.len()
            && t.order@[t.pos(i)] == i && ascending(t.entries(i)) by {
            assert(s.is_leaf(i));
        }
        assert forall|i: int, j: int, e: (u64, u64)| #[trigger] t.holds(i, j, e) == s.holds(i, j, e) by {
            if t.is_leaf(i) {
                assert(s.is_leaf(i));
            }
            if s.is_leaf(i) {
                assert(t.is_leaf(i));
            }
        }
        assert forall|e: (u64, u64)| #[trigger] t.carries(e) == s.carries(e) by {
            if t.carries(e) {
                let (i, j) = choose|i: int, j: int| t.holds(i, j, e);
                assert(s.holds(i, j, e));
            }
            if s.carries(e) {
                let (i, j) = choose|i: int, j: int| s.holds(i, j, e);
                assert(t.holds(i, j, e));
            }
        }
        assert forall|k: u64| #[trigger] t.keys@.contains(k) implies exists|v: u64| #[trigger]
            t.carries((k, v)) by {
            let v = choose|v: u64| s.carries((k, v));
            assert(s.carries((k, v)));
            assert(t.carries((k, v)));
        }
        assert forall|k: u64| t.model().contains_key(k) implies #[trigger] t.model()[k]
            == s.model()[k] by {
            let w = choose|w: u64| s.carries((k, w));
            assert(s.carries((k, w)));
            assert(t.carries((k, w)));
            let v = t.value(k);
            let u = s.value(k);
            assert(t.carries((k, v)));
            assert(s.carries((k, u)));
            assert(s.carries((k, v)));
            s.lemma_one_value((k, v), (k, u));
        }
        assert(t.model() =~= s.model());
    }

    /// Where entry `y` of `cat(a, b)` is stored.
    pub(crate) proof fn lemma_cat_at(&self, a: int, b: int, y: int) -> (w: (int, int))
        requires
            0 <= y < self.cat(a, b).len(),
        ensures
            self.holds(w.0, w.1, self.cat(a, b)[y]),
            w.0 == a || w.0 == b,
            w == (if a == b || y < self.own(a).len() {
                (a, y)
            } else {
                (b, y - self.own(a).len())
            }),
    {
        if a == b || y < self.own(a).len() {
            (a, y)
        } else {
            (b, y - self.own(a).len())
        }
    }

    /// The two leaves `a` and `b`, read one after the other, lost the entry at
    /// position `j`; all other leaves are as they were.
    pub(crate) proof fn lemma_take_step(&self, t: &BTreeMap, a: int, b: int, j: int)
        requires
            self.sorted(),
            self.keys_ok(),
            t.sorted(),
            forall|i: int| i != a && i != b ==> #[trigger] t.own(i) == self.own(i),
            0 <= j < self.cat(a, b).len(),
            t.cat(a, b) == self.cat(a, b).remove(j),
            t.keys@ == self.keys@.remove(self.cat(a, b)[j].0),
            t.length == self.length - 1,
        ensures
            t.keys_ok(),
            self.model().contains_key(self.cat(a, b)[j].0),
            self.model()[self.cat(a, b)[j].0] == self.cat(a, b)[j].1,
            t.model() == self.model().remove(self.cat(a, b)[j].0),
    {
        let s = self;
        let gone = s.cat(a, b)[j];
        let key = gone.0;
        let wj = s.lemma_cat_at(a, b, j);
        assert(s.carries(gone));
        s.lemma_value_of(gone);
        s.lemma_rest_same(t, a, b);
        assert forall|x: (u64, u64)| #[trigger]
            t.carries(x) <==> (None::<u64> == Some(x.1) && x.0 == key) || (s.carries(x) && x.0
                != key) by {
            s.lemma_carry_cat(a, b, x);
            t.lemma_carry_cat(a, b, x);
            if t.cat(a, b).contains(x) {
                let y = choose|y: int| 0 <= y < t.cat(a, b).len() && t.cat(a, b)[y] == x;
                let y0 = if y < j { y } else { y + 1 };
                assert(s.cat(a, b)[y0] == x);
                let wy = s.lemma_cat_at(a, b, y0);
                if x.0 == key {
                    s.lemma_single(wy.0, wy.1, wj.0, wj.1);
                }
            }
            if t.rest(a, b, x) && x.0 == key {
                let (i, jj) = choose|i: int, jj: int| #[trigger] s.holds(i, jj, x) && i != a && i != b;
                s.lemma_single(i, jj, wj.0, wj.1);
            }
            if s.cat(a, b).contains(x) && x.0 != key {
                let y = choose|y: int| 0 <= y < s.cat(a, b).len() && s.cat(a, b)[y] == x;
                if y < j {
                    assert(t.cat(a, b)[y] == x);
                } else {
                    assert(t.cat(a, b)[y - 1] == x);
                }
            }
        }
        s.lemma_model_step(t, key, None);
    }

    /// The two leaves `a` and `b`, read one after the other, hold what they held;
    /// all other leaves are as they were.
    pub(crate) proof fn lemma_same_step(&self, t: &BTreeMap, a: int, b: int)
        requires
            self.sorted(),
            self.keys_ok(),
            t.sorted(),
            forall|i: int| i != a && i != b ==> #[trigger] t.own(i) == self.own(i),
            t.cat(a, b) == self.cat(a, b),
            t.keys == self.keys,
            t.length == self.length,
        ensures
            t.keys_ok(),
            t.model() == self.model(),
    {
        let s = self;
        s.lemma_rest_same(t, a, b);
        assert forall|e: (u64, u64)| #[trigger] t.carries(e) == s.carries(e) by {
            s.lemma_carry_cat(a, b, e);
            t.lemma_carry_cat(a, b, e);
        }
        assert forall|i: int, j: int, e: (u64, u64)| #[trigger] t.holds(i, j, e) implies t.keys@.contains(
            e.0,
        ) by {
            assert(t.carries(e));
            let (i0, j0) = choose|i0: int, j0: int| s.holds(i0, j0, e);
            assert(s.holds(i0, j0, e));
        }
        assert forall|k: u64| #[trigger] t.keys@.contains(k) implies exists|v: u64| #[trigger]
            t.carries((k, v)) by {
            let v = choose|v: u64| s.carries((k, v));
            assert(s.carries((k, v)));
            assert(t.carries((k, v)));
        }
        assert forall|k: u64| t.model().contains_key(k) implies #[trigger] t.model()[k]
            == s.model()[k] by {
            let w = choose|w: u64| s.carries((k, w));
            assert(s.carries((k, w)));
            assert(t.carries((k, w)));
            let v = t.value(k);
            let u = s.value(k);
            assert(t.carries((k, v)));
            assert(s.carries((k, u)));
            assert(s.carries((k, v)));
            s.lemma_one_value((k, v), (k, u));
        }
        assert(t.model() =~= s.model());
    }

    /// The stored pairs changed as described by `added` and `gone`: the model
    /// follows.
    pub(crate) proof fn lemma_model_step(
        &self,
        t: &BTreeMap,
        key: u64,
        added: Option<u64>,
    )
        requires
            self.sorted(),
            self.keys_ok(),
            t.sorted(),
            t.keys@ == (if added is Some {
                self.keys@.insert(key)
            } else {
                self.keys@.remove(key)
            }),
            t.length == t.keys@.len(),
            forall|e: (u64, u64)|
                #[trigger] t.carries(e) <==> (added == Some(e.1) && e.0 == key) || (self.carries(e)
                    && e.0 != key),
        ensures
            t.keys_ok(),
            t.model() == (if added is Some {
                self.model().insert(key, added->0)
            } else {
                self.model().remove(key)
            }),
    {
        assert forall|i: int, j: int, e: (u64, u64)| #[trigger] t.holds(i, j, e) implies t.keys@.contains(
            e.0,
        ) by {
            assert(t.carries(e));
            if e.0 != key {
                let (i0, j0) = choose|i0: int, j0: int| self.holds(i0, j0, e);
                assert(self.holds(i0, j0, e));
            }
        }
        assert forall|k: u64| #[trigger] t.keys@.contains(k) implies exists|v: u64| #[trigger]
            t.carries((k, v)) by {
            if k == key {
                assert(t.carries((key, added->0)));
            } else {
                let v = choose|v: u64| self.carries((k, v));
                assert(self.carries((k, v)));
                assert(t.carries((k, v)));
            }
        }
        let goal = if added is Some {
            self.model().insert(key, added->0)
        } else {
            self.model().remove(key)
        };
        assert forall|k: u64| t.model().contains_key(k) implies #[trigger] t.model()[k] == goal[k] by {
            let v = t.value(k);
            let w = choose|w: u64| t.carries((k, w));
            assert(t.carries((k, w)));
            assert(t.carries((k, v)));
            if k == key {
                assert(t.carries((key, added->0)));
                t.lemma_one_value((k, v), (key, added->0));
            } else {
                let u = self.value(k);
                let w2 = choose|w2: u64| self.carries((k, w2));
                assert(self.carries((k, w2)));
                assert(self.carries((k, u)));
                assert(t.carries((k, u)));
                t.lemma_one_value((k, v), (k, u));
            }
        }
        assert(t.model().dom() =~= goal.dom());
        assert(t.model() =~= goal);
    }

    /// The two leaves `a` and `b`, read one after the other, gained the entry `e` at
    /// position `j`; all other leaves are as they were.
    pub(crate) proof fn lemma_put_step(&self, t: &BTreeMap, a: int, b: int, j: int, e: (u64, u64))
        requires
            self.sorted(),
            self.keys_ok(),
            t.sorted(),
            forall|i: int| i != a && i != b ==> #[trigger] t.own(i) == self.own(i),
            0 <= j <= self.cat(a, b).len(),
            t.cat(a, b) == self.cat(a, b).insert(j, e),
            !self.keys@.contains(e.0),
            t.keys@ == self.keys@.insert(e.0),
            t.length == self.length + 1,
        ensures
            t.keys_ok(),
            t.model() == self.model().insert(e.0, e.1),
    {
        let s = self;
        s.lemma_rest_same(t, a, b);
        assert forall|x: (u64, u64)| #[trigger]
            t.carries(x) <==> (x.1 == e.1 && x.0 == e.0) || (s.carries(x) && x.0 != e.0) by {
            s.lemma_carry_cat(a, b, x);
            t.lemma_carry_cat(a, b, x);
            if t.cat(a, b).contains(x) {
                let y = choose|y: int| 0 <= y < t.cat(a, b).len() && t.cat(a, b)[y] == x;
                if y < j {
                    assert(s.cat(a, b)[y] == x);
                } else if y > j {
                    assert(s.cat(a, b)[y - 1] == x);
                }
            }
            if s.cat(a, b).contains(x) {
                let y = choose|y: int| 0 <= y < s.cat(a, b).len() && s.cat(a, b)[y] == x;
                if y < j {
                    assert(t.cat(a, b)[y] == x);
                } else {
                    assert(t.cat(a, b)[y + 1] == x);
                }
            }
            if x == e {
                assert(t.cat(a, b)[j] == x);
            }
            if s.carries(x) {
                s.lemma_key_carried(x.0);
            }
            if t.carries(x) && x.0 == e.0 {
                assert(t.cat(a, b)[j] == e);
                t.lemma_carry_cat(a, b, e);
                t.lemma_one_value(x, e);
            }
        }
        s.lemma_model_step(t, e.0, Some(e.1));
    }
}

} // verus!
