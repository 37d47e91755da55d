//! Facts that follow from the invariant and are shared by the operations.

use crate::map::{ascending, points, BTreeMap};
use crate::node::Pending;
use crate::slots::MIN_LEN;
use vstd::prelude::*;

verus! {

impl BTreeMap {
    /// Under the full invariant the leaves are sorted.
    pub(crate) proof fn lemma_sorted(&self, pend: Pending)
        requires
            self.inv(pend),
        ensures
            self.sorted(),
    {
        assert forall|i: int| #[trigger] self.is_leaf(i) implies ascending(self.entries(i)) by {
            assert(self.live(i));
        }
    }

    /// No leaf stands twice in the ring.
    pub(crate) proof fn lemma_order_distinct(&self, p: int, q: int)
        requires
            self.sorted(),
            0 <= p < q < self.order@.len(),
        ensures
            self.order@[p] != self.order@[q],
    {
        assert(self.before(p, q));
        assert(self.linked(p));
        let a = self.order@[p] as int;
        assert(self.entries(a)[0].0 <= self.entries(a).last().0);
    }

    /// Two ring positions hold two leaves.
    pub(crate) proof fn lemma_apart(&self, p: int, q: int)
        requires
            self.sorted(),
            0 <= p < self.order@.len(),
            0 <= q < self.order@.len(),
            p != q,
        ensures
            self.order@[p] != self.order@[q],
            self.is_leaf(self.order@[p] as int),
            self.is_leaf(self.order@[q] as int),
    {
        assert(self.linked(p));
        assert(self.linked(q));
        if p < q {
            self.lemma_order_distinct(p, q);
        } else {
            self.lemma_order_distinct(q, p);
        }
    }

    /// A leaf at ring position `u` is neither the leaf at `p` nor its right
    /// neighbour unless `u` is `p` or `p + 1`.
    pub(crate) proof fn lemma_far(&self, p: int, u: int)
        requires
            self.sorted(),
            0 <= p < self.order@.len(),
            0 <= u < self.order@.len(),
            u != p,
            u != p + 1,
        ensures
            self.order@[u] != self.order@[p],
            !points(self.leaf(self.order@[p] as int).right, self.order@[u] as int),
            self.is_leaf(self.order@[u] as int),
    {
        assert(self.linked(p));
        assert(self.linked(u));
        if u < p {
            self.lemma_order_distinct(u, p);
        } else {
            self.lemma_order_distinct(p, u);
        }
        if p + 1 < self.order@.len() {
            if u < p + 1 {
                self.lemma_order_distinct(u, p + 1);
            } else {
                self.lemma_order_distinct(p + 1, u);
            }
        }
    }

    /// A leaf and its right neighbour are two leaves at adjacent ring positions.
    pub(crate) proof fn lemma_neighbours(&self, pend: Pending, u: int)
        requires
            self.inv(pend),
            self.is_leaf(u),
            self.leaf(u).right is Some,
        ensures
            self.pos(u) + 1 < self.order@.len(),
            self.order@[self.pos(u) + 1] == self.leaf(u).right->0,
            self.order@[self.pos(u)] == u,
            self.is_leaf(self.leaf(u).right->0 as int),
            self.leaf(u).right->0 != u,
            self.pos(self.leaf(u).right->0 as int) == self.pos(u) + 1,
    {
        let p = self.pos(u);
        assert(self.linked(p));
        assert(self.linked(p + 1));
        self.lemma_sorted(pend);
        self.lemma_order_distinct(p, p + 1);
        let v = self.order@[p + 1] as int;
        let q = self.pos(v);
        if q != p + 1 {
            if q < p + 1 {
                self.lemma_order_distinct(q, p + 1);
            } else {
                self.lemma_order_distinct(p + 1, q);
            }
        }
    }

    /// Under the invariant a key is held by at most one leaf, the one it is
    /// fenced into.
    pub(crate) proof fn lemma_home(&self, l: int, key: u64, i: int, j: int, e: (u64, u64))
        requires
            self.inv(Pending::Settled),
            self.is_leaf(l),
            self.fenced(l, key),
            self.holds(i, j, e),
            e.0 == key,
        ensures
            i == l,
    {
        if i != l {
            let p = self.pos(l);
            let q = self.pos(i);
            assert(self.node_ok(i, Pending::Settled));
            assert(self.node_ok(l, Pending::Settled));
            assert(self.linked(p));
            if q < p {
                assert(self.before(q, p));
                if p > 0 && self.order@[0] == l {
                    assert(self.before(0, p));
                }
            } else {
                assert(self.before(p, q));
                assert(self.linked(p + 1));
                if q > p + 1 {
                    assert(self.before(p + 1, q));
                }
                assert(self.node_ok(self.order@[p + 1] as int, Pending::Settled));
            }
        }
    }

    /// A key fenced into leaf `l` and not stored there is stored nowhere.
    pub(crate) proof fn lemma_absent(&self, l: int, key: u64)
        requires
            self.inv(Pending::Settled),
            self.is_leaf(l),
            self.fenced(l, key),
            forall|x: int| 0 <= x < self.entries(l).len() ==> self.entries(l)[x].0 != key,
        ensures
            !self.keys@.contains(key),
            !self.model().contains_key(key),
    {
        if self.keys@.contains(key) {
            let v = choose|v: u64| self.carries((key, v));
            assert(self.carries((key, v)));
            let (i, j) = choose|i: int, j: int| self.holds(i, j, (key, v));
            self.lemma_home(l, key, i, j, (key, v));
        }
    }

    /// A key fenced into leaf `l` lies above every leaf before `l` and below every
    /// leaf after it.
    pub(crate) proof fn lemma_fence_order(&self, l: int, key: u64, p: int, q: int)
        requires
            self.inv(Pending::Settled),
            self.is_leaf(l),
            self.fenced(l, key),
            0 <= p < q < self.order@.len(),
        ensures
            q == self.pos(l) ==> self.hi(self.order@[p] as int) < key,
            p == self.pos(l) ==> key < self.lo(self.order@[q] as int),
            self.order@[p] == l ==> p == self.pos(l),
            self.order@[q] == l ==> q == self.pos(l),
    {
        let pl = self.pos(l);
        assert(self.node_ok(l, Pending::Settled));
        assert(self.linked(pl));
        assert(self.before(p, q));
        self.lemma_sorted(Pending::Settled);
        if pl > 0 {
            self.lemma_order_distinct(0, pl);
        }
        if p == pl {
            assert(self.linked(pl + 1));
            let a = self.order@[pl + 1] as int;
            assert(self.live(a));
            assert(self.node_ok(a, Pending::Settled));
            if q > pl + 1 {
                assert(self.before(pl + 1, q));
            }
        }
        if self.order@[p] == l && p != pl {
            if p < pl {
                assert(self.before(p, pl));
            } else {
                assert(self.before(pl, p));
            }
        }
        if self.order@[q] == l && q != pl {
            if q < pl {
                assert(self.before(q, pl));
            } else {
                assert(self.before(pl, q));
            }
        }
    }

    /// Only leaf contents differ between `self` and `t`: every part of the
    /// invariant that does not read entries carries over.
    pub(crate) proof fn lemma_tree_kept(&self, t: &BTreeMap, pend: Pending)
        requires
            self.inv(pend),
            t.nodes@.len() == self.nodes@.len(),
            t.notes == self.notes,
            t.root == self.root,
            t.free == self.free,
            t.order == self.order,
            forall|i: int|
                0 <= i < t.nodes@.len() && !self.is_leaf(i) ==> #[trigger] t.nodes@[i]
                    == self.nodes@[i],
            forall|i: int|
                #[trigger] self.is_leaf(i) ==> t.is_leaf(i) && t.leaf(i).right == self.leaf(i).right,
            pend matches Pending::Split(c, _) ==> t.count(c as int) >= MIN_LEN,
        ensures
            t.free_ok(),
            t.root_ok(pend),
            t.pend_ok(pend),
            forall|i: int, j: int| #[trigger] t.slot(i, j) ==> t.kid_ok(i, j, pend),
            forall|i1: int, j1: int, i2: int, j2: int| #[trigger]
                t.clash(i1, j1, i2, j2) ==> i1 == i2 && j1 == j2,
            forall|i: int| #[trigger] t.live(i) ==> self.live(i),
            forall|i: int| #[trigger] t.is_leaf(i) ==> self.is_leaf(i),
            forall|i: int|
                #[trigger] t.live(i) && !t.is_leaf(i) ==> t.node_ok(i, pend),
            forall|i: int|
                #[trigger] t.is_leaf(i) && t.entries(i) == self.entries(i) ==> t.node_ok(i, pend),
    {
        let s = self;
        assert forall|i: int| #[trigger] t.live(i) implies s.live(i) by {
            if !s.is_leaf(i) {
                assert(t.nodes@[i] == s.nodes@[i]);
            }
        }
        assert forall|i: int| #[trigger] t.is_leaf(i) implies s.is_leaf(i) by {
            if !s.is_leaf(i) {
                assert(t.nodes@[i] == s.nodes@[i]);
            }
        }
        assert forall|i: int, j: int| #[trigger] t.slot(i, j) implies t.kid_ok(i, j, pend)
            && s.slot(i, j) && t.kid(i, j) == s.kid(i, j) by {
            assert(!s.is_leaf(i));
            assert(t.nodes@[i] == s.nodes@[i]);
            assert(s.slot(i, j));
            assert(s.kid_ok(i, j, pend));
            let c = s.kid(i, j) as int;
            assert(s.live(c));
            if !s.is_leaf(c) {
                assert(t.nodes@[c] == s.nodes@[c]);
            }
        }
        assert forall|i1: int, j1: int, i2: int, j2: int| #[trigger]
            t.clash(i1, j1, i2, j2) implies i1 == i2 && j1 == j2 by {
            assert(t.slot(i1, j1) && t.slot(i2, j2));
            assert(s.clash(i1, j1, i2, j2));
        }
        assert forall|i: int| #[trigger] t.live(i) && !t.is_leaf(i) implies t.node_ok(i, pend) by {
            assert(s.live(i));
        }
        assert forall|i: int| #[trigger] t.is_leaf(i) && t.entries(i) == s.entries(i) implies t.node_ok(
            i,
            pend,
        ) by {
            assert(s.live(i));
        }
        match pend {
            Pending::Split(c, r) => {
                assert(s.live(c as int));
                assert(s.live(r as int));
                let f = s.note(r as int).first as int;
                assert(s.is_leaf(f));
                if !s.is_leaf(c as int) {
                    assert(t.nodes@[c as int] == s.nodes@[c as int]);
                }
                if !s.is_leaf(r as int) {
                    assert(t.nodes@[r as int] == s.nodes@[r as int]);
                }
                assert forall|i: int, j: int| #[trigger] t.slot(i, j) implies t.kid(i, j) != r by {
                    assert(s.slot(i, j));
                }
            },
            Pending::Under(c) => {
                if !s.is_leaf(c as int) {
                    assert(t.nodes@[c as int] == s.nodes@[c as int]);
                }
            },
            Pending::Over(c) => {
                assert(t.nodes@[c as int] == s.nodes@[c as int]);
            },
            Pending::Settled => {},
        }
        match s.root {
            Some(r) => {
                if !s.is_leaf(r as int) {
                    assert(t.nodes@[r as int] == s.nodes@[r as int]);
                }
            },
            None => {},
        }
        assert forall|a: int| 0 <= a < t.free@.len() implies (#[trigger] t.free@[a]) < t.nodes@.len()
            && t.nodes@[t.free@[a] as int] is None by {
            let f = s.free@[a] as int;
            assert(!s.is_leaf(f));
            assert(t.nodes@[f] == s.nodes@[f]);
        }
    }

    /// Nothing is owed once the node is back at its minimum.
    pub(crate) proof fn lemma_settle(&self, c: usize)
        requires
            self.inv(Pending::Under(c)),
            self.count(c as int) >= self.floor(c as int, Pending::Settled),
        ensures
            self.inv(Pending::Settled),
    {
        let p = Pending::Under(c);
        let q = Pending::Settled;
        assert forall|i: int| #[trigger] self.live(i) implies self.node_ok(i, q) by {
            assert(self.node_ok(i, p));
        }
        assert forall|i: int, j: int| #[trigger] self.slot(i, j) implies self.kid_ok(i, j, q) by {
            assert(self.kid_ok(i, j, p));
        }
    }

    /// A well-formed tree owes nothing, so it may be treated as owing.
    pub(crate) proof fn lemma_relax(&self, c: usize)
        requires
            self.inv(Pending::Settled),
            self.live(c as int),
        ensures
            self.inv(Pending::Under(c)),
    {
        let q = Pending::Under(c);
        let p = Pending::Settled;
        assert forall|i: int| #[trigger] self.live(i) implies self.node_ok(i, q) by {
            assert(self.node_ok(i, p));
        }
        assert forall|i: int, j: int| #[trigger] self.slot(i, j) implies self.kid_ok(i, j, q) by {
            assert(self.kid_ok(i, j, p));
        }
    }

    /// Some node has `b` as its first child.
    pub(crate) open spec fn heads_a_node(&self, b: int) -> bool {
        exists|i: int| #[trigger] self.slot(i, 0) && self.kid(i, 0) == b && self.is_child(i)
    }

    /// Node `i` is the child of some node.
    pub(crate) open spec fn is_child(&self, i: int) -> bool {
        exists|i2: int, j2: int| #[trigger] self.slot(i2, j2) && self.kid(i2, j2) == i
    }

    /// A node whose first leaf is `b`, and which is not `b` itself, reaches `b`
    /// through first children only: `b` is the first child of `m` or of a node that
    /// is itself a child.
    pub(crate) proof fn lemma_first_chain(&self, pend: Pending, m: int, b: int)
        requires
            self.inv(pend),
            self.live(m),
            self.note(m).first == b,
            m != b,
        ensures
            self.slot(m, 0),
            self.kid(m, 0) == b || self.heads_a_node(b),
        decreases self.note(m).level,
    {
        assert(self.node_ok(m, pend));
        assert(self.slot(m, 0));
        assert(self.kid_ok(m, 0, pend));
        let k = self.kid(m, 0) as int;
        if k != b {
            self.lemma_first_chain(pend, k, b);
            if self.kid(k, 0) == b {
                assert(self.slot(m, 0) && self.kid(m, 0) == k);
                assert(self.is_child(k));
                assert(self.slot(k, 0) && self.kid(k, 0) == b && self.is_child(k));
            }
        }
    }

    /// A child that is not the first child of its parent is the first leaf of no
    /// node but itself.
    pub(crate) proof fn lemma_not_first(&self, pend: Pending, n: int, jb: int, m: int)
        requires
            self.inv(pend),
            self.slot(n, jb),
            jb >= 1,
            self.live(m),
            m != self.kid(n, jb),
        ensures
            self.note(m).first != self.kid(n, jb),
    {
        let b = self.kid(n, jb) as int;
        if self.note(m).first == b {
            self.lemma_first_chain(pend, m, b);
            if self.kid(m, 0) == b {
                assert(self.clash(m, 0, n, jb));
            } else {
                let i = choose|i: int| #[trigger]
                    self.slot(i, 0) && self.kid(i, 0) == b && self.is_child(i);
                assert(self.clash(i, 0, n, jb));
            }
        }
    }
}

} // verus!
