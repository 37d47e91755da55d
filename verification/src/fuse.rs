//! Fusing an underfull leaf with a sibling, and taking the child that was given
//! up out of the parent.

use crate::content::lemma_ascending_join;
use crate::leafbal::entries_extend;
use crate::map::{ascending, points, BTreeMap};
use crate::node::{Node, Note, Pending};
use crate::slots::{
    entries_new, entries_split_off, links_at, links_at_mut, links_len, links_remove, MAX_LEN,
};
use vstd::prelude::*;

verus! {

impl BTreeMap {
    /// In `self`, internal node `n` is what it was in `s` without child `j + 1`:
    /// child `j` now answers for the separator that followed child `j + 1`.
    pub(crate) open spec fn unlinked(&self, s: &BTreeMap, n: int, j: int) -> bool {
        let old = s.links(n);
        &&& self.is_intra(n)
        &&& self.links(n) == (if j + 1 < old.len() {
            old.update(j, (old[j].0, old[j + 1].1)).remove(j + 1)
        } else {
            old.remove(j)
        })
        &&& self.intra(n).tail == (if j + 1 < old.len() {
            s.intra(n).tail
        } else {
            old[j].0
        })
    }

    /// Where the children and separators of `n` stand once child `j + 1` is out.
    pub(crate) proof fn lemma_unlinked(&self, t: &BTreeMap, n: int, j: int)
        requires
            self.is_intra(n),
            0 <= j < self.links(n).len(),
            t.unlinked(self, n, j),
        ensures
            t.links(n).len() == self.links(n).len() - 1,
            t.count(n) == self.count(n) - 1,
            forall|x: int|
                0 <= x <= t.links(n).len() ==> #[trigger] t.kid(n, x) == (if x <= j {
                    self.kid(n, x)
                } else {
                    self.kid(n, x + 1)
                }),
            forall|x: int|
                0 <= x < t.links(n).len() ==> #[trigger] t.sep(n, x) == (if x < j {
                    self.sep(n, x)
                } else {
                    self.sep(n, x + 1)
                }),
    {
    }

    /// Takes child `j + 1` out of internal node `n`.
    pub(crate) fn unlink(&mut self, n: usize, j: usize)
        requires
            old(self).is_intra(n as int),
            j < old(self).links(n as int).len(),
        ensures
            final(self).only_node(old(self), n as int),
            final(self).unlinked(old(self), n as int, j as int),
    {
        match &mut self.nodes[n] {
            Some(Node::Intra(x)) => {
                let len = links_len(&x.heads);
                if j + 1 < len {
                    let nxt = *links_at(&x.heads, j + 1);
                    let e = links_at_mut(&mut x.heads, j);
                    e.1 = nxt.1;
                    let _ = links_remove(&mut x.heads, j + 1);
                } else {
                    let e = links_remove(&mut x.heads, j);
                    x.tail = e.0;
                }
            },
            _ => {},
        }
    }

    /// `t` is `self` after leaf `b`, child `j + 1` of `n`, was emptied into its left
    /// sibling `a` and given up.
    pub(crate) open spec fn leaf_fused(
        &self,
        t: &BTreeMap,
        n: int,
        j: int,
        a: int,
        b: int,
        c: usize,
    ) -> bool {
        &&& self.inv(Pending::Under(c))
        &&& (c == a || c == b)
        &&& self.slot(n, j)
        &&& j < self.links(n).len()
        &&& a == self.kid(n, j)
        &&& b == self.kid(n, j + 1)
        &&& self.is_leaf(a)
        &&& self.is_leaf(b)
        &&& self.count(a) + self.count(b) == MAX_LEN
        &&& t.nodes@.len() == self.nodes@.len()
        &&& t.notes@.len() == self.notes@.len()
        &&& t.nodes@[b] is None
        &&& t.is_leaf(a)
        &&& t.entries(a) == self.entries(a) + self.entries(b)
        &&& t.leaf(a).left == self.leaf(a).left
        &&& t.leaf(a).right == self.leaf(b).right
        &&& (self.leaf(b).right matches Some(x) ==> t.is_leaf(x as int) && t.entries(x as int)
            == self.entries(x as int) && t.leaf(x as int).left == Some(a as usize) && t.leaf(
            x as int,
        ).right == self.leaf(x as int).right)
        &&& t.unlinked(self, n, j)
        &&& (forall|i: int|
            0 <= i < self.nodes@.len() && i != a && i != b && i != n && !points(
                self.leaf(b).right,
                i,
            ) ==> #[trigger] t.nodes@[i] == self.nodes@[i])
        &&& (forall|i: int|
            0 <= i < self.nodes@.len() && i != a ==> #[trigger] t.notes@[i] == self.notes@[i])
        &&& t.note(a).level == self.note(a).level
        &&& t.note(a).first == self.note(a).first
        &&& t.note(a).after == self.note(b).after
        &&& t.free@ == self.free@.push(b as usize)
        &&& t.order@ == self.order@.remove(self.pos(b))
        &&& t.keys == self.keys
        &&& t.length == self.length
        &&& t.root == self.root
    }

    /// What the two leaves and their parent are to each other before the fusion.
    pub(crate) proof fn lemma_leaf_fuse_setting(
        &self,
        t: &BTreeMap,
        n: int,
        j: int,
        a: int,
        b: int,
        c: usize,
    )
        requires
            self.leaf_fused(t, n, j, a, b, c),
        ensures
            self.sorted(),
            a != b,
            a != n,
            b != n,
            points(self.leaf(a).right, b),
            self.pos(b) == self.pos(a) + 1,
            self.pos(b) < self.order@.len(),
            self.order@[self.pos(a)] == a,
            self.order@[self.pos(b)] == b,
            self.before(self.pos(a), self.pos(b)),
            ascending(self.entries(a) + self.entries(b)),
            self.leaf(b).right matches Some(x) ==> x != a && x != b && x != n && self.is_leaf(
                x as int,
            ) && self.pos(b) + 1 < self.order@.len() && self.order@[self.pos(b) + 1] == x,
            self.leaf(b).right is None ==> self.pos(b) + 1 == self.order@.len(),
            !points(self.root, a),
            !points(self.root, b),
            !self.is_leaf(self.root->0 as int),
            forall|i: int| #[trigger] t.live(i) <==> self.live(i) && i != b,
            forall|i: int| #[trigger] t.is_leaf(i) <==> self.is_leaf(i) && i != b,
            forall|i: int| #[trigger] t.is_intra(i) <==> self.is_intra(i),
            forall|i: int|
                #[trigger] self.is_leaf(i) && i != a && i != b ==> t.entries(i) == self.entries(i)
                    && t.leaf(i).right == self.leaf(i).right && t.note(i) == self.note(i),
            forall|i: int|
                #[trigger] self.is_intra(i) && i != n ==> t.nodes@[i] == self.nodes@[i],
    {
        let s = self;
        let ps = Pending::Under(c);
        s.lemma_sorted(ps);
        assert(s.slot(n, j + 1));
        assert(s.kid_ok(n, j, ps));
        assert(s.kid_ok(n, j + 1, ps));
        assert(s.live(a) && s.live(b));
        assert(s.node_ok(a, ps) && s.node_ok(b, ps));
        if a == b {
            assert(s.clash(n, j, n, j + 1));
        }
        s.lemma_neighbours(ps, a);
        let pb = s.pos(b);
        assert(s.before(pb - 1, pb));
        lemma_ascending_join(s.entries(a), s.entries(b));
        assert(s.linked(pb));
        if s.leaf(b).right is Some {
            s.lemma_neighbours(ps, b);
            s.lemma_apart(pb - 1, pb + 1);
        }
        if s.root is Some {
            let r0 = s.root->0 as int;
            if s.is_leaf(r0) {
                assert(s.order@.len() == 1);
            }
        }
        assert forall|i: int| #[trigger] t.live(i) <==> s.live(i) && i != b by {
            if 0 <= i < s.nodes@.len() && i != a && i != b && i != n && !points(
                s.leaf(b).right,
                i,
            ) {
                assert(t.nodes@[i] == s.nodes@[i]);
            }
        }
        assert forall|i: int| #[trigger] t.is_leaf(i) <==> s.is_leaf(i) && i != b by {
            if 0 <= i < s.nodes@.len() && i != a && i != b && i != n && !points(
                s.leaf(b).right,
                i,
            ) {
                assert(t.nodes@[i] == s.nodes@[i]);
            }
        }
        assert forall|i: int| #[trigger] t.is_intra(i) <==> s.is_intra(i) by {
            if 0 <= i < s.nodes@.len() && i != a && i != b && i != n && !points(
                s.leaf(b).right,
                i,
            ) {
                assert(t.nodes@[i] == s.nodes@[i]);
            }
        }
        assert forall|i: int| #[trigger] s.is_leaf(i) && i != a && i != b implies t.entries(i)
            == s.entries(i) && t.leaf(i).right == s.leaf(i).right && t.note(i) == s.note(i) by {
            if !points(s.leaf(b).right, i) {
                assert(t.nodes@[i] == s.nodes@[i]);
            }
            assert(t.notes@[i] == s.notes@[i]);
        }
        assert forall|i: int| #[trigger] s.is_intra(i) && i != n implies t.nodes@[i]
            == s.nodes@[i] by {}
    }

    /// After the fusion of two leaves every node and every child position is in
    /// order, up to the parent being one child short.
    pub(crate) proof fn lemma_leaf_fuse_tree(
        &self,
        t: &BTreeMap,
        n: int,
        j: int,
        a: int,
        b: int,
        c: usize,
    )
        requires
            self.leaf_fused(t, n, j, a, b, c),
            n <= usize::MAX,
        ensures
            forall|i: int, x: int| #[trigger] t.slot(i, x) ==> t.kid_ok(i, x, Pending::Under(n as usize)),
            forall|i1: int, j1: int, i2: int, j2: int| #[trigger]
                t.clash(i1, j1, i2, j2) ==> i1 == i2 && j1 == j2,
            forall|i: int| #[trigger] t.live(i) ==> t.node_ok(i, Pending::Under(n as usize)),
            t.root_ok(Pending::Under(n as usize)),
            t.free_ok(),
            t.held(self, n),
            t.count(n) == self.count(n) - 1,
    {
        let s = self;
        let ps = Pending::Under(c);
        let pt = Pending::Under(n as usize);
        s.lemma_leaf_fuse_setting(t, n, j, a, b, c);
        s.lemma_unlinked(t, n, j);
        assert(s.slot(n, j + 1));
        assert(s.kid_ok(n, j, ps));
        assert(s.kid_ok(n, j + 1, ps));
        assert forall|i: int| #[trigger] t.live(i) implies t.node_ok(i, pt) by {
            assert(s.live(i));
            assert(s.node_ok(i, ps));
            if i != a && i != n {
                assert(t.notes@[i] == s.notes@[i]);
            }
            if i == n {
                assert(t.notes@[n] == s.notes@[n]);
            }
        }
        assert forall|i: int, x: int| #[trigger] t.slot(i, x) implies t.kid_ok(i, x, pt) by {
            assert(t.notes@[i] == s.notes@[i]);
            let x0 = if i == n && x > j { x + 1 } else { x };
            assert(s.slot(i, x0));
            assert(s.kid_ok(i, x0, ps));
            let k = s.kid(i, x0) as int;
            assert(t.kid(i, x) == k);
            assert(s.live(k));
            if k == b {
                assert(s.clash(i, x0, n, j + 1));
            }
            if k != a {
                assert(t.notes@[k] == s.notes@[k]);
            } else {
                assert(s.clash(i, x0, n, j));
            }
            if x < t.links(i).len() {
                // the separator after this child and the child behind it
                let y0 = if i == n && x + 1 > j { x + 2 } else { x + 1 };
                assert(s.slot(i, y0));
                assert(s.kid_ok(i, y0, ps));
                let k2 = s.kid(i, y0) as int;
                assert(t.kid(i, x + 1) == k2);
                assert(s.live(k2));
                if k2 == b {
                    assert(s.clash(i, y0, n, j + 1));
                }
                s.lemma_not_first(ps, n, j + 1, k2);
                if k2 != a {
                    assert(t.notes@[k2] == s.notes@[k2]);
                }
                assert(s.slot(i, y0 - 1));
                assert(s.kid_ok(i, y0 - 1, ps));
                assert(t.sep(i, x) == s.sep(i, y0 - 1));
                assert(s.is_leaf(s.sep(i, y0 - 1) as int));
            }
        }
        assert forall|i1: int, j1: int, i2: int, j2: int| #[trigger]
            t.clash(i1, j1, i2, j2) implies i1 == i2 && j1 == j2 by {
            let a1 = if i1 == n && j1 > j { j1 + 1 } else { j1 };
            let a2 = if i2 == n && j2 > j { j2 + 1 } else { j2 };
            assert(s.slot(i1, a1));
            assert(s.slot(i2, a2));
            assert(s.clash(i1, a1, i2, a2));
        }
        assert(t.root_ok(pt)) by {
            let r0 = s.root->0 as int;
            assert(s.live(r0));
            assert(t.notes@[r0] == s.notes@[r0]);
            s.order@.remove_ensures(s.pos(b));
        }
        assert(t.free_ok()) by {
            assert forall|x: int| 0 <= x < t.free@.len() implies (#[trigger] t.free@[x])
                < t.nodes@.len() && t.nodes@[t.free@[x] as int] is None by {
                if x < s.free@.len() {
                    let f = s.free@[x] as int;
                    assert(!s.live(f));
                    assert(!t.live(f));
                }
            }
            assert forall|x: int, y: int| 0 <= x < y < t.free@.len() implies #[trigger] t.free@[x]
                != #[trigger] t.free@[y] by {
                if y == s.free@.len() {
                    assert(!s.live(s.free@[x] as int));
                }
            }
        }
        assert(t.held(s, n)) by {
            assert forall|i: int|
                #[trigger] s.live(i) && s.note(i).level > s.note(n).level implies t.nodes@[i]
                == s.nodes@[i] && t.notes@[i] == s.notes@[i] by {
                assert(s.node_ok(i, ps));
                assert(s.node_ok(n, ps));
                assert(s.is_intra(i));
            }
        }
    }

    /// After the fusion of two leaves the ring is in order.
    pub(crate) proof fn lemma_leaf_fuse_ring(
        &self,
        t: &BTreeMap,
        n: int,
        j: int,
        a: int,
        b: int,
        c: usize,
    )
        requires
            self.leaf_fused(t, n, j, a, b, c),
        ensures
            t.ring_ok(),
    {
        let s = self;
        let ps = Pending::Under(c);
        s.lemma_leaf_fuse_setting(t, n, j, a, b, c);
        let pb = s.pos(b);
        let pa = pb - 1;
        s.order@.remove_ensures(pb);
        assert(s.live(a) && s.live(b));
        assert(s.node_ok(a, ps) && s.node_ok(b, ps));
        assert(t.entries(a)[0] == s.entries(a)[0]);
        assert(t.entries(a).last() == s.entries(b).last());
        assert forall|p: int| 0 <= p < t.order@.len() implies #[trigger] t.linked(p) by {
            let p0 = if p < pb { p } else { p + 1 };
            assert(s.linked(p0));
            assert(t.order@[p] == s.order@[p0]);
            if p0 != pa {
                s.lemma_apart(p0, pa);
            }
            s.lemma_apart(p0, pb);
            assert(s.linked(pb));
            if p > 0 {
                let q0 = if p - 1 < pb { p - 1 } else { p };
                assert(t.order@[p - 1] == s.order@[q0]);
            }
            if p + 1 < t.order@.len() {
                let q0 = if p + 1 < pb { p + 1 } else { p + 2 };
                assert(t.order@[p + 1] == s.order@[q0]);
            }
            if p0 != pa && p0 != pb + 1 {
                if pb + 1 < s.order@.len() {
                    s.lemma_apart(p0, pb + 1);
                }
            }
        }
        assert forall|i: int| #[trigger] t.is_leaf(i) implies 0 <= t.pos(i) < t.order@.len()
            && t.order@[t.pos(i)] == i by {
            assert(s.is_leaf(i));
            let q = s.pos(i);
            if q < pb {
                assert(t.order@[q] == i);
            } else {
                assert(t.order@[q - 1] == i);
            }
        }
        assert forall|p: int, q: int| 0 <= p < q < t.order@.len() implies #[trigger] t.before(
            p,
            q,
        ) by {
            let p0 = if p < pb { p } else { p + 1 };
            let q0 = if q < pb { q } else { q + 1 };
            assert(s.before(p0, q0));
            assert(t.order@[p] == s.order@[p0]);
            assert(t.order@[q] == s.order@[q0]);
            s.lemma_apart(p0, pb);
            s.lemma_apart(q0, pb);
            if p0 == pa {
                assert(s.before(pb, q0));
            } else {
                s.lemma_apart(p0, pa);
            }
            if q0 != pa {
                s.lemma_apart(q0, pa);
            }
        }
    }

    /// Fusing leaf `b` into its left sibling `a` under their parent `n`.
    pub(crate) proof fn lemma_leaf_fuse(
        &self,
        t: &BTreeMap,
        n: int,
        j: int,
        a: int,
        b: int,
        c: usize,
    )
        requires
            self.leaf_fused(t, n, j, a, b, c),
            n <= usize::MAX,
        ensures
            t.inv(Pending::Under(n as usize)),
            t.held(self, n),
            t.count(n) == self.count(n) - 1,
            t.model() == self.model(),
    {
        let s = self;
        let ps = Pending::Under(c);
        s.lemma_leaf_fuse_setting(t, n, j, a, b, c);
        s.lemma_leaf_fuse_tree(t, n, j, a, b, c);
        s.lemma_leaf_fuse_ring(t, n, j, a, b, c);
        assert(t.sorted()) by {
            assert forall|i: int| #[trigger] t.is_leaf(i) implies ascending(t.entries(i)) by {
                assert(t.live(i));
            }
        }
        assert forall|i: int| i != a && i != b implies #[trigger] t.own(i) == s.own(i) by {
            if s.is_leaf(i) {
                assert(t.is_leaf(i));
            }
            if t.is_leaf(i) {
                assert(s.is_leaf(i));
            }
        }
        assert(t.own(b) =~= Seq::<(u64, u64)>::empty());
        assert(t.cat(a, b) =~= s.cat(a, b));
        s.lemma_same_step(t, a, b);
    }

    /// Leaf `c`, one of the children `j` and `j + 1` of `n`, is one short and
    /// neither neighbour can spare an entry: empties child `j + 1` into child `j`
    /// and gives its slot up.
    pub(crate) fn leaf_fuse(&mut self, n: usize, j: usize, a: usize, b: usize, Ghost(c): Ghost<usize>)
        requires
            old(self).inv(Pending::Under(c)),
            c == a || c == b,
            old(self).slot(n as int, j as int),
            j < old(self).links(n as int).len(),
            a == old(self).kid(n as int, j as int),
            b == old(self).kid(n as int, j + 1),
            old(self).is_leaf(a as int),
            old(self).is_leaf(b as int),
            old(self).count(a as int) + old(self).count(b as int) == MAX_LEN,
        ensures
            final(self).inv(Pending::Under(n)),
            final(self).held(old(self), n as int),
            final(self).count(n as int) == old(self).count(n as int) - 1,
            final(self).model() == old(self).model(),
            final(self).order@.len() == old(self).order@.len() - 1,
    {
        let ghost pre = *self;
        proof {
            let ps = Pending::Under(c);
            assert(pre.slot(n as int, j + 1));
            assert(pre.kid_ok(n as int, j as int, ps));
            assert(pre.kid_ok(n as int, j + 1, ps));
            assert(pre.live(a as int) && pre.live(b as int));
            assert(pre.node_ok(a as int, ps) && pre.node_ok(b as int, ps));
            if a == b {
                assert(pre.clash(n as int, j as int, n as int, j + 1));
            }
            pre.lemma_neighbours(ps, a as int);
            if pre.leaf(b as int).right is Some {
                pre.lemma_neighbours(ps, b as int);
                pre.lemma_sorted(ps);
                pre.lemma_apart(pre.pos(a as int), pre.pos(b as int) + 1);
            }
        }
        let mut moved = entries_new();
        let mut next: Option<usize> = None;
        match &mut self.nodes[b] {
            Some(Node::Leaf(x)) => {
                moved = entries_split_off(&mut x.data, 0);
                next = x.right;
            },
            _ => {},
        }
        self.nodes[b] = None;
        self.free.push(b);
        match &mut self.nodes[a] {
            Some(Node::Leaf(x)) => {
                entries_extend(&mut x.data, &moved);
                x.right = next;
            },
            _ => {},
        }
        if let Some(x) = next {
            match &mut self.nodes[x] {
                Some(Node::Leaf(y)) => {
                    y.left = Some(a);
                },
                _ => {},
            }
        }
        let ghost m1 = *self;
        self.unlink(n, j);
        self.order = Ghost(self.order@.remove(pre.pos(b as int)));
        self.notes = Ghost(
            self.notes@.update(
                a as int,
                Note {
                    level: pre.note(a as int).level,
                    first: pre.note(a as int).first,
                    after: pre.note(b as int).after,
                },
            ),
        );
        proof {
            assert(pre.entries(b as int).subrange(0, pre.entries(b as int).len() as int)
                =~= pre.entries(b as int));
            assert forall|i: int|
                0 <= i < pre.nodes@.len() && i != a && i != b && i != n && !points(
                    pre.leaf(b as int).right,
                    i,
                ) implies #[trigger] self.nodes@[i] == pre.nodes@[i] by {
                assert(self.nodes@[i] == m1.nodes@[i]);
            }
            assert(self.nodes@[a as int] == m1.nodes@[a as int]);
            assert(self.nodes@[b as int] == m1.nodes@[b as int]);
            if next is Some {
                assert(self.nodes@[next->0 as int] == m1.nodes@[next->0 as int]);
            }
            pre.lemma_leaf_fuse(self, n as int, j as int, a as int, b as int, c);
            pre.lemma_leaf_fuse_setting(self, n as int, j as int, a as int, b as int, c);
        }
    }
}

} // verus!
