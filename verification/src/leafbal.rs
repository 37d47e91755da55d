//! Restoring a leaf that fell below its minimum by taking an entry from a
//! neighbouring sibling.

use crate::content::lemma_ascending_join;
use crate::map::{ascending, points, BTreeMap};
use crate::node::{Node, Pending};
use crate::slots::{
    entries_at, entries_insert, entries_len, entries_of, entries_remove, MAX_LEN, MIN_LEN,
};
use arrayvec::ArrayVec;
use vstd::prelude::*;

verus! {

/// Appends the entries of `src` to `dst`.
pub(crate) fn entries_extend(
    dst: &mut ArrayVec<(u64, u64), MAX_LEN>,
    src: &ArrayVec<(u64, u64), MAX_LEN>,
)
    requires
        entries_of(*old(dst)).len() + entries_of(*src).len() <= MAX_LEN,
    ensures
        entries_of(*final(dst)) == entries_of(*old(dst)) + entries_of(*src),
{
    let n = entries_len(src);
    let mut i: usize = 0;
    while i < n
        invariant
            i <= n,
            n == entries_of(*src).len(),
            entries_of(*old(dst)).len() + n <= MAX_LEN,
            entries_of(*dst) == entries_of(*old(dst)) + entries_of(*src).subrange(0, i as int),
        decreases n - i,
    {
        let e = *entries_at(src, i);
        let at = entries_len(dst);
        entries_insert(dst, at, e);
        assert(entries_of(*dst) =~= entries_of(*old(dst)) + entries_of(*src).subrange(
            0,
            i + 1,
        ));
        i += 1;
    }
    assert(entries_of(*src).subrange(0, n as int) =~= entries_of(*src));
}

/// Two sorted runs, one below the other, cut at another place: both pieces are
/// sorted, the first stays below the second, and the ends are where they were.
pub(crate) proof fn lemma_reshare(
    u: Seq<(u64, u64)>,
    v: Seq<(u64, u64)>,
    u2: Seq<(u64, u64)>,
    v2: Seq<(u64, u64)>,
)
    requires
        ascending(u),
        ascending(v),
        u.len() > 0,
        v.len() > 0,
        u.last().0 < v[0].0,
        u2.len() > 0,
        v2.len() > 0,
        u2 + v2 == u + v,
    ensures
        ascending(u2),
        ascending(v2),
        u2.last().0 < v2[0].0,
        u2[0] == u[0],
        v2.last() == v.last(),
        u[0].0 <= u2.last().0,
        v2[0].0 <= v.last().0,
{
    let whole = u + v;
    lemma_ascending_join(u, v);
    let n = u2.len() as int;
    assert(whole.len() == u.len() + v.len());
    assert((u2 + v2).len() == n + v2.len());
    assert forall|x: int| 0 <= x < n implies u2[x] == whole[x] by {
        assert((u2 + v2)[x] == u2[x]);
    }
    assert forall|x: int| 0 <= x < v2.len() implies v2[x] == whole[n + x] by {
        assert((u2 + v2)[n + x] == v2[x]);
    }
    assert(whole[0] == u[0]);
    assert(whole[whole.len() - 1] == v.last());
    assert(u2.last() == whole[n - 1]);
    assert(v2[0] == whole[n]);
    assert(v2.last() == whole[n + v2.len() - 1]);
    assert forall|x: int, y: int| 0 <= x < y < u2.len() implies u2[x].0 < u2[y].0 by {
        assert(whole[x].0 < whole[y].0);
    }
    assert forall|x: int, y: int| 0 <= x < y < v2.len() implies v2[x].0 < v2[y].0 by {
        assert(whole[n + x].0 < whole[n + y].0);
    }
    if n - 1 > 0 {
        assert(whole[0].0 < whole[n - 1].0);
    }
    if n < whole.len() - 1 {
        assert(whole[n].0 < whole[whole.len() - 1].0);
    }
}

impl BTreeMap {
    /// `self` differs from `s` in the arena slots `a` and `b` at most.
    pub(crate) open spec fn only_two(&self, s: &BTreeMap, a: int, b: int) -> bool {
        &&& self.nodes@.len() == s.nodes@.len()
        &&& forall|i: int|
            0 <= i < s.nodes@.len() && i != a && i != b ==> #[trigger] self.nodes@[i]
                == s.nodes@[i]
        &&& self.notes == s.notes
        &&& self.root == s.root
        &&& self.free == s.free
        &&& self.order == s.order
        &&& self.keys == s.keys
        &&& self.length == s.length
    }

    /// Leaf `c` is one short and its left neighbour `a` has an entry to spare:
    /// moves the last entry of `a` to the front of `c`.
    pub(crate) fn leaf_from_left(&mut self, a: usize, c: usize)
        requires
            old(self).inv(Pending::Under(c)),
            old(self).is_leaf(a as int),
            old(self).is_leaf(c as int),
            old(self).leaf(a as int).right == Some(c),
            old(self).root != Some(a),
            old(self).root != Some(c),
            old(self).count(a as int) > MIN_LEN,
            old(self).count(c as int) == MIN_LEN - 1,
        ensures
            final(self).inv(Pending::Settled),
            final(self).only_two(old(self), a as int, c as int),
            final(self).is_leaf(a as int),
            final(self).is_leaf(c as int),
            final(self).model() == old(self).model(),
    {
        let ghost pre = *self;
        proof {
            pre.lemma_neighbours(Pending::Under(c), a as int);
        }
        let mut e: (u64, u64) = (0, 0);
        match &mut self.nodes[a] {
            Some(Node::Leaf(x)) => {
                let k = entries_len(&x.data);
                e = entries_remove(&mut x.data, k - 1);
            },
            _ => {},
        }
        match &mut self.nodes[c] {
            Some(Node::Leaf(x)) => {
                entries_insert(&mut x.data, 0, e);
            },
            _ => {},
        }
        proof {
            assert(self.entries(a as int) + self.entries(c as int) =~= pre.entries(a as int)
                + pre.entries(c as int));
            pre.lemma_leaf_shift(self, a as int, c as int, c);
        }
    }

    /// Leaf `c` is one short and its right neighbour `b` has an entry to spare:
    /// moves the first entry of `b` to the end of `c`.
    pub(crate) fn leaf_from_right(&mut self, c: usize, b: usize)
        requires
            old(self).inv(Pending::Under(c)),
            old(self).is_leaf(b as int),
            old(self).is_leaf(c as int),
            old(self).leaf(c as int).right == Some(b),
            old(self).root != Some(b),
            old(self).root != Some(c),
            old(self).count(b as int) > MIN_LEN,
            old(self).count(c as int) == MIN_LEN - 1,
        ensures
            final(self).inv(Pending::Settled),
            final(self).only_two(old(self), c as int, b as int),
            final(self).is_leaf(b as int),
            final(self).is_leaf(c as int),
            final(self).model() == old(self).model(),
    {
        let ghost pre = *self;
        proof {
            pre.lemma_neighbours(Pending::Under(c), c as int);
        }
        let mut e: (u64, u64) = (0, 0);
        match &mut self.nodes[b] {
            Some(Node::Leaf(x)) => {
                e = entries_remove(&mut x.data, 0);
            },
            _ => {},
        }
        match &mut self.nodes[c] {
            Some(Node::Leaf(x)) => {
                let k = entries_len(&x.data);
                entries_insert(&mut x.data, k, e);
            },
            _ => {},
        }
        proof {
            assert(self.entries(c as int) + self.entries(b as int) =~= pre.entries(c as int)
                + pre.entries(b as int));
            pre.lemma_leaf_shift(self, c as int, b as int, c);
        }
    }

    /// `t` is `self` after the neighbouring leaves `u` and `v` shared out their
    /// entries anew, keeping their order.
    pub(crate) open spec fn leaf_shift(&self, t: &BTreeMap, u: int, v: int, c: usize) -> bool {
        &&& self.inv(Pending::Under(c))
        &&& (c == u || c == v)
        &&& self.is_leaf(u)
        &&& self.is_leaf(v)
        &&& points(self.leaf(u).right, v)
        &&& !points(self.root, u)
        &&& !points(self.root, v)
        &&& t.only_two(self, u, v)
        &&& t.is_leaf(u)
        &&& t.is_leaf(v)
        &&& t.entries(u) + t.entries(v) == self.entries(u) + self.entries(v)
        &&& MIN_LEN <= t.entries(u).len() <= MAX_LEN
        &&& MIN_LEN <= t.entries(v).len() <= MAX_LEN
        &&& t.leaf(u).left == self.leaf(u).left
        &&& t.leaf(u).right == self.leaf(u).right
        &&& t.leaf(v).left == self.leaf(v).left
        &&& t.leaf(v).right == self.leaf(v).right
    }

    /// After two neighbouring leaves shared out their entries anew, the leaves are
    /// sorted within and across.
    pub(crate) proof fn lemma_leaf_shift_ring(&self, t: &BTreeMap, u: int, v: int, c: usize)
        requires
            self.leaf_shift(t, u, v, c),
        ensures
            t.sorted(),
            ascending(t.entries(u)),
            ascending(t.entries(v)),
    {
        let s = self;
        let ps = Pending::Under(c);
        s.lemma_neighbours(ps, u);
        let p = s.pos(u);
        assert(s.live(u) && s.live(v));
        assert(s.node_ok(u, ps) && s.node_ok(v, ps));
        assert(s.before(p, p + 1));
        lemma_reshare(s.entries(u), s.entries(v), t.entries(u), t.entries(v));
        assert forall|i: int| #[trigger] t.is_leaf(i) implies s.is_leaf(i) by {
            if i != u && i != v {
                assert(t.nodes@[i] == s.nodes@[i]);
            }
        }
        assert forall|i: int| #[trigger] s.is_leaf(i) implies t.is_leaf(i) && (i != u && i != v
            ==> t.leaf(i) == s.leaf(i)) by {
            if i != u && i != v {
                assert(t.nodes@[i] == s.nodes@[i]);
            }
        }
        assert forall|pp: int| 0 <= pp < t.order@.len() implies #[trigger] t.linked(pp) by {
            assert(s.linked(pp));
        }
        assert forall|i: int| #[trigger] t.is_leaf(i) implies 0 <= t.pos(i) < t.order@.len()
            && t.order@[t.pos(i)] == i by {
            assert(s.is_leaf(i));
        }
        s.lemma_sorted(ps);
        assert forall|pp: int, qq: int| 0 <= pp < qq < t.order@.len() implies #[trigger] t.before(
            pp,
            qq,
        ) by {
            assert(s.before(pp, qq));
            assert(s.linked(pp));
            assert(s.linked(qq));
            if pp != p && pp != p + 1 {
                s.lemma_far(p, pp);
            }
            if qq != p && qq != p + 1 {
                s.lemma_far(p, qq);
            }
            if pp == p + 1 {
                assert(s.before(p + 1, qq));
            }
            if qq == p {
                assert(s.before(pp, p));
            }
            if pp == p && qq > p + 1 {
                assert(s.before(p + 1, qq));
            }
            if qq == p + 1 && pp < p {
                assert(s.before(pp, p));
            }
        }
        assert forall|i: int| #[trigger] t.is_leaf(i) implies ascending(t.entries(i)) by {
            assert(s.is_leaf(i));
            assert(s.live(i));
            assert(s.node_ok(i, ps));
        }
    }

    /// Two neighbouring leaves `u` and `v` share out their entries anew, keeping
    /// their order.
    pub(crate) proof fn lemma_leaf_shift(&self, t: &BTreeMap, u: int, v: int, c: usize)
        requires
            self.leaf_shift(t, u, v, c),
        ensures
            t.inv(Pending::Settled),
            t.model() == self.model(),
    {
        let s = self;
        let ps = Pending::Under(c);
        let pt = Pending::Settled;
        s.lemma_leaf_shift_ring(t, u, v, c);
        assert forall|i: int| 0 <= i < t.nodes@.len() && !s.is_leaf(i) implies #[trigger] t.nodes@[i]
            == s.nodes@[i] by {}
        s.lemma_tree_kept(t, ps);
        assert forall|i: int| #[trigger] t.live(i) implies t.node_ok(i, pt) by {
            assert(s.live(i));
            assert(s.node_ok(i, ps));
        }
        assert forall|i: int, x: int| #[trigger] t.slot(i, x) implies t.kid_ok(i, x, pt) by {
            assert(t.kid_ok(i, x, ps));
        }
        s.lemma_sorted(ps);
        assert(forall|i: int| i != u && i != v ==> #[trigger] t.own(i) == s.own(i));
        s.lemma_neighbours(ps, u);
        assert(u != v);
        assert(t.cat(u, v) == s.cat(u, v));
        s.lemma_same_step(t, u, v);
    }
}

} // verus!
