//! Removal from the root down and back up.

use crate::laws::lookup;
use crate::map::BTreeMap;
use crate::node::{Node, Pending};
use crate::slots::{links_at, links_len, MIN_LEN};
use vstd::prelude::*;

verus! {

impl BTreeMap {
    /// Child `j` of internal node `n`.
    pub(crate) fn kid_at(&self, n: usize, j: usize) -> (k: usize)
        requires
            self.slot(n as int, j as int),
        ensures
            k == self.kid(n as int, j as int),
    {
        match &self.nodes[n] {
            Some(Node::Intra(x)) => {
                if j < links_len(&x.heads) {
                    links_at(&x.heads, j).0
                } else {
                    x.tail
                }
            },
            _ => 0,
        }
    }

    /// Whether slot `n` holds a leaf.
    pub(crate) fn leaf_at(&self, n: usize) -> (b: bool)
        requires
            self.live(n as int),
        ensures
            b == self.is_leaf(n as int),
            !b == self.is_intra(n as int),
    {
        match &self.nodes[n] {
            Some(Node::Leaf(_)) => true,
            _ => false,
        }
    }

    /// Child `j` of `n` is one short of its minimum: takes an entry or child from
    /// its left sibling if that one has any to spare, else from its right sibling,
    /// else fuses it with a sibling.
    pub(crate) fn rebalance(&mut self, n: usize, j: usize, c: usize)
        requires
            old(self).inv(Pending::Under(c)),
            old(self).slot(n as int, j as int),
            old(self).kid(n as int, j as int) == c,
            old(self).count(c as int) == MIN_LEN - 1,
        ensures
            final(self).inv(Pending::Under(n)),
            final(self).held(old(self), n as int),
            final(self).model() == old(self).model(),
            final(self).order@.len() <= old(self).order@.len() <= final(self).order@.len() + 1,
            old(self).is_intra(c as int) ==> final(self).order == old(self).order,
    {
        let ghost pre = *self;
        let ghost ps = Pending::Under(c);
        proof {
            assert(pre.kid_ok(n as int, j as int, ps));
            assert(pre.live(n as int) && pre.live(c as int));
            assert(pre.node_ok(n as int, ps) && pre.node_ok(c as int, ps));
        }
        let len = self.count_at(n) - 1;
        let leafy = self.leaf_at(c);
        if j > 0 {
            proof {
                assert(pre.slot(n as int, j - 1));
                assert(pre.kid_ok(n as int, j - 1, ps));
            }
            let a = self.kid_at(n, j - 1);
            proof {
                assert(pre.live(a as int));
                assert(pre.node_ok(a as int, ps));
                if a == c {
                    assert(pre.clash(n as int, j - 1, n as int, j as int));
                }
            }
            if self.count_at(a) > MIN_LEN {
                if leafy {
                    self.leaf_from_left(a, c);
                } else {
                    self.intra_from_left(n, j - 1, a, c);
                }
                proof {
                    self.lemma_relax(n);
                }
                return ;
            }
        }
        if j < len {
            proof {
                assert(pre.slot(n as int, j + 1));
                assert(pre.kid_ok(n as int, j + 1, ps));
            }
            let b = self.kid_at(n, j + 1);
            proof {
                assert(pre.live(b as int));
                assert(pre.node_ok(b as int, ps));
                if b == c {
                    assert(pre.clash(n as int, j + 1, n as int, j as int));
                }
            }
            if self.count_at(b) > MIN_LEN {
                if leafy {
                    self.leaf_from_right(c, b);
                } else {
                    self.intra_from_right(n, j, c, b);
                }
                proof {
                    self.lemma_relax(n);
                }
                return ;
            }
        }
        if j > 0 {
            let a = self.kid_at(n, j - 1);
            if leafy {
                self.leaf_fuse(n, j - 1, a, c, Ghost(c));
            } else {
                self.intra_fuse(n, j - 1, a, c, Ghost(c));
            }
        } else {
            let b = self.kid_at(n, j + 1);
            if leafy {
                self.leaf_fuse(n, j, c, b, Ghost(c));
            } else {
                self.intra_fuse(n, j, c, b, Ghost(c));
            }
        }
    }

    /// Removes `key` below node `n`, to which it has been routed.
    pub(crate) fn remove_at(&mut self, n: usize, key: u64) -> (r: Option<(u64, u64)>)
        requires
            old(self).inv(Pending::Settled),
            old(self).live(n as int),
            old(self).fenced(n as int, key),
        ensures
            final(self).removed(old(self), n, key, r),
        decreases old(self).note(n as int).level,
    {
        let ghost pre = *self;
        if self.leaf_at(n) {
            return self.leaf_take(n, key);
        }
        let (j, c) = self.route(n, key);
        proof {
            assert(self.kid_ok(n as int, j as int, Pending::Settled));
            if j > 0 {
                assert(self.slot(n as int, j - 1));
            }
            assert(self.slot(n as int, 0));
            assert(pre.live(c as int));
            assert(pre.node_ok(c as int, Pending::Settled));
            assert(pre.node_ok(n as int, Pending::Settled));
        }
        let r = self.remove_at(c, key);
        let ghost mid = *self;
        proof {
            assert(mid.nodes@[n as int] == pre.nodes@[n as int]);
            assert(mid.notes@[n as int] == pre.notes@[n as int]);
            assert(mid.slot(n as int, j as int));
            assert(mid.kid(n as int, j as int) == c);
            assert(mid.node_ok(c as int, Pending::Under(c)));
        }
        if self.count_at(c) < MIN_LEN {
            self.rebalance(n, j, c);
            proof {
                assert forall|i: int|
                    #[trigger] pre.live(i) && pre.note(i).level > pre.note(n as int).level implies self.nodes@[i]
                    == pre.nodes@[i] && self.notes@[i] == pre.notes@[i] by {
                    assert(mid.nodes@[i] == pre.nodes@[i]);
                    assert(mid.live(i));
                }
            }
        } else {
            proof {
                self.lemma_settle(c);
                self.lemma_relax(n);
                assert forall|i: int|
                    #[trigger] pre.live(i) && pre.note(i).level > pre.note(n as int).level implies self.nodes@[i]
                    == pre.nodes@[i] && self.notes@[i] == pre.notes@[i] by {}
            }
        }
        r
    }

    /// Takes `key` out of the map. Hands back the value that it had, if it was
    /// present. The tree loses a level when its root is left with a single child.
    pub fn remove(&mut self, key: &u64) -> (r: Option<u64>)
        requires
            old(self).wf(),
        ensures
            final(self).wf(),
            final(self)@ == old(self)@.remove(*key),
            r == lookup(old(self)@, *key),
            final(self).balanced(),
            final(self).depth() <= old(self).depth() <= final(self).depth() + 1,
            final(self).leaves() <= old(self).leaves() <= final(self).leaves() + 1,
    {
        proof {
            self.wf_unfold();
        }
        let ghost pre = *self;
        if self.root.is_none() {
            proof {
                if self.keys@.contains(*key) {
                    let v = choose|v: u64| self.carries((*key, v));
                    assert(self.carries((*key, v)));
                }
                assert(self.model().remove(*key) =~= self.model());
                self.lemma_wf_balanced();
            }
            return None;
        }
        let top = self.root.unwrap();
        let r = self.remove_at(top, *key);
        let ghost mid = *self;
        proof {
            assert(mid.live(top as int));
            assert(mid.node_ok(top as int, Pending::Under(top)));
            assert(mid.slot(top as int, 0) ==> mid.kid_ok(top as int, 0, Pending::Under(top)));
            if r is None {
                assert(pre.model().remove(*key) =~= pre.model());
            }
        }
        let single = match &self.nodes[top] {
            Some(Node::Intra(x)) => {
                if links_len(&x.heads) == 0 {
                    Some(x.tail)
                } else {
                    None
                }
            },
            _ => None,
        };
        match single {
            Some(c) => {
                self.nodes[top] = None;
                self.free.push(top);
                self.root = Some(c);
                proof {
                    mid.lemma_collapse(self, top as int, c as int);
                }
            },
            None => {
                proof {
                    self.lemma_settle(top);
                }
            },
        }
        proof {
            self.wf_unfold();
            self.lemma_wf_balanced();
        }
        match r {
            Some(e) => Some(e.1),
            None => None,
        }
    }

    /// The root `r0` is left with the single child `c`, which takes its place.
    pub(crate) proof fn lemma_collapse(&self, t: &BTreeMap, r0: int, c: int)
        requires
            self.inv(Pending::Under(r0 as usize)),
            0 <= r0 <= usize::MAX,
            0 <= c <= usize::MAX,
            self.root == Some(r0 as usize),
            self.is_intra(r0),
            self.links(r0).len() == 0,
            c == self.intra(r0).tail,
            t.nodes@ == self.nodes@.update(r0, None),
            t.notes == self.notes,
            t.free@ == self.free@.push(r0 as usize),
            t.root == Some(c as usize),
            t.order == self.order,
            t.keys == self.keys,
            t.length == self.length,
        ensures
            t.inv(Pending::Settled),
            t.model() == self.model(),
    {
        let s = self;
        let ps = Pending::Under(r0 as usize);
        let pt = Pending::Settled;
        assert(s.slot(r0, 0));
        assert(s.kid(r0, 0) == c);
        assert(s.kid_ok(r0, 0, ps));
        assert(s.live(c) && s.live(r0));
        assert(s.node_ok(c, ps));
        s.lemma_sorted(ps);
        assert forall|i: int| #[trigger] t.live(i) <==> s.live(i) && i != r0 by {}
        assert forall|i: int| #[trigger] s.is_leaf(i) implies t.is_leaf(i) && t.leaf(i) == s.leaf(
            i,
        ) by {}
        assert forall|i: int| #[trigger] t.is_leaf(i) implies s.is_leaf(i) by {}
        assert forall|i: int| #[trigger] t.live(i) implies t.node_ok(i, pt) by {
            assert(s.live(i));
            assert(s.node_ok(i, ps));
        }
        assert forall|i: int, x: int| #[trigger] t.slot(i, x) implies t.kid_ok(i, x, pt) by {
            assert(s.slot(i, x));
            assert(s.kid_ok(i, x, ps));
            let k = s.kid(i, x) as int;
            if k == c {
                assert(s.clash(i, x, r0, 0));
            }
            if x < s.links(i).len() {
                assert(s.slot(i, x + 1));
                assert(s.kid_ok(i, x + 1, ps));
                let k2 = s.kid(i, x + 1) as int;
                assert(s.live(k2));
                if s.sep(i, x) == c {
                    if k2 == c {
                        assert(s.clash(i, x + 1, r0, 0));
                    } else {
                        s.lemma_first_chain(ps, k2, c);
                        if s.kid(k2, 0) == c {
                            assert(s.clash(k2, 0, r0, 0));
                        } else {
                            let i3 = choose|i3: int| #[trigger]
                                s.slot(i3, 0) && s.kid(i3, 0) == c && s.is_child(i3);
                            assert(s.clash(i3, 0, r0, 0));
                            let (i4, j4) = choose|i4: int, j4: int| #[trigger]
                                s.slot(i4, j4) && s.kid(i4, j4) == i3;
                            assert(s.kid_ok(i4, j4, ps));
                        }
                    }
                }
            }
        }
        assert forall|i1: int, j1: int, i2: int, j2: int| #[trigger]
            t.clash(i1, j1, i2, j2) implies i1 == i2 && j1 == j2 by {
            assert(s.slot(i1, j1) && s.slot(i2, j2));
            assert(s.clash(i1, j1, i2, j2));
        }
        assert(t.root_ok(pt)) by {
            if t.is_leaf(c) {
                let p = s.pos(c);
                assert(s.linked(p));
                if p != 0 {
                    s.lemma_apart(0, p);
                }
            }
        }
        assert(t.free_ok()) by {
            assert forall|x: int| 0 <= x < t.free@.len() implies (#[trigger] t.free@[x])
                < t.nodes@.len() && t.nodes@[t.free@[x] as int] is None by {
                if x < s.free@.len() {
                    let f = s.free@[x] as int;
                    assert(!s.live(f));
                }
            }
            assert forall|x: int, y: int| 0 <= x < y < t.free@.len() implies #[trigger] t.free@[x]
                != #[trigger] t.free@[y] by {
                if y == s.free@.len() {
                    assert(!s.live(s.free@[x] as int));
                }
            }
        }
        s.lemma_leaves_kept(t);
    }
}

} // verus!
