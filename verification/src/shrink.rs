//! Removal at the leaf level, and the contract that every removal step keeps.

use crate::lookup::find_slot;
use crate::map::{ascending, points, BTreeMap};
use crate::node::{Node, Pending};
use crate::slots::entries_remove;
use vstd::prelude::*;

verus! {

impl BTreeMap {
    /// Node `n` keeps its place and its notes, and all that stands above it is as
    /// it was in `s`.
    pub(crate) open spec fn held(&self, s: &BTreeMap, n: int) -> bool {
        &&& self.root == s.root
        &&& self.nodes@.len() == s.nodes@.len()
        &&& self.live(n)
        &&& self.note(n) == s.note(n)
        &&& forall|i: int|
            #[trigger] s.live(i) && s.note(i).level > s.note(n).level ==> self.nodes@[i]
                == s.nodes@[i] && self.notes@[i] == s.notes@[i]
    }

    /// The contract shared by every removal step at node `n`.
    pub(crate) open spec fn removed(&self, s: &BTreeMap, n: usize, key: u64, r: Option<(u64, u64)>) -> bool {
        &&& self.inv(Pending::Under(n))
        &&& self.held(s, n as int)
        &&& self.order@.len() <= s.order@.len() <= self.order@.len() + 1
        &&& (s.is_leaf(n as int) ==> self.order == s.order)
        &&& match r {
            None => !s.model().contains_key(key) && self.model() == s.model() && self.count(
                n as int,
            ) == s.count(n as int),
            Some(e) => e.0 == key && s.model().contains_key(key) && s.model()[key] == e.1
                && self.model() == s.model().remove(key),
        }
    }

    /// Takes `key` out of leaf `l` if it is there.
    pub(crate) fn leaf_take(&mut self, l: usize, key: u64) -> (r: Option<(u64, u64)>)
        requires
            old(self).inv(Pending::Settled),
            old(self).is_leaf(l as int),
            old(self).fenced(l as int, key),
        ensures
            final(self).removed(old(self), l, key, r),
    {
        let ghost pre = *self;
        assert(self.node_ok(l as int, Pending::Settled));
        let found = match &self.nodes[l] {
            Some(Node::Leaf(leaf)) => find_slot(&leaf.data, key),
            _ => Err(0),
        };
        match found {
            Err(_) => {
                proof {
                    self.lemma_absent(l as int, key);
                    self.lemma_relax(l);
                }
                None
            },
            Ok(j) => {
                let mut gone: (u64, u64) = (0, 0);
                match &mut self.nodes[l] {
                    Some(Node::Leaf(leaf)) => {
                        gone = entries_remove(&mut leaf.data, j);
                    },
                    _ => {},
                }
                proof {
                    assert(pre.holds(l as int, j as int, pre.entries(l as int)[j as int]));
                    assert(pre.keys@.contains(key));
                    assert(pre.keys@.len() > 0) by {
                        if pre.keys@.len() == 0 {
                            assert(pre.keys@ =~= Set::empty());
                        }
                    }
                }
                self.length = self.length - 1;
                self.keys = Ghost(self.keys@.remove(key));
                proof {
                    pre.lemma_leaf_take(self, l as int, j as int);
                }
                Some(gone)
            },
        }
    }

    /// Removing the entry at position `j` of leaf `l`.
    pub(crate) proof fn lemma_leaf_take(&self, t: &BTreeMap, l: int, j: int)
        requires
            self.inv(Pending::Settled),
            self.is_leaf(l),
            l <= usize::MAX,
            0 <= j < self.entries(l).len(),
            t.is_leaf(l),
            t.entries(l) == self.entries(l).remove(j),
            t.leaf(l).left == self.leaf(l).left,
            t.leaf(l).right == self.leaf(l).right,
            t.nodes@.len() == self.nodes@.len(),
            forall|i: int| 0 <= i < t.nodes@.len() && i != l ==> t.nodes@[i] == self.nodes@[i],
            t.notes == self.notes,
            t.root == self.root,
            t.free == self.free,
            t.order == self.order,
            t.keys@ == self.keys@.remove(self.entries(l)[j].0),
            t.length == self.length - 1,
        ensures
            t.inv(Pending::Under(l as usize)),
            t.held(self, l),
            self.model().contains_key(self.entries(l)[j].0),
            self.model()[self.entries(l)[j].0] == self.entries(l)[j].1,
            t.model() == self.model().remove(self.entries(l)[j].0),
    {
        let s = self;
        let p = Pending::Settled;
        let q = Pending::Under(l as usize);
        assert(s.node_ok(l, p));
        s.lemma_tree_kept(t, p);
        assert(forall|i: int| i != l ==> #[trigger] t.own(i) == s.own(i));
        assert(ascending(t.entries(l)));
        let pl = s.pos(l);
        assert forall|i: int| #[trigger] t.live(i) implies t.node_ok(i, q) by {
            assert(s.live(i));
            assert(s.node_ok(i, p));
        }
        assert forall|i: int, x: int| #[trigger] t.slot(i, x) implies t.kid_ok(i, x, q) by {
            assert(t.kid_ok(i, x, p));
        }
        assert forall|pp: int, qq: int| 0 <= pp < qq < t.order@.len() implies #[trigger] t.before(
            pp,
            qq,
        ) by {
            assert(s.before(pp, qq));
            assert(s.linked(pp));
            assert(s.linked(qq));
            assert(s.linked(pl));
            if s.order@[pp] == l || s.order@[qq] == l {
                if points(s.root, l) {
                    assert(s.order@.len() == 1);
                }
                assert(t.entries(l).len() >= 1);
                assert(t.entries(l)[0] == s.entries(l)[0] || t.entries(l)[0] == s.entries(l)[1]);
                let z = t.entries(l).len() as int;
                assert(t.entries(l)[z - 1] == s.entries(l)[z - 1] || t.entries(l)[z - 1]
                    == s.entries(l)[z]);
            }
        }
        assert forall|pp: int| 0 <= pp < t.order@.len() implies #[trigger] t.linked(pp) by {
            assert(s.linked(pp));
        }
        assert forall|i: int| #[trigger] t.is_leaf(i) implies 0 <= t.pos(i) < t.order@.len()
            && t.order@[t.pos(i)] == i by {
            assert(s.is_leaf(i));
        }
        assert(t.sorted()) by {
            assert forall|i: int| #[trigger] t.is_leaf(i) implies ascending(t.entries(i)) by {
                assert(t.live(i));
            }
        }
        s.lemma_sorted(p);
        s.lemma_take_step(t, l, l, j);
    }
}

} // verus!
