//! Insertion from the root down and back up.

use crate::grow::Insert;
use crate::laws::lookup;
use crate::map::BTreeMap;
use crate::node::{Intra, Leaf, Node, Note, Pending};
use crate::slots::{entries_insert, entries_new, links_insert, links_new, MAX_LEN};
use vstd::prelude::*;

verus! {

impl BTreeMap {
    /// Inserts below node `n`, to which `key` has been routed.
    pub(crate) fn insert_at(&mut self, n: usize, key: u64, value: u64) -> (r: Insert)
        requires
            old(self).inv(Pending::Settled),
            old(self).live(n as int),
            old(self).fenced(n as int, key),
            old(self).length < usize::MAX,
        ensures
            final(self).inserted(old(self), n, key, value, r),
        decreases old(self).note(n as int).level,
    {
        let ghost pre = *self;
        let is_leaf = match &self.nodes[n] {
            Some(Node::Leaf(_)) => true,
            _ => false,
        };
        if is_leaf {
            return self.leaf_put(n, key, value);
        }
        let (j, c) = self.route(n, key);
        proof {
            assert(self.kid_ok(n as int, j as int, Pending::Settled));
            if j > 0 {
                assert(self.slot(n as int, j - 1));
            }
            assert(self.slot(n as int, 0));
        }
        let r = self.insert_at(c, key, value);
        let ghost mid = *self;
        proof {
            assert(pre.live(n as int));
            assert(mid.nodes@[n as int] == pre.nodes@[n as int]);
            assert(mid.live(c as int));
        }
        match r {
            Insert::Split(sep, right) => {
                proof {
                    assert(mid.slot(n as int, j as int));
                    assert(mid.kid(n as int, j as int) == c);
                }
                self.absorb(n, j, sep, right);
                let ghost mid2 = *self;
                proof {
                    assert forall|i: int|
                        #[trigger] pre.live(i) && pre.note(i).level > pre.note(
                            n as int,
                        ).level implies mid2.nodes@[i] == pre.nodes@[i] && mid2.notes@[i]
                        == pre.notes@[i] by {
                        assert(mid.live(i));
                        assert(mid2.nodes@[i] == mid.nodes@[i]);
                    }
                    assert forall|i: int| #[trigger] pre.live(i) implies mid2.live(i) by {
                        assert(mid.live(i));
                        if i != n {
                            assert(mid2.nodes@[i] == mid.nodes@[i]);
                        }
                    }
                }
                if self.count_at(n) > MAX_LEN {
                    let (s2, r2) = self.divide(n);
                    proof {
                        assert forall|i: int|
                            #[trigger] pre.live(i) && pre.note(i).level > pre.note(
                                n as int,
                            ).level implies self.nodes@[i] == pre.nodes@[i] && self.notes@[i]
                            == pre.notes@[i] by {
                            assert(mid2.live(i));
                        }
                        assert forall|i: int| #[trigger] pre.live(i) implies self.live(i) by {
                            assert(mid2.live(i));
                        }
                    }
                    Insert::Split(s2, r2)
                } else {
                    Insert::Done
                }
            },
            Insert::Done => Insert::Done,
            Insert::Duplicated(v) => Insert::Duplicated(v),
        }
    }

    /// Stores `value` under `key`. Hands back the value that `key` had before, if
    /// it had one. The tree grows by one level when its root is divided.
    pub fn insert(&mut self, key: u64, value: u64) -> (r: Option<u64>)
        requires
            old(self).wf(),
            old(self)@.len() < usize::MAX,
        ensures
            final(self).wf(),
            final(self)@ == old(self)@.insert(key, value),
            r == lookup(old(self)@, key),
            final(self).balanced(),
            old(self).depth() <= final(self).depth() <= old(self).depth() + 1,
            old(self).leaves() <= final(self).leaves() <= old(self).leaves() + 1,
    {
        proof {
            self.wf_unfold();
            assert(self.model().dom() =~= self.keys@);
        }
        let ghost pre = *self;
        if self.root.is_none() {
            let mut data = entries_new();
            entries_insert(&mut data, 0, (key, value));
            let l = self.store(Node::Leaf(Leaf { data, left: None, right: None }));
            self.root = Some(l);
            self.length = 1;
            self.notes = Ghost(self.notes@.update(l as int, Note { level: 0, first: l, after: None }));
            self.order = Ghost(Seq::<usize>::empty().push(l));
            self.keys = Ghost(Set::<u64>::empty().insert(key));
            proof {
                assert(self.entries(0) =~= Seq::<(u64, u64)>::empty().push((key, value)));
                pre.lemma_first_leaf(self, key, value);
                self.wf_unfold();
                self.lemma_wf_balanced();
            }
            return None;
        }
        let top = self.root.unwrap();
        let r = self.insert_at(top, key, value);
        let out = match r {
            Insert::Done => None,
            Insert::Duplicated(v) => Some(v),
            Insert::Split(sep, right) => {
                let ghost mid = *self;
                let mut heads = links_new();
                links_insert(&mut heads, 0, (top, sep));
                let n = self.store(Node::Intra(Intra { heads, tail: right }));
                self.root = Some(n);
                self.notes = Ghost(
                    self.notes@.update(
                        n as int,
                        Note {
                            level: mid.note(top as int).level + 1,
                            first: mid.note(top as int).first,
                            after: None,
                        },
                    ),
                );
                proof {
                    assert(self.links(n as int) =~= Seq::<(usize, usize)>::empty().push(
                        (top, sep),
                    ));
                    mid.lemma_new_root(self, top as int, right as int, n as int);
                }
                None
            },
        };
        proof {
            self.wf_unfold();
            self.lemma_wf_balanced();
        }
        out
    }

    /// The first leaf of an empty map, holding the first entry.
    pub(crate) proof fn lemma_first_leaf(&self, t: &BTreeMap, key: u64, value: u64)
        requires
            self.inv(Pending::Settled),
            self.root is None,
            t.nodes@.len() == 1,
            t.notes@.len() == 1,
            t.is_leaf(0),
            t.entries(0) == Seq::<(u64, u64)>::empty().push((key, value)),
            t.leaf(0).left is None,
            t.leaf(0).right is None,
            t.note(0) == (Note { level: 0, first: 0, after: None }),
            t.root == Some(0usize),
            t.order@ == Seq::<usize>::empty().push(0usize),
            t.keys@ == Set::<u64>::empty().insert(key),
            t.length == 1,
            t.free_ok(),
        ensures
            t.inv(Pending::Settled),
            self.model() == Map::<u64, u64>::empty(),
            t.model() == self.model().insert(key, value),
    {
        let s = self;
        assert(t.order@[0] == 0);
        assert forall|i: int| #[trigger] t.is_leaf(i) implies 0 <= t.pos(i) < t.order@.len()
            && t.order@[t.pos(i)] == i by {
            assert(i == 0);
        }
        assert forall|k: u64| !s.keys@.contains(k) by {
            if s.keys@.contains(k) {
                let v = choose|v: u64| s.carries((k, v));
                assert(s.carries((k, v)));
            }
        }
        assert(s.model() =~= Map::<u64, u64>::empty());
        assert(t.holds(0, 0, (key, value)));
        assert(t.carries((key, value)));
        assert forall|k: u64| #[trigger] t.keys@.contains(k) implies exists|v: u64| #[trigger]
            t.carries((k, v)) by {
            assert(t.carries((key, value)));
        }
        assert forall|k: u64| t.model().contains_key(k) implies #[trigger] t.model()[k]
            == value by {
            let v = t.value(k);
            assert(t.carries((key, value)));
            assert(t.carries((k, v)));
            let (i, j) = choose|i: int, j: int| t.holds(i, j, (k, v));
            assert(i == 0 && j == 0);
        }
        assert(t.model() =~= s.model().insert(key, value));
    }

    /// The old root `c` was divided: a new root `n` takes `c` and its upper part
    /// `r` as its two children.
    pub(crate) proof fn lemma_new_root(&self, t: &BTreeMap, c: int, r: int, n: int)
        requires
            self.inv(Pending::Split(c as usize, r as usize)),
            self.root == Some(c as usize),
            0 <= c <= usize::MAX,
            0 <= r <= usize::MAX,
            0 <= n <= usize::MAX,
            !self.live(n),
            0 <= n < t.nodes@.len(),
            t.notes@.len() == t.nodes@.len(),
            self.nodes@.len() <= t.nodes@.len() <= self.nodes@.len() + 1,
            t.nodes@.len() > self.nodes@.len() ==> n == self.nodes@.len(),
            t.is_intra(n),
            t.links(n) == Seq::<(usize, usize)>::empty().push((c as usize, self.note(r).first)),
            t.intra(n).tail == r,
            forall|i: int|
                0 <= i < self.nodes@.len() && i != n ==> #[trigger] t.nodes@[i] == self.nodes@[i],
            forall|i: int|
                0 <= i < self.nodes@.len() && i != n ==> #[trigger] t.notes@[i] == self.notes@[i],
            t.note(n).level == self.note(c).level + 1,
            t.note(n).first == self.note(c).first,
            t.note(n).after is None,
            t.root == Some(n as usize),
            t.order == self.order,
            t.keys == self.keys,
            t.length == self.length,
            t.free_ok(),
        ensures
            t.inv(Pending::Settled),
            t.model() == self.model(),
    {
        let s = self;
        let ps = Pending::Split(c as usize, r as usize);
        let pt = Pending::Settled;
        assert(s.live(c) && s.live(r));
        assert forall|i: int| #[trigger] s.live(i) implies t.live(i) && t.is_leaf(i) == s.is_leaf(i)
            && t.is_intra(i) == s.is_intra(i) by {
            assert(t.nodes@[i] == s.nodes@[i]);
        }
        assert forall|i: int| #[trigger] t.live(i) && i != n implies s.live(i) by {
            assert(t.nodes@[i] == s.nodes@[i]);
        }
        assert forall|i: int| #[trigger] s.is_leaf(i) implies t.is_leaf(i) && t.leaf(i) == s.leaf(
            i,
        ) by {
            assert(s.live(i));
            assert(t.nodes@[i] == s.nodes@[i]);
        }
        assert forall|i: int| #[trigger] t.is_leaf(i) implies s.is_leaf(i) by {
            assert(t.live(i));
            assert(t.nodes@[i] == s.nodes@[i]);
        }
        assert forall|i: int| #[trigger] t.live(i) implies t.node_ok(i, pt) by {
            if i != n {
                assert(s.live(i));
                assert(s.node_ok(i, ps));
                assert(t.nodes@[i] == s.nodes@[i]);
                assert(t.notes@[i] == s.notes@[i]);
            }
        }
        assert(t.kid(n, 0) == c);
        assert(t.kid(n, 1) == r);
        assert forall|i: int, x: int| #[trigger] t.slot(i, x) implies t.kid_ok(i, x, pt) by {
            if i == n {
                assert(t.notes@[c] == s.notes@[c]);
                assert(t.notes@[r] == s.notes@[r]);
                assert(s.live(s.note(r).first as int));
            } else {
                assert(t.live(i));
                assert(t.nodes@[i] == s.nodes@[i]);
                assert(t.notes@[i] == s.notes@[i]);
                assert(s.slot(i, x));
                assert(s.kid_ok(i, x, ps));
                let k = s.kid(i, x) as int;
                assert(s.live(k));
                assert(t.notes@[k] == s.notes@[k]);
                if x < s.links(i).len() {
                    assert(s.slot(i, x + 1));
                    assert(s.kid_ok(i, x + 1, ps));
                    let k2 = s.kid(i, x + 1) as int;
                    assert(s.live(k2));
                    assert(t.notes@[k2] == s.notes@[k2]);
                    assert(s.live(s.sep(i, x) as int));
                }
            }
        }
        assert forall|i1: int, j1: int, i2: int, j2: int| #[trigger]
            t.clash(i1, j1, i2, j2) implies i1 == i2 && j1 == j2 by {
            if i1 != n {
                assert(t.live(i1));
                assert(t.nodes@[i1] == s.nodes@[i1]);
                assert(s.slot(i1, j1));
                assert(s.kid_ok(i1, j1, ps));
            }
            if i2 != n {
                assert(t.live(i2));
                assert(t.nodes@[i2] == s.nodes@[i2]);
                assert(s.slot(i2, j2));
                assert(s.kid_ok(i2, j2, ps));
            }
            if i1 != n && i2 != n {
                assert(s.clash(i1, j1, i2, j2));
            }
        }
        assert(t.root_ok(pt)) by {
            assert(t.notes@[c] == s.notes@[c]);
        }
        s.lemma_sorted(ps);
        s.lemma_leaves_kept(t);
    }
}

} // verus!
