//! Insertion at the leaf level: replacing a value, adding an entry, dividing a
//! full leaf; and the contract that every insertion step keeps.

use crate::content::lemma_ascending_insert;
use crate::lookup::find_slot;
use crate::map::{ascending, points, BTreeMap};
use crate::node::{Leaf, Node, Note, Pending};
use crate::slots::{
    entries_at_mut, entries_insert, entries_len, entries_new, entries_split_off, MAX_LEN, MIN_LEN,
};
use vstd::prelude::*;

verus! {

/// What an insertion below a node did to it.
pub(crate) enum Insert {
    /// A new key went in and the node had room.
    Done,
    /// The key was there; its former value is handed back.
    Duplicated(u64),
    /// A new key went in and the node was divided: the separator leaf and the node
    /// that now holds the upper part.
    Split(usize, usize),
}

impl BTreeMap {
    /// `self` is `s` with `node` stored in slot `idx`, which was vacant or new.
    pub(crate) open spec fn placed(&self, s: &BTreeMap, idx: int, node: Node) -> bool {
        &&& !s.live(idx)
        &&& self.nodes@.len() == self.notes@.len()
        &&& s.nodes@.len() <= self.nodes@.len() <= s.nodes@.len() + 1
        &&& self.nodes@.len() > s.nodes@.len() ==> idx == s.nodes@.len()
        &&& 0 <= idx < self.nodes@.len()
        &&& self.nodes@[idx] == Some(node)
        &&& forall|i: int|
            0 <= i < s.nodes@.len() && i != idx ==> #[trigger] self.nodes@[i] == s.nodes@[i]
        &&& forall|i: int|
            0 <= i < s.nodes@.len() && i != idx ==> #[trigger] self.notes@[i] == s.notes@[i]
        &&& self.free_ok()
        &&& self.root == s.root
        &&& self.length == s.length
        &&& self.order == s.order
        &&& self.keys == s.keys
    }

    /// Stores `node` in a vacant slot, reusing a freed one if there is any.
    pub(crate) fn store(&mut self, node: Node) -> (idx: usize)
        requires
            old(self).free_ok(),
            old(self).notes@.len() == old(self).nodes@.len(),
        ensures
            final(self).placed(old(self), idx as int, node),
    {
        match self.free.pop() {
            Some(idx) => {
                assert(old(self).free@[old(self).free@.len() - 1] == idx);
                self.nodes[idx] = Some(node);
                idx
            },
            None => {
                self.nodes.push(Some(node));
                self.notes = Ghost(self.notes@.push(Note { level: 0, first: 0, after: None }));
                self.nodes.len() - 1
            },
        }
    }

    /// All that stands above node `n` is as it was in `s`.
    pub(crate) open spec fn above_kept(&self, s: &BTreeMap, n: int) -> bool {
        &&& self.root == s.root
        &&& self.live(n)
        &&& self.note(n).level == s.note(n).level
        &&& forall|i: int| #[trigger] s.live(i) ==> self.live(i)
        &&& forall|i: int|
            #[trigger] s.live(i) && s.note(i).level > s.note(n).level ==> self.nodes@[i]
                == s.nodes@[i] && self.notes@[i] == s.notes@[i]
    }

    /// What is owed after an insertion below `n` that returned `r`.
    pub(crate) open spec fn owed(n: usize, r: Insert) -> Pending {
        match r {
            Insert::Split(_, right) => Pending::Split(n, right),
            _ => Pending::Settled,
        }
    }

    /// The contract shared by every insertion step at node `n`.
    pub(crate) open spec fn inserted(&self, s: &BTreeMap, n: usize, key: u64, value: u64, r: Insert) -> bool {
        &&& self.inv(Self::owed(n, r))
        &&& self.above_kept(s, n as int)
        &&& self.model() == s.model().insert(key, value)
        &&& s.order@.len() <= self.order@.len() <= s.order@.len() + 1
        &&& match r {
            Insert::Duplicated(v) => s.model().contains_key(key) && s.model()[key] == v,
            Insert::Done => !s.model().contains_key(key),
            Insert::Split(sep, right) => !s.model().contains_key(key) && sep == self.note(
                right as int,
            ).first,
        }
    }

    /// Puts `key` with `value` into leaf `l`, dividing the leaf if it is full.
    pub(crate) fn leaf_put(&mut self, l: usize, key: u64, value: u64) -> (r: Insert)
        requires
            old(self).inv(Pending::Settled),
            old(self).is_leaf(l as int),
            old(self).fenced(l as int, key),
            old(self).length < usize::MAX,
        ensures
            final(self).inserted(old(self), l, key, value, r),
    {
        let ghost pre = *self;
        assert(self.node_ok(l as int, Pending::Settled));
        let (found, full) = match &self.nodes[l] {
            Some(Node::Leaf(leaf)) => (
                find_slot(&leaf.data, key),
                entries_len(&leaf.data) == MAX_LEN,
            ),
            _ => (Err(0), false),
        };
        match found {
            Ok(j) => {
                let mut former: u64 = 0;
                match &mut self.nodes[l] {
                    Some(Node::Leaf(leaf)) => {
                        let e = entries_at_mut(&mut leaf.data, j);
                        former = e.1;
                        e.1 = value;
                    },
                    _ => {},
                }
                proof {
                    pre.lemma_leaf_set(self, l as int, j as int, value);
                }
                Insert::Duplicated(former)
            },
            Err(j) => {
                if !full {
                    match &mut self.nodes[l] {
                        Some(Node::Leaf(leaf)) => {
                            entries_insert(&mut leaf.data, j, (key, value));
                        },
                        _ => {},
                    }
                    self.length = self.length + 1;
                    self.keys = Ghost(self.keys@.insert(key));
                    proof {
                        pre.lemma_leaf_add(self, l as int, j as int, key, value);
                    }
                    Insert::Done
                } else {
                    let mut upper = entries_new();
                    let mut next: Option<usize> = None;
                    match &mut self.nodes[l] {
                        Some(Node::Leaf(leaf)) => {
                            if j < MIN_LEN {
                                upper = entries_split_off(&mut leaf.data, MIN_LEN - 1);
                                entries_insert(&mut leaf.data, j, (key, value));
                            } else {
                                upper = entries_split_off(&mut leaf.data, MIN_LEN);
                                entries_insert(&mut upper, j - MIN_LEN, (key, value));
                            }
                            next = leaf.right;
                        },
                        _ => {},
                    }
                    let ghost m1 = *self;
                    let r = self.store(Node::Leaf(Leaf { data: upper, left: Some(l), right: next }));
                    let ghost m2 = *self;
                    match &mut self.nodes[l] {
                        Some(Node::Leaf(leaf)) => {
                            leaf.right = Some(r);
                        },
                        _ => {},
                    }
                    proof {
                        pre.lemma_sorted(Pending::Settled);
                        let pl = pre.pos(l as int);
                        assert(pre.linked(pl));
                        if next is Some {
                            pre.lemma_order_distinct(pl, pl + 1);
                            assert(pre.linked(pl + 1));
                        }
                    }
                    if let Some(x) = next {
                        match &mut self.nodes[x] {
                            Some(Node::Leaf(nb)) => {
                                nb.left = Some(r);
                            },
                            _ => {},
                        }
                    }
                    self.length = self.length + 1;
                    self.keys = Ghost(self.keys@.insert(key));
                    self.order = Ghost(self.order@.insert(pre.pos(l as int) + 1, r));
                    self.notes = Ghost(
                        self.notes@.update(
                            l as int,
                            Note { level: 0, first: l, after: Some(r) },
                        ).update(r as int, Note { level: 0, first: r, after: next }),
                    );
                    proof {
                        let full_seq = pre.entries(l as int).insert(j as int, (key, value));
                        assert(self.entries(l as int) =~= full_seq.subrange(0, MIN_LEN as int));
                        assert(self.entries(r as int) =~= full_seq.subrange(
                            MIN_LEN as int,
                            MAX_LEN + 1,
                        ));
                        assert forall|i: int|
                            0 <= i < pre.nodes@.len() && i != l && i != r && !points(
                                pre.leaf(l as int).right,
                                i,
                            ) implies #[trigger] self.nodes@[i] == pre.nodes@[i] by {
                            assert(m2.nodes@[i] == m1.nodes@[i]);
                        }
                        assert forall|i: int|
                            0 <= i < pre.nodes@.len() && i != l && i != r implies #[trigger] self.notes@[i]
                            == pre.notes@[i] by {
                            assert(m2.notes@[i] == m1.notes@[i]);
                        }
                        pre.lemma_leaf_split(self, l as int, r as int, j as int, key, value);
                    }
                    Insert::Split(r, r)
                }
            },
        }
    }

    /// Replacing the value at position `j` of leaf `l`.
    pub(crate) proof fn lemma_leaf_set(&self, t: &BTreeMap, l: int, j: int, value: u64)
        requires
            self.inv(Pending::Settled),
            self.is_leaf(l),
            0 <= j < self.entries(l).len(),
            t.is_leaf(l),
            t.entries(l) == self.entries(l).update(j, (self.entries(l)[j].0, value)),
            t.leaf(l).left == self.leaf(l).left,
            t.leaf(l).right == self.leaf(l).right,
            t.nodes@.len() == self.nodes@.len(),
            forall|i: int| 0 <= i < t.nodes@.len() && i != l ==> t.nodes@[i] == self.nodes@[i],
            t.notes == self.notes,
            t.root == self.root,
            t.free == self.free,
            t.order == self.order,
            t.keys == self.keys,
            t.length == self.length,
        ensures
            t.inv(Pending::Settled),
            t.above_kept(self, l),
            t.model() == self.model().insert(self.entries(l)[j].0, value),
            self.model().contains_key(self.entries(l)[j].0),
            self.model()[self.entries(l)[j].0] == self.entries(l)[j].1,
    {
        let s = self;
        let pend = Pending::Settled;
        let key = s.entries(l)[j].0;
        assert(s.node_ok(l, pend));
        s.lemma_tree_kept(t, pend);
        assert(forall|i: int| i != l ==> #[trigger] t.own(i) == s.own(i));
        assert(t.lo(l) == s.lo(l) && t.hi(l) == s.hi(l));
        assert forall|p: int, q: int| 0 <= p < q < t.order@.len() implies #[trigger] t.before(
            p,
            q,
        ) by {
            assert(s.before(p, q));
        }
        assert forall|p: int| 0 <= p < t.order@.len() implies #[trigger] t.linked(p) by {
            assert(s.linked(p));
        }
        assert forall|i: int| #[trigger] t.is_leaf(i) implies 0 <= t.pos(i) < t.order@.len()
            && t.order@[t.pos(i)] == i by {
            assert(s.is_leaf(i));
        }
        assert forall|i: int| #[trigger] t.live(i) implies t.node_ok(i, pend) by {
            assert(s.live(i));
        }
        assert(t.sorted()) by {
            assert forall|i: int| #[trigger] t.is_leaf(i) implies ascending(t.entries(i)) by {
                assert(t.live(i));
            }
        }
        assert(s.sorted()) by {
            assert forall|i: int| #[trigger] s.is_leaf(i) implies ascending(s.entries(i)) by {
                assert(s.live(i));
            }
        }
        let e0 = s.entries(l)[j];
        let e1 = (key, value);
        assert(s.holds(l, j, e0));
        s.lemma_value_of(e0);
        s.lemma_rest_same(t, l, l);
        assert forall|e: (u64, u64)| #[trigger]
            t.carries(e) <==> (e.1 == value && e.0 == key) || (s.carries(e) && e.0 != key) by {
            s.lemma_carry_cat(l, l, e);
            t.lemma_carry_cat(l, l, e);
            if t.cat(l, l).contains(e) {
                let x = choose|x: int| 0 <= x < t.cat(l, l).len() && t.cat(l, l)[x] == e;
                if x != j {
                    assert(s.cat(l, l)[x] == e);
                }
            }
            if s.cat(l, l).contains(e) && e.0 != key {
                let x = choose|x: int| 0 <= x < s.cat(l, l).len() && s.cat(l, l)[x] == e;
                assert(t.cat(l, l)[x] == e);
            }
            if e == e1 {
                assert(t.cat(l, l)[j] == e);
            }
            if s.rest(l, l, e) && e.0 == key {
                let (i, jj) = choose|i: int, jj: int| #[trigger] s.holds(i, jj, e) && i != l && i != l;
                s.lemma_single(i, jj, l, j);
            }
        }
        assert(t.keys@ =~= s.keys@.insert(key));
        s.lemma_model_step(t, key, Some(value));
    }

    /// Adding a new entry at position `j` of leaf `l`, which has room.
    pub(crate) proof fn lemma_leaf_add(&self, t: &BTreeMap, l: int, j: int, key: u64, value: u64)
        requires
            self.inv(Pending::Settled),
            self.is_leaf(l),
            self.fenced(l, key),
            self.entries(l).len() < MAX_LEN,
            0 <= j <= self.entries(l).len(),
            forall|x: int| 0 <= x < j ==> self.entries(l)[x].0 < key,
            forall|x: int| j <= x < self.entries(l).len() ==> key < self.entries(l)[x].0,
            t.is_leaf(l),
            t.entries(l) == self.entries(l).insert(j, (key, value)),
            t.leaf(l).left == self.leaf(l).left,
            t.leaf(l).right == self.leaf(l).right,
            t.nodes@.len() == self.nodes@.len(),
            forall|i: int| 0 <= i < t.nodes@.len() && i != l ==> t.nodes@[i] == self.nodes@[i],
            t.notes == self.notes,
            t.root == self.root,
            t.free == self.free,
            t.order == self.order,
            t.keys@ == self.keys@.insert(key),
            t.length == self.length + 1,
        ensures
            t.inv(Pending::Settled),
            t.above_kept(self, l),
            t.model() == self.model().insert(key, value),
            !self.model().contains_key(key),
    {
        let s = self;
        let pend = Pending::Settled;
        assert(s.node_ok(l, pend));
        s.lemma_absent(l, key);
        s.lemma_tree_kept(t, pend);
        lemma_ascending_insert(s.entries(l), j, (key, value));
        assert(forall|i: int| i != l ==> #[trigger] t.own(i) == s.own(i));
        let pl = s.pos(l);
        assert(s.linked(pl));
        assert forall|p: int, q: int| 0 <= p < q < t.order@.len() implies #[trigger] t.before(
            p,
            q,
        ) by {
            assert(s.before(p, q));
            s.lemma_fence_order(l, key, p, q);
            if p == pl {
                assert(t.hi(l) == key || t.hi(l) == s.hi(l));
            }
            if q == pl {
                assert(t.lo(l) == key || t.lo(l) == s.lo(l));
            }
        }
        assert forall|p: int| 0 <= p < t.order@.len() implies #[trigger] t.linked(p) by {
            assert(s.linked(p));
        }
        assert forall|i: int| #[trigger] t.is_leaf(i) implies 0 <= t.pos(i) < t.order@.len()
            && t.order@[t.pos(i)] == i by {
            assert(s.is_leaf(i));
        }
        assert forall|i: int| #[trigger] t.live(i) implies t.node_ok(i, pend) by {
            assert(s.live(i));
        }
        assert(t.sorted()) by {
            assert forall|i: int| #[trigger] t.is_leaf(i) implies ascending(t.entries(i)) by {
                assert(t.live(i));
            }
        }
        s.lemma_sorted(Pending::Settled);
        s.lemma_put_step(t, l, l, j, (key, value));
    }

    /// `t` is `self` after the full leaf `l` was divided around a new entry that
    /// belongs at position `j`; `r` is the new leaf that took the upper half.
    pub(crate) open spec fn leaf_split(
        &self,
        t: &BTreeMap,
        l: int,
        r: int,
        j: int,
        key: u64,
        value: u64,
    ) -> bool {
        &&& (self.inv(Pending::Settled))
        &&& (self.is_leaf(l))
        &&& (self.fenced(l, key))
        &&& (self.entries(l).len() == MAX_LEN)
        &&& (0 <= j <= MAX_LEN)
        &&& (forall|x: int| 0 <= x < j ==> self.entries(l)[x].0 < key)
        &&& (forall|x: int| j <= x < self.entries(l).len() ==> key < self.entries(l)[x].0)
        &&& (!self.live(r))
        &&& (0 <= r < t.nodes@.len())
        &&& (r <= usize::MAX)
        &&& (l <= usize::MAX)
        &&& (t.notes@.len() == t.nodes@.len())
        &&& (self.nodes@.len() <= t.nodes@.len() <= self.nodes@.len() + 1)
        &&& (t.nodes@.len() > self.nodes@.len() ==> r == self.nodes@.len())
        &&& (t.is_leaf(l))
        &&& (t.is_leaf(r))
        &&& (t.entries(l) == self.entries(l).insert(j, (key, value)).subrange(0, MIN_LEN as int))
        &&& (t.entries(r) == self.entries(l).insert(j, (key, value)).subrange(
            MIN_LEN as int,
            MAX_LEN + 1,
        ))
        &&& (t.leaf(l).left == self.leaf(l).left)
        &&& (t.leaf(l).right == Some(r as usize))
        &&& (t.leaf(r).left == Some(l as usize))
        &&& (t.leaf(r).right == self.leaf(l).right)
        &&& (self.leaf(l).right matches Some(x) ==> t.is_leaf(x as int) && t.entries(x as int)
            == self.entries(x as int) && t.leaf(x as int).left == Some(r as usize) && t.leaf(
            x as int,
        ).right == self.leaf(x as int).right)
        &&& (forall|i: int|
                0 <= i < self.nodes@.len() && i != l && i != r && !points(self.leaf(l).right, i)
                    ==> #[trigger] t.nodes@[i] == self.nodes@[i])
        &&& (forall|i: int|
                0 <= i < self.nodes@.len() && i != l && i != r ==> #[trigger] t.notes@[i]
                    == self.notes@[i])
        &&& (t.note(l) == (Note { level: 0, first: l as usize, after: Some(r as usize) }))
        &&& (t.note(r) == (Note { level: 0, first: r as usize, after: self.leaf(l).right }))
        &&& (t.order@ == self.order@.insert(self.pos(l) + 1, r as usize))
        &&& (t.keys@ == self.keys@.insert(key))
        &&& (t.length == self.length + 1)
        &&& (t.root == self.root)
        &&& (t.free_ok())
    }

    /// After the division of a leaf every node and every child position is in
    /// order, up to the new leaf not having a parent yet.
    pub(crate) proof fn lemma_leaf_split_tree(
        &self,
        t: &BTreeMap,
        l: int,
        r: int,
        j: int,
        key: u64,
        value: u64,
    )
        requires
            self.leaf_split(t, l, r, j, key, value),
        ensures
            forall|i: int| #[trigger] self.live(i) ==> t.live(i) && (self.is_leaf(i) == t.is_leaf(i)),
            forall|i: int| #[trigger] t.live(i) && i != r ==> self.live(i),
            forall|i: int, jj: int| #[trigger] t.slot(i, jj) ==> t.kid_ok(i, jj, Pending::Split(l as usize, r as usize)),
            forall|i1: int, j1: int, i2: int, j2: int| #[trigger]
                t.clash(i1, j1, i2, j2) ==> i1 == i2 && j1 == j2,
            forall|i: int| #[trigger] t.live(i) ==> t.node_ok(i, Pending::Split(l as usize, r as usize)),
            t.root_ok(Pending::Split(l as usize, r as usize)),
            t.pend_ok(Pending::Split(l as usize, r as usize)),
            t.above_kept(self, l),
    {
        let s = self;
        let pend = Pending::Split(l as usize, r as usize);
        let full = s.entries(l).insert(j, (key, value));
        let pl = s.pos(l);
        let nx = s.leaf(l).right;
        assert(s.node_ok(l, Pending::Settled));
        s.lemma_absent(l, key);
        s.lemma_sorted(Pending::Settled);
        lemma_ascending_insert(s.entries(l), j, (key, value));
        assert(s.linked(pl));
        if nx is Some {
            s.lemma_order_distinct(pl, pl + 1);
            assert(s.linked(pl + 1));
        }
        assert forall|i: int| #[trigger] s.live(i) implies t.live(i) && (s.is_leaf(i) == t.is_leaf(
            i,
        )) by {
            if i != l && !points(nx, i) {
                assert(t.nodes@[i] == s.nodes@[i]);
            }
        }
        assert forall|i: int| #[trigger] t.live(i) && i != r implies s.live(i) by {
            if i != l && !points(nx, i) {
                assert(t.nodes@[i] == s.nodes@[i]);
            }
        }
        assert forall|i: int| #[trigger] t.is_intra(i) implies s.is_intra(i) && t.nodes@[i]
            == s.nodes@[i] && t.notes@[i] == s.notes@[i] by {
            assert(t.live(i) && i != r);
            assert(i != l && !points(nx, i));
        }
        // the tree above the leaves
        assert forall|i: int, jj: int| #[trigger] t.slot(i, jj) implies t.kid_ok(i, jj, pend)
            && s.slot(i, jj) && t.kid(i, jj) == s.kid(i, jj) && t.kid(i, jj) != r by {
            assert(t.is_intra(i));
            assert(s.slot(i, jj));
            assert(s.kid_ok(i, jj, Pending::Settled));
            let c = s.kid(i, jj) as int;
            assert(s.live(c));
            if jj < s.links(i).len() {
                assert(s.slot(i, jj + 1));
                assert(s.kid_ok(i, jj + 1, Pending::Settled));
                assert(s.live(s.kid(i, jj + 1) as int));
                assert(s.live(s.sep(i, jj) as int));
            }
        }
        assert forall|i1: int, j1: int, i2: int, j2: int| #[trigger]
            t.clash(i1, j1, i2, j2) implies i1 == i2 && j1 == j2 by {
            assert(t.slot(i1, j1) && t.slot(i2, j2));
            assert(s.clash(i1, j1, i2, j2));
        }
        assert(full.subrange(0, MIN_LEN as int).len() == MIN_LEN);
        assert(full.subrange(MIN_LEN as int, MAX_LEN + 1).len() == MIN_LEN);
        assert(ascending(t.entries(l)));
        assert(ascending(t.entries(r)));
        assert forall|i: int| #[trigger] t.live(i) implies t.node_ok(i, pend) by {
            if i != r {
                assert(s.live(i));
                assert(s.node_ok(i, Pending::Settled));
            }
        }
        assert(t.root_ok(pend)) by {
            let rt = s.root->0 as int;
            assert(s.live(rt));
            s.order@.insert_ensures(pl + 1, r as usize);
        }
        assert(t.pend_ok(pend));
    }

    /// After the division of a leaf the ring is in order.
    pub(crate) proof fn lemma_leaf_split_ring(
        &self,
        t: &BTreeMap,
        l: int,
        r: int,
        j: int,
        key: u64,
        value: u64,
    )
        requires
            self.leaf_split(t, l, r, j, key, value),
            forall|i: int| #[trigger] self.live(i) ==> t.live(i) && (self.is_leaf(i) == t.is_leaf(i)),
            forall|i: int| #[trigger] t.live(i) && i != r ==> self.live(i),
        ensures
            t.ring_ok(),
    {
        let s = self;
        let pend = Pending::Split(l as usize, r as usize);
        let full = s.entries(l).insert(j, (key, value));
        let pl = s.pos(l);
        let nx = s.leaf(l).right;
        assert(s.node_ok(l, Pending::Settled));
        s.lemma_absent(l, key);
        s.lemma_sorted(Pending::Settled);
        lemma_ascending_insert(s.entries(l), j, (key, value));
        assert(s.linked(pl));
        if nx is Some {
            s.lemma_order_distinct(pl, pl + 1);
            assert(s.linked(pl + 1));
        }
        assert forall|i: int| #[trigger] s.live(i) implies t.live(i) && (s.is_leaf(i) == t.is_leaf(
            i,
        )) by {
            if i != l && !points(nx, i) {
                assert(t.nodes@[i] == s.nodes@[i]);
            }
        }
        assert forall|i: int| #[trigger] t.live(i) && i != r implies s.live(i) by {
            if i != l && !points(nx, i) {
                assert(t.nodes@[i] == s.nodes@[i]);
            }
        }
        assert forall|i: int| #[trigger] t.is_intra(i) implies s.is_intra(i) && t.nodes@[i]
            == s.nodes@[i] && t.notes@[i] == s.notes@[i] by {
            assert(t.live(i) && i != r);
            assert(i != l && !points(nx, i));
        }
        assert(full.subrange(0, MIN_LEN as int).len() == MIN_LEN);
        assert(full.subrange(MIN_LEN as int, MAX_LEN + 1).len() == MIN_LEN);
        // the ring
        s.order@.insert_ensures(pl + 1, r as usize);
        assert forall|p: int| 0 <= p < t.order@.len() implies #[trigger] t.linked(p) by {
            if p <= pl {
                assert(s.linked(p));
                if p < pl {
                    s.lemma_order_distinct(p, pl);
                    if nx is Some {
                        s.lemma_order_distinct(p, pl + 1);
                    }
                }
            } else if p == pl + 1 {
            } else {
                assert(s.linked(p - 1));
                s.lemma_order_distinct(pl, p - 1);
                if p - 1 > pl + 1 {
                    s.lemma_order_distinct(pl + 1, p - 1);
                }
            }
        }
        assert forall|i: int| #[trigger] t.is_leaf(i) implies 0 <= t.pos(i) < t.order@.len()
            && t.order@[t.pos(i)] == i by {
            if i == r {
                assert(t.order@[pl + 1] == i);
            } else {
                assert(t.live(i));
                assert(s.is_leaf(i));
                let q = s.pos(i);
                if q <= pl {
                    assert(t.order@[q] == i);
                } else {
                    assert(t.order@[q + 1] == i);
                }
            }
        }
        assert forall|p: int, q: int| 0 <= p < q < t.order@.len() implies #[trigger] t.before(
            p,
            q,
        ) by {
            let p0 = if p <= pl { p } else { p - 1 };
            let q0 = if q <= pl { q } else { q - 1 };
            if p0 < q0 {
                assert(s.before(p0, q0));
                s.lemma_fence_order(l, key, p0, q0);
                s.lemma_order_distinct(p0, q0);
            }
            assert(t.entries(l)[0] == full[0]);
            assert(t.entries(l).last() == full[MIN_LEN - 1]);
            assert(t.entries(r)[0] == full[MIN_LEN as int]);
            assert(t.entries(r).last() == full[MAX_LEN as int]);
            assert(forall|k: int|
                0 <= k < full.len() ==> (#[trigger] full[k]).0 == key || (s.lo(l) <= full[k].0
                    <= s.hi(l))) by {
                assert forall|k: int| 0 <= k < full.len() implies (#[trigger] full[k]).0 == key || (
                s.lo(l) <= full[k].0 <= s.hi(l)) by {
                    if k < j {
                        assert(full[k] == s.entries(l)[k]);
                    } else if k > j {
                        assert(full[k] == s.entries(l)[k - 1]);
                    }
                }
            }
            if p != pl && p != pl + 1 {
                assert(t.order@[p] == s.order@[p0]);
                assert(s.linked(p0));
                if p0 != pl + 1 {
                    s.lemma_far(pl, p0);
                    assert(t.nodes@[s.order@[p0] as int] == s.nodes@[s.order@[p0] as int]);
                }
            }
            if q != pl && q != pl + 1 {
                assert(t.order@[q] == s.order@[q0]);
                assert(s.linked(q0));
                if q0 != pl + 1 {
                    s.lemma_far(pl, q0);
                    assert(t.nodes@[s.order@[q0] as int] == s.nodes@[s.order@[q0] as int]);
                }
            }
        }
    }

    /// Dividing the full leaf `l` around a new entry that belongs at position `j`;
    /// `r` is the new leaf that takes the upper half.
    pub(crate) proof fn lemma_leaf_split(
        &self,
        t: &BTreeMap,
        l: int,
        r: int,
        j: int,
        key: u64,
        value: u64,
    )
        requires
            self.leaf_split(t, l, r, j, key, value),
        ensures
            t.inv(Pending::Split(l as usize, r as usize)),
            t.above_kept(self, l),
            t.model() == self.model().insert(key, value),
            !self.model().contains_key(key),
    {
        let s = self;
        let pend = Pending::Split(l as usize, r as usize);
        let full = s.entries(l).insert(j, (key, value));
        let pl = s.pos(l);
        let nx = s.leaf(l).right;
        assert(s.node_ok(l, Pending::Settled));
        s.lemma_absent(l, key);
        s.lemma_sorted(Pending::Settled);
        lemma_ascending_insert(s.entries(l), j, (key, value));
        assert(s.linked(pl));
        if nx is Some {
            s.lemma_order_distinct(pl, pl + 1);
            assert(s.linked(pl + 1));
        }
        assert forall|i: int| #[trigger] s.live(i) implies t.live(i) && (s.is_leaf(i) == t.is_leaf(
            i,
        )) by {
            if i != l && !points(nx, i) {
                assert(t.nodes@[i] == s.nodes@[i]);
            }
        }
        assert forall|i: int| #[trigger] t.live(i) && i != r implies s.live(i) by {
            if i != l && !points(nx, i) {
                assert(t.nodes@[i] == s.nodes@[i]);
            }
        }
        assert forall|i: int| #[trigger] t.is_intra(i) implies s.is_intra(i) && t.nodes@[i]
            == s.nodes@[i] && t.notes@[i] == s.notes@[i] by {
            assert(t.live(i) && i != r);
            assert(i != l && !points(nx, i));
        }
        self.lemma_leaf_split_tree(t, l, r, j, key, value);
        self.lemma_leaf_split_ring(t, l, r, j, key, value);
        assert(t.sorted()) by {
            assert forall|i: int| #[trigger] t.is_leaf(i) implies ascending(t.entries(i)) by {
                assert(t.live(i));
            }
        }
        // the contents
        assert forall|i: int| i != l && i != r implies #[trigger] t.own(i) == s.own(i) by {
            if 0 <= i < t.nodes@.len() && !points(nx, i) {
                assert(t.nodes@[i] == s.nodes@[i]);
            }
            if 0 <= i < s.nodes@.len() && s.live(i) {
                assert(t.live(i));
            }
        }
        assert(s.cat(l, r) =~= s.entries(l));
        assert(t.cat(l, r) =~= full);
        s.lemma_put_step(t, l, r, j, (key, value));
    }
}

} // verus!
