//! Read-only descent: routing through internal nodes and searching a leaf.

use crate::laws::lookup;
use crate::map::{ascending, BTreeMap};
use crate::node::{Node, Pending};
use crate::slots::{
    entries_at, entries_at_mut, entries_len, entries_of, links_at, links_len, MAX_LEN,
};
use arrayvec::ArrayVec;
use vstd::prelude::*;

verus! {

/// Binary search for `key` among sorted entries: `Ok` with its index, or `Err` with
/// the index at which it would have to be inserted.
pub(crate) fn find_slot(data: &ArrayVec<(u64, u64), MAX_LEN>, key: u64) -> (r: Result<usize, usize>)
    requires
        ascending(entries_of(*data)),
    ensures
        match r {
            Ok(j) => j < entries_of(*data).len() && entries_of(*data)[j as int].0 == key,
            Err(j) => {
                &&& j <= entries_of(*data).len()
                &&& forall|x: int| 0 <= x < j ==> entries_of(*data)[x].0 < key
                &&& forall|x: int| j <= x < entries_of(*data).len() ==> key < entries_of(*data)[x].0
            },
        },
{
    let mut low: usize = 0;
    let mut high: usize = entries_len(data);
    while low < high
        invariant
            low <= high <= entries_of(*data).len(),
            ascending(entries_of(*data)),
            forall|x: int| 0 <= x < low ==> entries_of(*data)[x].0 < key,
            forall|x: int| high <= x < entries_of(*data).len() ==> key < entries_of(*data)[x].0,
        decreases high - low,
    {
        let mid: usize = low + (high - low) / 2;
        let k: u64 = entries_at(data, mid).0;
        if k == key {
            return Ok(mid);
        } else if k < key {
            low = mid + 1;
        } else {
            high = mid;
        }
    }
    Err(low)
}

impl BTreeMap {
    /// `key` belongs below node `i`: it is not less than the first key below `i`
    /// unless `i` starts at the first leaf of all, and it is less than the first key
    /// that follows `i`.
    pub(crate) open spec fn fenced(&self, i: int, key: u64) -> bool {
        let f = self.note(i).first as int;
        &&& (self.order@.len() > 0 && f == self.order@[0]) || (self.is_leaf(f) && self.count(f) >= 1
            && self.lo(f) <= key)
        &&& self.note(i).after matches Some(a) ==> self.is_leaf(a as int) && self.count(a as int)
            >= 1 && key < self.lo(a as int)
    }

    /// First key of leaf `s`.
    pub(crate) fn first_key(&self, s: usize) -> (k: u64)
        requires
            self.is_leaf(s as int),
            self.count(s as int) >= 1,
        ensures
            k == self.lo(s as int),
    {
        match &self.nodes[s] {
            Some(Node::Leaf(l)) => entries_at(&l.data, 0).0,
            _ => 0,
        }
    }

    /// The child of internal node `i` under which `key` belongs: the first one
    /// whose separator's first key exceeds `key`, else the trailing child.
    pub(crate) fn route(&self, i: usize, key: u64) -> (r: (usize, usize))
        requires
            self.inv(Pending::Settled),
            self.is_intra(i as int),
        ensures
            self.slot(i as int, r.0 as int),
            r.1 == self.kid(i as int, r.0 as int),
            r.0 < self.links(i as int).len() ==> key < self.lo(self.sep(i as int, r.0 as int) as int),
            r.0 > 0 ==> self.lo(self.sep(i as int, r.0 - 1) as int) <= key,
    {
        match &self.nodes[i] {
            Some(Node::Intra(n)) => {
                let len = links_len(&n.heads);
                let mut j: usize = 0;
                while j < len
                    invariant
                        self.inv(Pending::Settled),
                        self.is_intra(i as int),
                        self.nodes@[i as int] == Some(Node::Intra(*n)),
                        len == self.links(i as int).len(),
                        j <= len,
                        j > 0 ==> self.lo(self.sep(i as int, j - 1) as int) <= key,
                    decreases len - j,
                {
                    let pair = links_at(&n.heads, j);
                    assert(self.slot(i as int, j as int));
                    let k = self.first_key(pair.1);
                    if k > key {
                        return (j, pair.0);
                    }
                    j += 1;
                }
                (len, n.tail)
            },
            _ => (0, 0),
        }
    }

    /// The leaf in which `key` is stored if it is stored at all.
    pub(crate) fn descend(&self, key: u64) -> (l: usize)
        requires
            self.inv(Pending::Settled),
            self.root is Some,
        ensures
            self.is_leaf(l as int),
            self.fenced(l as int, key),
    {
        let mut cur = self.root.unwrap();
        loop
            invariant
                self.inv(Pending::Settled),
                self.live(cur as int),
                self.fenced(cur as int, key),
            decreases self.note(cur as int).level,
        {
            match &self.nodes[cur] {
                Some(Node::Intra(_)) => {
                    let (j, c) = self.route(cur, key);
                    proof {
                        assert(self.kid_ok(cur as int, j as int, Pending::Settled));
                        if j > 0 {
                            assert(self.slot(cur as int, j - 1));
                        }
                        assert(self.slot(cur as int, 0));
                    }
                    cur = c;
                },
                _ => {
                    return cur;
                },
            }
        }
    }

    /// A reference to the value stored for `key`, if the key is present.
    pub fn get(&self, key: &u64) -> (r: Option<&u64>)
        requires
            self.wf(),
        ensures
            match r {
                Some(v) => lookup(self@, *key) == Some(*v),
                None => lookup(self@, *key) is None,
            },
    {
        proof {
            self.wf_unfold();
        }
        if self.root.is_none() {
            proof {
                if self.keys@.contains(*key) {
                    let v = choose|v: u64| self.carries((*key, v));
                    assert(self.carries((*key, v)));
                }
            }
            return None;
        }
        let l = self.descend(*key);
        match &self.nodes[l] {
            Some(Node::Leaf(leaf)) => {
                assert(self.node_ok(l as int, Pending::Settled));
                match find_slot(&leaf.data, *key) {
                    Ok(j) => {
                        let e = entries_at(&leaf.data, j);
                        proof {
                            assert(self.holds(l as int, j as int, *e));
                            self.lemma_value_of(*e);
                        }
                        Some(&e.1)
                    },
                    Err(_) => {
                        proof {
                            if self.keys@.contains(*key) {
                                let v = choose|v: u64| self.carries((*key, v));
                                let (i, j) = choose|i: int, j: int| self.holds(i, j, (*key, v));
                                self.lemma_home(l as int, *key, i, j, (*key, v));
                            }
                        }
                        None
                    },
                }
            },
            _ => None,
        }
    }

    /// `t` is `self` with another value at position `j` of leaf `l`.
    pub(crate) open spec fn value_set(&self, t: &BTreeMap, l: int, j: int) -> bool {
        &&& t.is_leaf(l)
        &&& t.entries(l) == self.entries(l).update(j, (self.entries(l)[j].0, t.entries(l)[j].1))
        &&& t.leaf(l).left == self.leaf(l).left
        &&& t.leaf(l).right == self.leaf(l).right
        &&& t.nodes@.len() == self.nodes@.len()
        &&& forall|i: int| 0 <= i < t.nodes@.len() && i != l ==> t.nodes@[i] == self.nodes@[i]
        &&& t.notes == self.notes
        &&& t.root == self.root
        &&& t.free == self.free
        &&& t.order == self.order
        &&& t.keys == self.keys
        &&& t.length == self.length
    }

    /// A mutable reference to the value stored for `key`, if the key is present.
    /// Whatever is written through it becomes the value of `key`.
    pub fn get_mut(&mut self, key: &u64) -> (r: Option<&mut u64>)
        requires
            old(self).wf(),
        ensures
            final(self).wf(),
            final(self).balanced(),
            match r {
                Some(v) => old(self)@.contains_key(*key) && *v == old(self)@[*key] && final(self)@
                    == old(self)@.insert(*key, *final(v)),
                None => !old(self)@.contains_key(*key) && final(self)@ == old(self)@,
            },
    {
        proof {
            self.view_unfold();
        }
        let ghost pre = *self;
        if self.root.is_none() {
            proof {
                if self.keys@.contains(*key) {
                    let v = choose|v: u64| self.carries((*key, v));
                    assert(self.carries((*key, v)));
                }
                self.lemma_wf_balanced();
            }
            return None;
        }
        let l = self.descend(*key);
        proof {
            assert(self.live(l as int));
            assert(self.node_ok(l as int, Pending::Settled));
        }
        let found = match &self.nodes[l] {
            Some(Node::Leaf(leaf)) => find_slot(&leaf.data, *key),
            _ => Err(0),
        };
        match found {
            Ok(j) => {
                proof {
                    assert forall|t: BTreeMap|
                        #![trigger t.wf()]
                        #![trigger t.balanced()]
                        #![trigger t@]
                        pre.value_set(&t, l as int, j as int) implies t.wf() && t.balanced() && t@
                        == pre@.insert(*key, t.entries(l as int)[j as int].1) by {
                        pre.lemma_leaf_set(&t, l as int, j as int, t.entries(l as int)[j as int].1);
                        t.view_unfold();
                        t.lemma_wf_balanced();
                    }
                    assert(pre.holds(l as int, j as int, pre.entries(l as int)[j as int]));
                    pre.lemma_value_of(pre.entries(l as int)[j as int]);
                }
                match &mut self.nodes[l] {
                    Some(Node::Leaf(leaf)) => {
                        let e = entries_at_mut(&mut leaf.data, j);
                        Some(&mut e.1)
                    },
                    _ => None,
                }
            },
            Err(_) => {
                proof {
                    self.lemma_absent(l as int, *key);
                    self.lemma_wf_balanced();
                }
                None
            },
        }
    }
}

} // verus!
