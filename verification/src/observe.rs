//! Reading the structure: occupancy, height, and a walk along the leaf ring.

use crate::map::{ascending, BTreeMap};
use crate::node::{Node, Pending};
use crate::slots::{entries_at, entries_len, MAX_LEN, MIN_LEN};
use vstd::prelude::*;

verus! {

impl BTreeMap {
    /// Whether every node is within its occupancy bounds.
    pub fn is_balanced(&self) -> (b: bool)
        ensures
            b == self.balanced(),
    {
        proof {
            self.wf_unfold();
        }
        let n = self.nodes.len();
        let mut i: usize = 0;
        while i < n
            invariant
                i <= n,
                n == self.nodes@.len(),
                forall|x: int| 0 <= x < i && #[trigger] self.live(x) ==> self.fits(x),
            decreases n - i,
        {
            let here = match &self.nodes[i] {
                Some(_) => true,
                None => false,
            };
            if here {
                let c = self.count_at(i);
                let least: usize = match self.root {
                    Some(r) => if r == i {
                        if self.leaf_at(i) {
                            0
                        } else {
                            2
                        }
                    } else {
                        MIN_LEN
                    },
                    None => MIN_LEN,
                };
                if c < least || c > MAX_LEN {
                    proof {
                        self.wf_unfold();
                        assert(self.live(i as int));
                        assert(!self.fits(i as int));
                    }
                    return false;
                }
            }
            i += 1;
        }
        proof {
            self.wf_unfold();
        }
        true
    }

    /// The leftmost leaf.
    pub(crate) fn first_leaf(&self) -> (r: (usize, usize))
        requires
            self.inv(Pending::Settled),
            self.root is Some,
        ensures
            self.is_leaf(r.0 as int),
            self.order@.len() >= 1,
            r.0 == self.order@[0],
            r.1 == self.levels(),
    {
        let mut cur = self.root.unwrap();
        let mut h: usize = 1;
        proof {
            assert(self.live(cur as int));
        }
        loop
            invariant
                self.inv(Pending::Settled),
                self.root is Some,
                self.live(cur as int),
                self.note(cur as int).first == self.order@[0],
                self.order@.len() >= 1,
                h >= 1,
                h + self.note(cur as int).level == self.levels(),
            decreases self.note(cur as int).level,
        {
            proof {
                assert(self.node_ok(cur as int, Pending::Settled));
            }
            if self.leaf_at(cur) {
                return (cur, h);
            }
            proof {
                assert(self.slot(cur as int, 0));
                assert(self.kid_ok(cur as int, 0, Pending::Settled));
            }
            cur = self.kid_at(cur, 0);
            proof {
                self.lemma_level_bound(self.root->0 as int);
            }
            h = h + 1;
        }
    }

    /// A node at level `k` heads a leftmost path of `k + 1` occupied slots, so
    /// `k` is less than the size of the arena.
    pub(crate) proof fn lemma_level_bound(&self, i: int)
        requires
            self.inv(Pending::Settled),
            self.live(i),
        ensures
            self.note(i).level < self.nodes@.len(),
            self.nodes@.len() <= usize::MAX,
    {
        let k = self.note(i).level;
        self.lemma_left_path(i, k);
        vstd::set_lib::lemma_int_range(0, self.nodes@.len() as int);
        let all = vstd::set_lib::set_int_range(0, self.nodes@.len() as int);
        vstd::set_lib::lemma_len_subset(self.left_path(i, k), all);
        assert(self.nodes@.len() == self.nodes.len());
    }

    /// The nodes on the leftmost path of `k + 1` nodes that starts at `i`.
    pub(crate) open spec fn left_path(&self, i: int, k: nat) -> Set<int>
        decreases k,
    {
        if k == 0 {
            Set::empty().insert(i)
        } else {
            self.left_path(self.kid(i, 0) as int, (k - 1) as nat).insert(i)
        }
    }

    /// The leftmost path below a node at level `k` has `k + 1` nodes, all of them
    /// occupied slots at levels up to `k`.
    pub(crate) proof fn lemma_left_path(&self, i: int, k: nat)
        requires
            self.inv(Pending::Settled),
            self.live(i),
            k == self.note(i).level,
        ensures
            self.left_path(i, k).finite(),
            self.left_path(i, k).len() == k + 1,
            forall|x: int|
                self.left_path(i, k).contains(x) ==> 0 <= x < self.nodes@.len() && self.note(
                    x,
                ).level <= k,
        decreases k,
    {
        assert(self.node_ok(i, Pending::Settled));
        if k > 0 {
            assert(self.is_intra(i));
            assert(self.slot(i, 0));
            assert(self.kid_ok(i, 0, Pending::Settled));
            let c = self.kid(i, 0) as int;
            self.lemma_left_path(c, (k - 1) as nat);
            assert(!self.left_path(c, (k - 1) as nat).contains(i));
        }
    }

    /// Number of node levels from the root down to the leaves.
    pub fn height(&self) -> (h: usize)
        requires
            self.wf(),
        ensures
            h == self.depth(),
    {
        proof {
            self.wf_unfold();
        }
        if self.root.is_none() {
            return 0;
        }
        self.first_leaf().1
    }

    /// The entries in key order, read by walking the leaf ring from its first leaf
    /// to its last.
    pub fn to_vec(&self) -> (v: Vec<(u64, u64)>)
        requires
            self.wf(),
        ensures
            v@ == self.ring(),
            ascending(v@),
            v@.len() == self@.len(),
            forall|k: u64, w: u64| #[trigger] v@.contains((k, w)) <==> self@.contains_pair(k, w),
    {
        proof {
            self.wf_unfold();
            self.law_ring_sorted();
            self.law_ring_complete();
            self.law_ring_len();
        }
        let mut out: Vec<(u64, u64)> = Vec::new();
        if self.root.is_none() {
            proof {
                assert(self.ring_upto(0) =~= Seq::<(u64, u64)>::empty());
            }
            return out;
        }
        let mut cur = self.first_leaf().0;
        let ghost mut p: int = 0;
        proof {
            assert(self.ring_upto(0) =~= Seq::<(u64, u64)>::empty());
        }
        loop
            invariant_except_break
                out@ == self.ring_upto(p),
            invariant
                self.inv(Pending::Settled),
                0 <= p < self.order@.len(),
                cur == self.order@[p],
            ensures
                out@ == self.ring_upto(self.order@.len() as int),
            decreases self.order@.len() - p,
        {
            proof {
                assert(self.linked(p));
            }
            let mut next: Option<usize> = None;
            match &self.nodes[cur] {
                Some(Node::Leaf(leaf)) => {
                    let n = entries_len(&leaf.data);
                    let mut j: usize = 0;
                    while j < n
                        invariant
                            j <= n,
                            n == self.entries(cur as int).len(),
                            self.nodes@[cur as int] == Some(Node::Leaf(*leaf)),
                            0 <= cur < self.nodes@.len(),
                            out@ == self.ring_upto(p) + self.entries(cur as int).subrange(
                                0,
                                j as int,
                            ),
                        decreases n - j,
                    {
                        out.push(*entries_at(&leaf.data, j));
                        assert(out@ =~= self.ring_upto(p) + self.entries(cur as int).subrange(
                            0,
                            j + 1,
                        ));
                        j += 1;
                    }
                    proof {
                        assert(self.entries(cur as int).subrange(0, n as int) =~= self.entries(
                            cur as int,
                        ));
                    }
                    next = leaf.right;
                },
                _ => {},
            }
            proof {
                assert(out@ == self.ring_upto(p + 1));
            }
            match next {
                Some(x) => {
                    cur = x;
                    proof {
                        p = p + 1;
                    }
                },
                None => {
                    break ;
                },
            }
        }
        out
    }

    /// Number of leaves, counted by walking the ring.
    pub fn leaf_count(&self) -> (n: usize)
        requires
            self.wf(),
        ensures
            n == self.leaves(),
            self@.len() <= MAX_LEN * n,
            n >= 2 ==> MIN_LEN * n <= self@.len(),
    {
        proof {
            self.wf_unfold();
            self.law_leaf_fill();
        }
        if self.root.is_none() {
            return 0;
        }
        let mut cur = self.first_leaf().0;
        let mut n: usize = 1;
        proof {
            self.lemma_sorted(Pending::Settled);
        }
        loop
            invariant
                self.inv(Pending::Settled),
                self.sorted(),
                1 <= n <= self.order@.len(),
                cur == self.order@[n - 1],
            ensures
                n == self.order@.len(),
            decreases self.order@.len() - n,
        {
            proof {
                assert(self.linked(n - 1));
                self.lemma_ring_fits();
            }
            let next = match &self.nodes[cur] {
                Some(Node::Leaf(leaf)) => leaf.right,
                _ => None,
            };
            match next {
                Some(x) => {
                    cur = x;
                    n = n + 1;
                },
                None => {
                    break ;
                },
            }
        }
        n
    }

    /// The ring has no more leaves than the arena has slots.
    pub(crate) proof fn lemma_ring_fits(&self)
        requires
            self.sorted(),
        ensures
            self.order@.len() <= self.nodes@.len(),
            self.order@.len() <= usize::MAX,
    {
        let s = self.order@.map(|p: int, x: usize| x as int);
        assert forall|p: int, q: int| 0 <= p < q < s.len() implies s[p] != s[q] by {
            self.lemma_order_distinct(p, q);
        }
        assert(self.nodes@.len() == self.nodes.len());
        assert(s.no_duplicates());
        s.unique_seq_to_set();
        vstd::set_lib::lemma_int_range(0, self.nodes@.len() as int);
        let all = vstd::set_lib::set_int_range(0, self.nodes@.len() as int);
        assert forall|x: int| s.to_set().contains(x) implies all.contains(x) by {
            let p = choose|p: int| 0 <= p < s.len() && s[p] == x;
            assert(self.linked(p));
        }
        vstd::set_lib::lemma_len_subset(s.to_set(), all);
    }
}

} // verus!
