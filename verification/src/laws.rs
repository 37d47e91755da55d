//! What holds of the map across calls, stated over the abstract values that the
//! contracts of `get`, `insert`, `remove`, `len` and `to_vec` speak of.

use crate::content::lemma_ascending_join;
use crate::map::{ascending, points, BTreeMap};
use crate::node::Pending;
use crate::slots::{MAX_LEN, MIN_LEN};
use vstd::prelude::*;

verus! {

/// What looking `k` up in `m` gives: its value, or nothing.
pub open spec fn lookup(m: Map<u64, u64>, k: u64) -> Option<u64> {
    if m.contains_key(k) {
        Some(m[k])
    } else {
        None
    }
}

/// A change to a map.
pub enum Op {
    Insert(u64, u64),
    Remove(u64),
}

/// The map after one change.
pub open spec fn apply(m: Map<u64, u64>, op: Op) -> Map<u64, u64> {
    match op {
        Op::Insert(k, v) => m.insert(k, v),
        Op::Remove(k) => m.remove(k),
    }
}

/// The map after a sequence of changes, first to last.
pub open spec fn run(m: Map<u64, u64>, ops: Seq<Op>) -> Map<u64, u64>
    decreases ops.len(),
{
    if ops.len() == 0 {
        m
    } else {
        apply(run(m, ops.drop_last()), ops.last())
    }
}

/// What the last change in `ops` that names `k` left there: `None` if no change
/// names `k`, else the value inserted or, after a removal, nothing.
pub open spec fn latest(ops: Seq<Op>, k: u64) -> Option<Option<u64>>
    decreases ops.len(),
{
    if ops.len() == 0 {
        None
    } else {
        match ops.last() {
            Op::Insert(k2, v) if k2 == k => Some(Some(v)),
            Op::Remove(k2) if k2 == k => Some(None),
            _ => latest(ops.drop_last(), k),
        }
    }
}

/// After any sequence of insertions and removals, a lookup of `k` gives the value
/// of the most recent insertion of `k` that no removal of `k` followed; if there
/// is none, it gives nothing, or what the map held at the start where no change
/// named `k`.
pub proof fn law_lookup_after(m: Map<u64, u64>, ops: Seq<Op>, k: u64)
    ensures
        lookup(run(m, ops), k) == (match latest(ops, k) {
            Some(w) => w,
            None => lookup(m, k),
        }),
    decreases ops.len(),
{
    if ops.len() > 0 {
        law_lookup_after(m, ops.drop_last(), k);
    }
}

/// Inserting a key that is present leaves the number of keys as it is; inserting
/// a new key adds one.
pub proof fn law_len_insert(m: Map<u64, u64>, k: u64, v: u64)
    requires
        m.dom().finite(),
    ensures
        m.insert(k, v).dom().finite(),
        m.insert(k, v).len() == m.len() + (if m.contains_key(k) {
            0int
        } else {
            1int
        }),
{
    assert(m.insert(k, v).dom() =~= m.dom().insert(k));
}

/// Removing a key that is present takes one from the number of keys; removing an
/// absent key leaves it as it is.
pub proof fn law_len_remove(m: Map<u64, u64>, k: u64)
    requires
        m.dom().finite(),
    ensures
        m.remove(k).dom().finite(),
        m.remove(k).len() == m.len() - (if m.contains_key(k) {
            1int
        } else {
            0int
        }),
{
    assert(m.remove(k).dom() =~= m.dom().remove(k));
}

/// Removing a key twice: the second removal finds nothing and changes nothing.
pub proof fn law_remove_twice(m: Map<u64, u64>, k: u64)
    ensures
        lookup(m.remove(k), k) is None,
        m.remove(k).remove(k) == m.remove(k),
{
    assert(m.remove(k).remove(k) =~= m.remove(k));
}

/// Inserting under one key twice: the second insertion finds the first value,
/// and what stays is the second.
pub proof fn law_insert_twice(m: Map<u64, u64>, k: u64, v: u64, w: u64)
    ensures
        lookup(m.insert(k, v), k) == Some(v),
        lookup(m.insert(k, v).insert(k, w), k) == Some(w),
        m.insert(k, v).insert(k, w) == m.insert(k, w),
{
    assert(m.insert(k, v).insert(k, w) =~= m.insert(k, w));
}

impl BTreeMap {
    /// One of the first `p` leaves of the ring holds `e`.
    pub(crate) open spec fn early(&self, p: int, e: (u64, u64)) -> bool {
        exists|q: int, j: int| 0 <= q < p && #[trigger] self.holds(self.order@[q] as int, j, e)
    }

    /// The entries of the first `p` leaves: sorted, below all later leaves, and
    /// exactly what those leaves hold.
    pub(crate) proof fn lemma_ring_upto(&self, p: int)
        requires
            self.inv(Pending::Settled),
            0 <= p <= self.order@.len(),
        ensures
            ascending(self.ring_upto(p)),
            forall|e: (u64, u64)| #[trigger] self.ring_upto(p).contains(e) <==> self.early(p, e),
            forall|x: int, q: int|
                0 <= x < self.ring_upto(p).len() && p <= q < self.order@.len() && self.count(
                    self.order@[q] as int,
                ) >= 1 ==> (#[trigger] self.ring_upto(p)[x]).0 < #[trigger] self.lo(
                    self.order@[q] as int,
                ),
        decreases p,
    {
        if p > 0 {
            self.lemma_ring_upto(p - 1);
            let r = self.ring_upto(p - 1);
            let l = self.order@[p - 1] as int;
            let e = self.entries(l);
            let f = self.ring_upto(p);
            assert(self.linked(p - 1));
            assert(self.live(l));
            assert(self.node_ok(l, Pending::Settled));
            assert(f == r + e);
            if r.len() > 0 && e.len() > 0 {
                assert(r.last() == r[r.len() - 1]);
                assert(r[r.len() - 1].0 < self.lo(l));
            }
            lemma_ascending_join(r, e);
            assert forall|x: (u64, u64)| #[trigger] f.contains(x) <==> self.early(p, x) by {
                if f.contains(x) {
                    let y = choose|y: int| 0 <= y < f.len() && f[y] == x;
                    if y < r.len() {
                        assert(r[y] == x);
                        assert(r.contains(x));
                        assert(self.early(p - 1, x));
                        let (q, j) = choose|q: int, j: int|
                            0 <= q < p - 1 && #[trigger] self.holds(self.order@[q] as int, j, x);
                        assert(self.holds(self.order@[q] as int, j, x));
                    } else {
                        assert(self.holds(self.order@[p - 1] as int, y - r.len(), x));
                    }
                }
                if self.early(p, x) {
                    let (q, j) = choose|q: int, j: int|
                        0 <= q < p && #[trigger] self.holds(self.order@[q] as int, j, x);
                    if q < p - 1 {
                        assert(self.holds(self.order@[q] as int, j, x));
                        assert(self.early(p - 1, x));
                        assert(r.contains(x));
                        let y = choose|y: int| 0 <= y < r.len() && r[y] == x;
                        assert(f[y] == x);
                    } else {
                        assert(f[r.len() + j] == x);
                    }
                }
            }
            assert forall|x: int, q: int|
                0 <= x < f.len() && p <= q < self.order@.len() && self.count(
                    self.order@[q] as int,
                ) >= 1 implies (#[trigger] f[x]).0 < #[trigger] self.lo(self.order@[q] as int) by {
                if x < r.len() {
                    assert(f[x] == r[x]);
                    assert(r[x].0 < self.lo(self.order@[q] as int));
                } else {
                    assert(f[x] == e[x - r.len()]);
                    assert(self.before(p - 1, q));
                    assert(e[x - r.len()].0 <= e.last().0);
                }
            }
        } else {
            assert(self.ring_upto(p) =~= Seq::<(u64, u64)>::empty());
        }
    }

    /// A walk along the leaf ring meets the keys in strictly increasing order.
    pub proof fn law_ring_sorted(&self)
        requires
            self.wf(),
        ensures
            ascending(self.ring()),
    {
        self.wf_unfold();
        self.lemma_ring_upto(self.order@.len() as int);
    }

    /// A walk along the leaf ring meets exactly the pairs of the map: every pair
    /// it reads is in the map, and every pair of the map is read.
    pub proof fn law_ring_complete(&self)
        requires
            self.wf(),
        ensures
            forall|k: u64, v: u64|
                #[trigger] self.ring().contains((k, v)) <==> self@.contains_pair(k, v),
    {
        self.wf_unfold();
        let n = self.order@.len() as int;
        self.lemma_ring_upto(n);
        self.lemma_sorted(Pending::Settled);
        assert forall|k: u64, v: u64| #[trigger]
            self.ring().contains((k, v)) <==> self@.contains_pair(k, v) by {
            let e = (k, v);
            if self.ring().contains(e) {
                assert(self.early(n, e));
                let (q, j) = choose|q: int, j: int|
                    0 <= q < n && #[trigger] self.holds(self.order@[q] as int, j, e);
                assert(self.holds(self.order@[q] as int, j, e));
                assert(self.carries(e));
                self.lemma_value_of(e);
            }
            if self@.contains_pair(k, v) {
                let w = choose|w: u64| self.carries((k, w));
                assert(self.carries((k, w)));
                self.lemma_value_of((k, w));
                let (i, j) = choose|i: int, j: int| self.holds(i, j, e);
                assert(self.holds(self.order@[self.pos(i)] as int, j, e));
                assert(self.early(n, e));
            }
        }
    }

    /// A walk along the leaf ring reads as many entries as the map has keys.
    pub proof fn law_ring_len(&self)
        requires
            self.wf(),
        ensures
            self@.dom().finite(),
            self.ring().len() == self@.len(),
    {
        self.wf_unfold();
        self.law_ring_sorted();
        self.law_ring_complete();
        let r = self.ring();
        let ks = r.map(|x: int, e: (u64, u64)| e.0);
        assert(ks.no_duplicates());
        ks.unique_seq_to_set();
        assert(self.model().dom() =~= self.keys@);
        assert forall|k: u64| ks.to_set().contains(k) <==> self@.dom().contains(k) by {
            if ks.to_set().contains(k) {
                let x = choose|x: int| 0 <= x < ks.len() && ks[x] == k;
                assert(r[x] == (k, r[x].1));
                assert(r.contains((k, r[x].1)));
                assert(self@.contains_pair(k, r[x].1));
            }
            if self@.dom().contains(k) {
                assert(self@.contains_pair(k, self@[k]));
                assert(r.contains((k, self@[k])));
                let x = choose|x: int| 0 <= x < r.len() && r[x] == (k, self@[k]);
                assert(ks[x] == k);
            }
        }
        assert(ks.to_set() =~= self@.dom());
    }

    /// The first `p` leaves hold at most `MAX_LEN` entries each and, where there
    /// are two leaves or more, at least `MIN_LEN` each.
    pub(crate) proof fn lemma_ring_fill(&self, p: int)
        requires
            self.inv(Pending::Settled),
            0 <= p <= self.order@.len(),
        ensures
            self.ring_upto(p).len() <= MAX_LEN * p,
            self.order@.len() >= 2 ==> MIN_LEN * p <= self.ring_upto(p).len(),
        decreases p,
    {
        assert(MAX_LEN == 7 && MIN_LEN == 4);
        if p > 0 {
            self.lemma_ring_fill(p - 1);
            let l = self.order@[p - 1] as int;
            assert(self.linked(p - 1));
            assert(self.live(l));
            assert(self.node_ok(l, Pending::Settled));
            if points(self.root, l) {
                assert(self.order@.len() == 1);
            }
            assert(self.ring_upto(p).len() == self.ring_upto(p - 1).len() + self.entries(l).len());
        }
    }

    /// Leaves are filled within their bounds on the whole: the map holds at most
    /// `MAX_LEN` keys per leaf and, once there are two leaves or more, at least
    /// `MIN_LEN` keys per leaf.
    pub proof fn law_leaf_fill(&self)
        requires
            self.wf(),
        ensures
            self@.len() <= MAX_LEN * self.leaves(),
            self.leaves() >= 2 ==> MIN_LEN * self.leaves() <= self@.len(),
    {
        self.wf_unfold();
        self.law_ring_len();
        assert(MAX_LEN == 7 && MIN_LEN == 4);
        self.lemma_ring_fill(self.order@.len() as int);
    }

    /// A map without levels has no leaf and no key; a tree of one level is a
    /// single leaf.
    pub proof fn law_depth_leaves(&self)
        requires
            self.wf(),
        ensures
            (self.depth() == 0) == (self.leaves() == 0),
            self.depth() == 0 ==> self@ == Map::<u64, u64>::empty(),
            self.depth() == 1 ==> self.leaves() == 1,
    {
        self.wf_unfold();
        if self.root is Some {
            let r = self.root->0 as int;
            assert(self.live(r));
            assert(self.node_ok(r, Pending::Settled));
        } else {
            assert forall|k: u64| !self.keys@.contains(k) by {
                if self.keys@.contains(k) {
                    let v = choose|v: u64| self.carries((k, v));
                    assert(self.carries((k, v)));
                }
            }
            assert(self.model() =~= Map::<u64, u64>::empty());
        }
    }

    /// The keys of a well-formed map are finitely many.
    pub proof fn lemma_wf_finite(&self)
        requires
            self.wf(),
        ensures
            self@.dom().finite(),
    {
        self.wf_unfold();
        assert(self.model().dom() =~= self.keys@);
    }
}

} // verus!
