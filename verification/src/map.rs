//! The map handle, its abstract value and its well-formedness.
//!
//! The tree is described slot by slot. Each occupied slot carries a proof-only
//! `Note`: its level above the leaves, the first leaf below it, and the leaf that
//! follows the last leaf below it. The invariant says, for every node, what its
//! own contents look like (`node_ok`) and how each of its children relates to it
//! (`kid_ok`); for the leaves, that they stand in the ring in the order recorded in
//! `order` with all keys of an earlier leaf below all keys of a later one
//! (`ring_ok`); and that `keys` is exactly the set of keys stored (`keys_ok`).
//! While a structural change is under way, a `Pending` value names the one place
//! where the tree may fall short of this.

use crate::node::{Intra, Leaf, Node, Note, Pending};
use crate::slots::{entries_of, links_of, MAX_LEN, MIN_LEN};
use vstd::prelude::*;

verus! {

/// An ordered map from `u64` to `u64`.
///
/// Nodes are addressed by their index in `nodes`; a vacated slot holds `None` and
/// is listed in `free` for reuse.
pub struct BTreeMap {
    /// Number of keys held.
    pub(crate) length: usize,
    /// Slot of the root; `None` until the first insertion.
    pub(crate) root: Option<usize>,
    /// The arena.
    pub(crate) nodes: Vec<Option<Node>>,
    /// Vacated slots.
    pub(crate) free: Vec<usize>,
    /// One note per slot.
    pub(crate) notes: Ghost<Seq<Note>>,
    /// The leaves in ring order.
    pub(crate) order: Ghost<Seq<usize>>,
    /// The keys present.
    pub(crate) keys: Ghost<Set<u64>>,
}

/// The option holds index `i`.
pub open spec fn points(o: Option<usize>, i: int) -> bool {
    o matches Some(x) && x == i
}

/// Keys strictly increase along the sequence.
pub open spec fn ascending(e: Seq<(u64, u64)>) -> bool {
    forall|i: int, j: int| 0 <= i < j < e.len() ==> e[i].0 < e[j].0
}

impl BTreeMap {
    /// Slot `i` is occupied.
    pub(crate) open spec fn live(&self, i: int) -> bool {
        0 <= i < self.nodes@.len() && self.nodes@[i] is Some
    }

    /// Slot `i` holds a leaf.
    pub(crate) open spec fn is_leaf(&self, i: int) -> bool {
        self.live(i) && self.nodes@[i]->0 is Leaf
    }

    /// Slot `i` holds an internal node.
    pub(crate) open spec fn is_intra(&self, i: int) -> bool {
        self.live(i) && self.nodes@[i]->0 is Intra
    }

    /// The leaf in slot `i`.
    pub(crate) open spec fn leaf(&self, i: int) -> Leaf {
        self.nodes@[i]->0->Leaf_0
    }

    /// The internal node in slot `i`.
    pub(crate) open spec fn intra(&self, i: int) -> Intra {
        self.nodes@[i]->0->Intra_0
    }

    /// The entries of leaf `i`.
    pub(crate) open spec fn entries(&self, i: int) -> Seq<(u64, u64)> {
        entries_of(self.leaf(i).data)
    }

    /// The (child, separator) pairs of internal node `i`.
    pub(crate) open spec fn links(&self, i: int) -> Seq<(usize, usize)> {
        links_of(self.intra(i).heads)
    }

    /// Child `j` of internal node `i`; the trailing child has `j == links.len()`.
    pub(crate) open spec fn kid(&self, i: int, j: int) -> usize {
        if j < self.links(i).len() {
            self.links(i)[j].0
        } else {
            self.intra(i).tail
        }
    }

    /// The separator between children `j` and `j + 1` of internal node `i`: the
    /// slot of a leaf, whose first key is the least key below child `j + 1`.
    pub(crate) open spec fn sep(&self, i: int, j: int) -> usize {
        self.links(i)[j].1
    }

    /// Entries of a leaf, children of an internal node.
    pub(crate) open spec fn count(&self, i: int) -> int {
        if self.is_leaf(i) {
            self.entries(i).len() as int
        } else if self.is_intra(i) {
            (self.links(i).len() + 1) as int
        } else {
            0
        }
    }

    /// First key of leaf `i`.
    pub(crate) open spec fn lo(&self, i: int) -> u64 {
        self.entries(i)[0].0
    }

    /// Last key of leaf `i`.
    pub(crate) open spec fn hi(&self, i: int) -> u64 {
        self.entries(i).last().0
    }

    /// The note of slot `i`.
    pub(crate) open spec fn note(&self, i: int) -> Note {
        self.notes@[i]
    }

    /// The `after` that the position of node `i` in its parent answers for: while
    /// `i` has an unattached upper part, that part's.
    pub(crate) open spec fn after(&self, i: int, pend: Pending) -> Option<usize> {
        match pend {
            Pending::Split(c, r) if c == i => self.note(r as int).after,
            _ => self.note(i).after,
        }
    }

    /// Least count allowed at node `i`: nothing for a root leaf, two children for
    /// an internal root, `MIN_LEN` elsewhere; one less where `pend` allows it.
    pub(crate) open spec fn floor(&self, i: int, pend: Pending) -> int {
        (if points(self.root, i) {
            if self.is_leaf(i) {
                0int
            } else {
                2int
            }
        } else {
            MIN_LEN as int
        }) - (if pend matches Pending::Under(c) && c == i {
            1int
        } else {
            0int
        })
    }

    /// Node `i` by itself: its count is within bounds; a leaf is sorted, stands at
    /// level 0, is its own first leaf and is followed by its right neighbour.
    pub(crate) open spec fn node_ok(&self, i: int, pend: Pending) -> bool {
        &&& self.floor(i, pend) <= self.count(i) <= MAX_LEN + (if pend matches Pending::Over(c) && c == i {
            1int
        } else {
            0int
        })
        &&& self.is_leaf(i) ==> {
            &&& self.note(i).level == 0
            &&& self.note(i).first == i
            &&& self.note(i).after == self.leaf(i).right
            &&& ascending(self.entries(i))
        }
        &&& self.is_intra(i) ==> self.note(i).level >= 1
    }

    /// Internal node `i` has a child `j`.
    pub(crate) open spec fn slot(&self, i: int, j: int) -> bool {
        self.is_intra(i) && 0 <= j <= self.links(i).len()
    }

    /// Child `j` of node `i`: it is an occupied slot one level down and not the
    /// root; the first child starts where `i` starts; a child before a separator
    /// is followed by that separator, which is the first leaf below the next
    /// child; the trailing child is followed by what follows `i`.
    pub(crate) open spec fn kid_ok(&self, i: int, j: int, pend: Pending) -> bool {
        let c = self.kid(i, j) as int;
        &&& self.live(c)
        &&& self.root != Some(self.kid(i, j))
        &&& self.note(c).level + 1 == self.note(i).level
        &&& j == 0 ==> self.note(i).first == self.note(c).first
        &&& if j < self.links(i).len() {
            let s = self.sep(i, j);
            &&& self.is_leaf(s as int)
            &&& self.root != Some(s)
            &&& s == self.note(self.kid(i, j + 1) as int).first
            &&& self.after(c, pend) == Some(s)
        } else {
            self.after(c, pend) == self.note(i).after
        }
    }

    /// Two child positions hold the same node. The invariant rules this out for
    /// two different positions: no node has two parents or stands twice under one.
    pub(crate) open spec fn clash(&self, i1: int, j1: int, i2: int, j2: int) -> bool {
        self.slot(i1, j1) && self.slot(i2, j2) && self.kid(i1, j1) == self.kid(i2, j2)
    }

    /// What is known of the nodes that `pend` names. After a division the upper
    /// part is an occupied slot at the level of the lower one, follows it directly,
    /// and is nobody's child yet.
    pub(crate) open spec fn pend_ok(&self, pend: Pending) -> bool {
        match pend {
            Pending::Settled => true,
            Pending::Under(c) => self.live(c as int),
            Pending::Over(c) => self.is_intra(c as int),
            Pending::Split(c, r) => {
                &&& self.live(c as int)
                &&& self.live(r as int)
                &&& c != r
                &&& self.root != Some(r)
                &&& self.note(r as int).level == self.note(c as int).level
                &&& self.note(c as int).after == Some(self.note(r as int).first)
                &&& self.is_leaf(self.note(r as int).first as int)
                &&& self.root != Some(self.note(r as int).first)
                &&& self.count(c as int) >= MIN_LEN
                &&& forall|i: int, j: int| #[trigger] self.slot(i, j) ==> self.kid(i, j) != r
            },
        }
    }

    /// The root: before the first insertion the arena is empty; after it the root
    /// is an occupied slot, starts at the first leaf of the ring, is followed by
    /// nothing, and, where it is a leaf, is the only leaf.
    pub(crate) open spec fn root_ok(&self, pend: Pending) -> bool {
        match self.root {
            None => self.nodes@.len() == 0 && self.order@.len() == 0,
            Some(r) => {
                &&& self.live(r as int)
                &&& self.after(r as int, pend) is None
                &&& self.order@.len() >= 1
                &&& self.note(r as int).first == self.order@[0]
                &&& self.is_leaf(r as int) ==> self.order@.len() == 1 + (if pend matches Pending::Split(
                    c,
                    _,
                ) && c == r {
                    1int
                } else {
                    0int
                })
            },
        }
    }

    /// The free list names vacant slots, each once.
    pub(crate) open spec fn free_ok(&self) -> bool {
        &&& forall|a: int|
            0 <= a < self.free@.len() ==> (#[trigger] self.free@[a]) < self.nodes@.len()
                && self.nodes@[self.free@[a] as int] is None
        &&& forall|a: int, b: int|
            0 <= a < b < self.free@.len() ==> #[trigger] self.free@[a] != #[trigger] self.free@[b]
    }

    /// Leaf `order[p]` is linked to its neighbours in `order`.
    pub(crate) open spec fn linked(&self, p: int) -> bool {
        let l = self.order@[p] as int;
        &&& self.is_leaf(l)
        &&& self.leaf(l).left == (if p > 0 {
            Some(self.order@[p - 1])
        } else {
            None
        })
        &&& self.leaf(l).right == (if p + 1 < self.order@.len() {
            Some(self.order@[p + 1])
        } else {
            None
        })
    }

    /// Where leaf `i` stands in `order`.
    pub(crate) open spec fn pos(&self, i: int) -> int {
        choose|p: int| 0 <= p < self.order@.len() && self.order@[p] == i
    }

    /// Every key of leaf `order[p]` is below every key of leaf `order[q]`.
    pub(crate) open spec fn before(&self, p: int, q: int) -> bool {
        &&& self.count(self.order@[p] as int) >= 1
        &&& self.count(self.order@[q] as int) >= 1
        &&& self.hi(self.order@[p] as int) < self.lo(self.order@[q] as int)
    }

    /// The leaves are exactly the members of `order`, each linked to its
    /// neighbours there, with keys increasing from leaf to leaf.
    pub(crate) open spec fn ring_ok(&self) -> bool {
        &&& forall|p: int| 0 <= p < self.order@.len() ==> #[trigger] self.linked(p)
        &&& forall|i: int| #[trigger]
            self.is_leaf(i) ==> 0 <= self.pos(i) < self.order@.len() && self.order@[self.pos(i)] == i
        &&& forall|p: int, q: int| 0 <= p < q < self.order@.len() ==> #[trigger] self.before(p, q)
    }

    /// Some leaf holds the pair `e`.
    pub(crate) open spec fn carries(&self, e: (u64, u64)) -> bool {
        exists|i: int, j: int| #[trigger] self.holds(i, j, e)
    }

    /// Leaf `i` holds the pair `e` at position `j`.
    pub(crate) open spec fn holds(&self, i: int, j: int, e: (u64, u64)) -> bool {
        self.is_leaf(i) && 0 <= j < self.entries(i).len() && self.entries(i)[j] == e
    }

    /// `keys` is the finite set of the keys stored in leaves, and `length` is its
    /// size.
    pub(crate) open spec fn keys_ok(&self) -> bool {
        &&& self.keys@.finite()
        &&& self.keys@.len() == self.length
        &&& forall|i: int, j: int, e: (u64, u64)| #[trigger] self.holds(i, j, e) ==> self.keys@.contains(e.0)
        &&& forall|k: u64| #[trigger] self.keys@.contains(k) ==> exists|v: u64| #[trigger] self.carries((k, v))
    }

    /// The invariant of the arena, up to what `pend` still owes.
    pub(crate) open spec fn inv(&self, pend: Pending) -> bool {
        &&& self.notes@.len() == self.nodes@.len()
        &&& self.free_ok()
        &&& self.root_ok(pend)
        &&& self.pend_ok(pend)
        &&& forall|i: int| #[trigger] self.live(i) ==> self.node_ok(i, pend)
        &&& forall|i: int, j: int| #[trigger] self.slot(i, j) ==> self.kid_ok(i, j, pend)
        &&& forall|i1: int, j1: int, i2: int, j2: int| #[trigger]
            self.clash(i1, j1, i2, j2) ==> i1 == i2 && j1 == j2
        &&& self.ring_ok()
        &&& self.keys_ok()
    }

    /// The value stored beside key `k`.
    pub(crate) open spec fn value(&self, k: u64) -> u64 {
        choose|v: u64| self.carries((k, v))
    }

    /// The map from each stored key to the value stored beside it.
    pub(crate) open spec fn model(&self) -> Map<u64, u64> {
        Map::new(|k: u64| self.keys@.contains(k), |k: u64| self.value(k))
    }

    /// The structure is a well-formed tree: every leaf sorted, node occupancy
    /// within bounds, all leaves at one depth and linked into a ring in key order,
    /// every separator the first leaf below the child that follows it, and the key
    /// count equal to the number of keys stored.
    pub closed spec fn wf(&self) -> bool {
        self.inv(Pending::Settled)
    }

    /// What `wf` and the view stand for.
    pub(crate) proof fn view_unfold(&self)
        ensures
            self.wf() == self.inv(Pending::Settled),
            self@ == self.model(),
    {
    }

    /// What the public predicates stand for.
    pub(crate) proof fn wf_unfold(&self)
        ensures
            self.wf() == self.inv(Pending::Settled),
            self@ == self.model(),
            self.balanced() == (forall|i: int| #[trigger] self.live(i) ==> self.fits(i)),
            self.depth() == self.levels(),
            self.leaves() == self.order@.len(),
            self.ring() == self.ring_upto(self.order@.len() as int),
    {
    }

    /// Node `i` holds no more than it may and, unless it is the root, no less: a
    /// leaf beside the root `MIN_LEN` to `MAX_LEN` entries, an internal node beside
    /// the root `MIN_LEN` to `MAX_LEN` children, a root leaf up to `MAX_LEN`
    /// entries, an internal root 2 to `MAX_LEN` children.
    pub(crate) open spec fn fits(&self, i: int) -> bool {
        self.floor(i, Pending::Settled) <= self.count(i) <= MAX_LEN
    }

    /// Number of node levels from the root down to the leaves; 0 without a root.
    pub(crate) open spec fn levels(&self) -> nat {
        match self.root {
            None => 0,
            Some(r) => self.note(r as int).level + 1,
        }
    }

    /// The entries of the first `p` leaves of the ring, one leaf after the other.
    pub(crate) open spec fn ring_upto(&self, p: int) -> Seq<(u64, u64)>
        decreases p,
    {
        if p <= 0 {
            Seq::empty()
        } else {
            self.ring_upto(p - 1) + self.entries(self.order@[p - 1] as int)
        }
    }

    /// Every node of the tree is within its occupancy bounds: each leaf other than
    /// the root holds `MIN_LEN` to `MAX_LEN` entries and each internal node other
    /// than the root has `MIN_LEN` to `MAX_LEN` children; a root leaf holds at most
    /// `MAX_LEN` entries and an internal root has 2 to `MAX_LEN` children.
    pub closed spec fn balanced(&self) -> bool {
        forall|i: int| #[trigger] self.live(i) ==> self.fits(i)
    }

    /// Number of node levels from the root down to the leaves: 0 for a map that
    /// has no root yet, 1 while the root is a leaf.
    pub closed spec fn depth(&self) -> nat {
        self.levels()
    }

    /// Number of leaves in the ring.
    pub closed spec fn leaves(&self) -> nat {
        self.order@.len()
    }

    /// What a walk along the leaf ring reads, from the first entry of the first
    /// leaf to the last entry of the last.
    pub closed spec fn ring(&self) -> Seq<(u64, u64)> {
        self.ring_upto(self.order@.len() as int)
    }

    /// A well-formed tree is balanced.
    pub proof fn lemma_wf_balanced(&self)
        requires
            self.wf(),
        ensures
            self.balanced(),
    {
        assert forall|i: int| #[trigger] self.live(i) implies self.fits(i) by {
            assert(self.node_ok(i, Pending::Settled));
        }
    }

    /// An empty map.
    pub fn new() -> (m: Self)
        ensures
            m.wf(),
            m@ == Map::<u64, u64>::empty(),
            m.balanced(),
            m.depth() == 0,
            m.leaves() == 0,
            m.ring() == Seq::<(u64, u64)>::empty(),
    {
        let m = BTreeMap {
            length: 0,
            root: None,
            nodes: Vec::new(),
            free: Vec::new(),
            notes: Ghost(Seq::empty()),
            order: Ghost(Seq::empty()),
            keys: Ghost(Set::empty()),
        };
        assert(m.model() =~= Map::<u64, u64>::empty());
        m
    }

    /// Number of keys held.
    pub fn len(&self) -> (n: usize)
        requires
            self.wf(),
        ensures
            n == self@.len(),
            self@.dom().finite(),
    {
        assert(self.model().dom() =~= self.keys@);
        self.length
    }

    /// Whether no key is held.
    pub fn is_empty(&self) -> (b: bool)
        requires
            self.wf(),
        ensures
            b == (self@.len() == 0),
            b == (self@ == Map::<u64, u64>::empty()),
    {
        assert(self.model().dom() =~= self.keys@);
        assert(self.length == 0 ==> self.model() =~= Map::<u64, u64>::empty());
        self.length == 0
    }
}

/// The abstract value of a map: each key held, with its value.
impl View for BTreeMap {
    type V = Map<u64, u64>;

    closed spec fn view(&self) -> Map<u64, u64> {
        self.model()
    }
}

} // verus!
