//! Internal nodes during insertion: taking in a divided child, and dividing a node
//! that has grown past its capacity.

use crate::map::BTreeMap;
use crate::node::{Intra, Node, Note, Pending};
use crate::slots::{
    entries_len, links_at_mut, links_insert, links_len, links_new, links_remove, links_split_off,
    MAX_LEN, MIN_LEN,
};
use vstd::prelude::*;

verus! {

impl BTreeMap {
    /// `self` differs from `s` in slot `n` of the arena at most.
    pub(crate) open spec fn only_node(&self, s: &BTreeMap, n: int) -> bool {
        &&& self.nodes@.len() == s.nodes@.len()
        &&& forall|i: int|
            0 <= i < s.nodes@.len() && i != n ==> #[trigger] self.nodes@[i] == s.nodes@[i]
        &&& self.notes == s.notes
        &&& self.root == s.root
        &&& self.free == s.free
        &&& self.order == s.order
        &&& self.keys == s.keys
        &&& self.length == s.length
    }

    /// What is owed after node `n` has taken in a divided child.
    pub(crate) open spec fn load(&self, n: usize) -> Pending {
        if self.count(n as int) <= MAX_LEN {
            Pending::Settled
        } else {
            Pending::Over(n)
        }
    }

    /// Number of entries or children of node `n`.
    pub(crate) fn count_at(&self, n: usize) -> (c: usize)
        requires
            self.live(n as int),
        ensures
            c == self.count(n as int),
    {
        match &self.nodes[n] {
            Some(Node::Leaf(l)) => entries_len(&l.data),
            Some(Node::Intra(x)) => {
                let k = links_len(&x.heads);
                k + 1
            },
            None => 0,
        }
    }

    /// Child `j` of internal node `n` has been divided: `right` holds its upper
    /// part and `sep` is the first leaf below `right`. Makes `right` the child after
    /// `j`, with `sep` between the two.
    pub(crate) fn absorb(&mut self, n: usize, j: usize, sep: usize, right: usize)
        requires
            old(self).slot(n as int, j as int),
            old(self).inv(Pending::Split(old(self).kid(n as int, j as int), right)),
            sep == old(self).note(right as int).first,
        ensures
            final(self).inv(final(self).load(n)),
            final(self).count(n as int) == old(self).count(n as int) + 1,
            final(self).is_intra(n as int),
            final(self).only_node(old(self), n as int),
            final(self).model() == old(self).model(),
    {
        let ghost pre = *self;
        let ghost c = self.kid(n as int, j as int);
        proof {
            assert(self.live(n as int));
            assert(self.node_ok(n as int, Pending::Split(c, right)));
        }
        match &mut self.nodes[n] {
            Some(Node::Intra(x)) => {
                let len = links_len(&x.heads);
                if j < len {
                    let e = links_at_mut(&mut x.heads, j);
                    let child = e.0;
                    e.0 = right;
                    links_insert(&mut x.heads, j, (child, sep));
                } else {
                    let child = x.tail;
                    links_insert(&mut x.heads, len, (child, sep));
                    x.tail = right;
                }
            },
            _ => {},
        }
        proof {
            let len = pre.links(n as int).len() as int;
            if j < len {
                assert(self.links(n as int) =~= pre.links(n as int).update(
                    j as int,
                    (right, pre.links(n as int)[j as int].1),
                ).insert(j as int, (pre.kid(n as int, j as int), sep)));
            } else {
                assert(self.links(n as int) =~= pre.links(n as int).push(
                    (pre.kid(n as int, j as int), sep),
                ));
            }
            pre.lemma_absorb(self, n as int, j as int, right);
        }
    }

    /// Taking the upper part `r` of divided child `j` into node `n`.
    pub(crate) proof fn lemma_absorb(&self, t: &BTreeMap, n: int, j: int, r: usize)
        requires
            self.slot(n, j),
            n <= usize::MAX,
            self.inv(Pending::Split(self.kid(n, j), r)),
            t.only_node(self, n),
            t.is_intra(n),
            t.links(n) == (if j < self.links(n).len() {
                self.links(n).update(j, (r, self.links(n)[j].1)).insert(
                    j,
                    (self.kid(n, j), self.note(r as int).first),
                )
            } else {
                self.links(n).push((self.kid(n, j), self.note(r as int).first))
            }),
            t.intra(n).tail == (if j < self.links(n).len() {
                self.intra(n).tail
            } else {
                r
            }),
        ensures
            t.inv(t.load(n as usize)),
            t.count(n) == self.count(n) + 1,
            t.model() == self.model(),
    {
        let s = self;
        let c = s.kid(n, j);
        let ps = Pending::Split(c, r);
        let pt = t.load(n as usize);
        let len = s.links(n).len() as int;
        let sg = s.note(r as int).first;
        assert(s.live(n));
        assert(s.node_ok(n, ps));
        assert(s.kid_ok(n, j, ps));
        assert(t.links(n).len() == len + 1);
        // where the children and separators of `n` stand now
        assert forall|x: int| 0 <= x <= len + 1 implies #[trigger] t.kid(n, x) == (if x <= j {
            s.kid(n, x)
        } else if x == j + 1 {
            r
        } else {
            s.kid(n, x - 1)
        }) by {}
        assert forall|x: int| 0 <= x < len + 1 implies #[trigger] t.sep(n, x) == (if x < j {
            s.sep(n, x)
        } else if x == j {
            sg
        } else {
            s.sep(n, x - 1)
        }) by {}
        assert forall|i: int| #[trigger] t.live(i) == s.live(i) && t.is_leaf(i) == s.is_leaf(i)
            && t.is_intra(i) == s.is_intra(i) by {
            if 0 <= i < s.nodes@.len() && i != n {
                assert(t.nodes@[i] == s.nodes@[i]);
            }
        }
        assert forall|i: int| #[trigger] s.is_leaf(i) implies t.is_leaf(i) && t.leaf(i) == s.leaf(
            i,
        ) by {
            assert(t.nodes@[i] == s.nodes@[i]);
        }
        assert forall|i: int| #[trigger] t.live(i) implies t.node_ok(i, pt) by {
            assert(s.live(i));
            assert(s.node_ok(i, ps));
            if i != n {
                assert(t.nodes@[i] == s.nodes@[i]);
            }
        }
        assert forall|i: int, x: int| #[trigger] t.slot(i, x) implies t.kid_ok(i, x, pt) by {
            if i != n {
                assert(t.nodes@[i] == s.nodes@[i]);
                assert(s.slot(i, x));
                assert(s.kid_ok(i, x, ps));
                if s.kid(i, x) == c {
                    assert(s.clash(i, x, n, j));
                }
            } else {
                let x0 = if x <= j { x } else { x - 1 };
                assert(s.slot(n, x0));
                assert(s.kid_ok(n, x0, ps));
                if x0 < len {
                    assert(s.slot(n, x0 + 1));
                }
                if x < len + 1 {
                    assert(t.kid(n, x + 1) == (if x + 1 <= j {
                        s.kid(n, x + 1)
                    } else if x + 1 == j + 1 {
                        r
                    } else {
                        s.kid(n, x)
                    }));
                }
                if x != j + 1 && x0 != j {
                    if s.kid(n, x0) == c {
                        assert(s.clash(n, x0, n, j));
                    }
                }
            }
        }
        assert forall|i1: int, j1: int, i2: int, j2: int| #[trigger]
            t.clash(i1, j1, i2, j2) implies i1 == i2 && j1 == j2 by {
            let a1 = if i1 == n && j1 > j { j1 - 1 } else { j1 };
            let a2 = if i2 == n && j2 > j { j2 - 1 } else { j2 };
            if i1 != n {
                assert(t.nodes@[i1] == s.nodes@[i1]);
            }
            if i2 != n {
                assert(t.nodes@[i2] == s.nodes@[i2]);
            }
            assert(s.slot(i1, a1));
            assert(s.slot(i2, a2));
            if (i1 == n && j1 == j + 1) || (i2 == n && j2 == j + 1) {
            } else {
                assert(s.clash(i1, a1, i2, a2));
            }
        }
        assert(t.root_ok(pt)) by {
            if s.root is Some {
                let rt = s.root->0;
                if rt == c {
                    assert(false);
                }
            }
        }
        assert(t.free_ok()) by {
            assert forall|a: int| 0 <= a < t.free@.len() implies (#[trigger] t.free@[a])
                < t.nodes@.len() && t.nodes@[t.free@[a] as int] is None by {
                let f = s.free@[a] as int;
                assert(!s.live(f));
                assert(t.nodes@[f] == s.nodes@[f]);
            }
        }
        s.lemma_sorted(ps);
        s.lemma_leaves_kept(t);
    }

    /// Internal node `n` holds one child too many: moves its upper half to a new
    /// node and hands back the separator between the halves and the new node.
    pub(crate) fn divide(&mut self, n: usize) -> (r: (usize, usize))
        requires
            old(self).inv(Pending::Over(n)),
            old(self).count(n as int) == MAX_LEN + 1,
        ensures
            final(self).inv(Pending::Split(n, r.1)),
            r.0 == final(self).note(r.1 as int).first,
            !old(self).live(r.1 as int),
            final(self).model() == old(self).model(),
            final(self).root == old(self).root,
            final(self).order == old(self).order,
            final(self).note(n as int).level == old(self).note(n as int).level,
            forall|i: int| #[trigger] old(self).live(i) ==> final(self).live(i),
            forall|i: int|
                #[trigger] old(self).live(i) && i != n ==> final(self).nodes@[i] == old(
                    self,
                ).nodes@[i] && final(self).notes@[i] == old(self).notes@[i],
    {
        let ghost pre = *self;
        let mut upper = links_new();
        let mut last: usize = 0;
        let mut sep: usize = 0;
        match &mut self.nodes[n] {
            Some(Node::Intra(x)) => {
                upper = links_split_off(&mut x.heads, MIN_LEN);
                let mid = links_remove(&mut x.heads, MIN_LEN - 1);
                last = x.tail;
                x.tail = mid.0;
                sep = mid.1;
            },
            _ => {},
        }
        let ghost m1 = *self;
        let r = self.store(Node::Intra(Intra { heads: upper, tail: last }));
        let ghost m2 = *self;
        self.notes = Ghost(
            self.notes@.update(
                n as int,
                Note {
                    level: pre.note(n as int).level,
                    first: pre.note(n as int).first,
                    after: Some(sep),
                },
            ).update(
                r as int,
                Note { level: pre.note(n as int).level, first: sep, after: pre.note(n as int).after },
            ),
        );
        proof {
            assert forall|i: int| 0 <= i < pre.nodes@.len() && i != n && i != r implies #[trigger] self.nodes@[i]
                == pre.nodes@[i] by {
                assert(m2.nodes@[i] == m1.nodes@[i]);
            }
            assert forall|i: int| 0 <= i < pre.nodes@.len() && i != n && i != r implies #[trigger] self.notes@[i]
                == pre.notes@[i] by {
                assert(m2.notes@[i] == m1.notes@[i]);
            }
            assert(self.links(n as int) =~= pre.links(n as int).subrange(0, MIN_LEN - 1));
            pre.lemma_divide(self, n as int, r as int);
        }
        (sep, r)
    }

    /// Dividing the overfull internal node `n`; `r` is the new node that takes the
    /// upper half of its children.
    pub(crate) proof fn lemma_divide(&self, t: &BTreeMap, n: int, r: int)
        requires
            self.inv(Pending::Over(n as usize)),
            self.count(n) == MAX_LEN + 1,
            n <= usize::MAX,
            r <= usize::MAX,
            !self.live(r),
            0 <= r < t.nodes@.len(),
            t.notes@.len() == t.nodes@.len(),
            self.nodes@.len() <= t.nodes@.len() <= self.nodes@.len() + 1,
            t.nodes@.len() > self.nodes@.len() ==> r == self.nodes@.len(),
            t.is_intra(n),
            t.is_intra(r),
            t.links(n) == self.links(n).subrange(0, MIN_LEN - 1),
            t.intra(n).tail == self.links(n)[MIN_LEN - 1].0,
            t.links(r) == self.links(n).subrange(MIN_LEN as int, MAX_LEN as int),
            t.intra(r).tail == self.intra(n).tail,
            forall|i: int|
                0 <= i < self.nodes@.len() && i != n && i != r ==> #[trigger] t.nodes@[i]
                    == self.nodes@[i],
            forall|i: int|
                0 <= i < self.nodes@.len() && i != n && i != r ==> #[trigger] t.notes@[i]
                    == self.notes@[i],
            t.note(n).level == self.note(n).level,
            t.note(n).first == self.note(n).first,
            t.note(n).after == Some(self.links(n)[MIN_LEN - 1].1),
            t.note(r).level == self.note(n).level,
            t.note(r).first == self.links(n)[MIN_LEN - 1].1,
            t.note(r).after == self.note(n).after,
            t.order == self.order,
            t.keys == self.keys,
            t.length == self.length,
            t.root == self.root,
            t.free_ok(),
        ensures
            t.inv(Pending::Split(n as usize, r as usize)),
            t.model() == self.model(),
            forall|i: int| #[trigger] self.live(i) ==> t.live(i),
    {
        let s = self;
        let ps = Pending::Over(n as usize);
        let pt = Pending::Split(n as usize, r as usize);
        let h = MIN_LEN as int;
        let sg = s.links(n)[h - 1].1;
        assert(s.live(n));
        assert(s.node_ok(n, ps));
        assert(s.links(n).len() == MAX_LEN);
        assert(n != r);
        assert forall|x: int| 0 <= x <= h - 1 implies #[trigger] t.kid(n, x) == s.kid(n, x) by {}
        assert forall|x: int| 0 <= x <= h - 1 implies #[trigger] t.kid(r, x) == s.kid(n, x + h) by {}
        assert forall|x: int| 0 <= x < h - 1 implies #[trigger] t.sep(n, x) == s.sep(n, x) && t.sep(
            r,
            x,
        ) == s.sep(n, x + h) by {}
        assert forall|i: int| #[trigger] s.live(i) implies t.live(i) && t.is_leaf(i) == s.is_leaf(i)
            && t.is_intra(i) == s.is_intra(i) by {
            if i != n {
                assert(t.nodes@[i] == s.nodes@[i]);
            }
        }
        assert forall|i: int| #[trigger] t.live(i) && i != r implies s.live(i) by {
            if i != n {
                assert(t.nodes@[i] == s.nodes@[i]);
            }
        }
        assert forall|i: int| #[trigger] s.is_leaf(i) implies t.is_leaf(i) && t.leaf(i) == s.leaf(
            i,
        ) by {
            assert(s.live(i));
            assert(t.nodes@[i] == s.nodes@[i]);
        }
        assert forall|i: int| #[trigger] t.is_leaf(i) implies s.is_leaf(i) by {
            assert(t.live(i));
            assert(t.nodes@[i] == s.nodes@[i]);
        }
        assert forall|i: int| #[trigger] t.live(i) implies t.node_ok(i, pt) by {
            if i != r {
                assert(s.live(i));
                assert(s.node_ok(i, ps));
                if i != n {
                    assert(t.nodes@[i] == s.nodes@[i]);
                    assert(t.notes@[i] == s.notes@[i]);
                }
            }
        }
        assert(s.slot(n, h - 1));
        assert(s.kid_ok(n, h - 1, ps));
        assert(s.slot(n, h));
        assert(s.kid_ok(n, h, ps));
        assert forall|i: int, x: int| #[trigger] t.slot(i, x) implies t.kid_ok(i, x, pt) by {
            if i == n {
                assert(s.slot(n, x));
                assert(s.kid_ok(n, x, ps));
                assert(s.slot(n, x + 1));
                let k = s.kid(n, x) as int;
                assert(s.live(k));
                if k == n {
                    assert(false);
                }
                assert(t.notes@[k] == s.notes@[k]);
                let k2 = s.kid(n, x + 1) as int;
                assert(s.kid_ok(n, x + 1, ps));
                assert(s.live(k2));
                assert(t.notes@[k2] == s.notes@[k2]);
            } else if i == r {
                assert(s.slot(n, x + h));
                assert(s.kid_ok(n, x + h, ps));
                let k = s.kid(n, x + h) as int;
                assert(s.live(k));
                assert(t.notes@[k] == s.notes@[k]);
                if x < h - 1 {
                    assert(s.slot(n, x + h + 1));
                    assert(s.kid_ok(n, x + h + 1, ps));
                    let k2 = s.kid(n, x + h + 1) as int;
                    assert(s.live(k2));
                    assert(t.notes@[k2] == s.notes@[k2]);
                }
            } else {
                assert(t.live(i));
                assert(t.nodes@[i] == s.nodes@[i]);
                assert(t.notes@[i] == s.notes@[i]);
                assert(s.slot(i, x));
                assert(s.kid_ok(i, x, ps));
                let k = s.kid(i, x) as int;
                assert(s.live(k));
                if k != n {
                    assert(t.notes@[k] == s.notes@[k]);
                }
                if x < s.links(i).len() {
                    assert(s.slot(i, x + 1));
                    assert(s.kid_ok(i, x + 1, ps));
                    let k2 = s.kid(i, x + 1) as int;
                    assert(s.live(k2));
                    if k2 != n {
                        assert(t.notes@[k2] == s.notes@[k2]);
                    }
                    assert(s.live(s.sep(i, x) as int));
                }
            }
        }
        assert forall|i1: int, j1: int, i2: int, j2: int| #[trigger]
            t.clash(i1, j1, i2, j2) implies i1 == i2 && j1 == j2 by {
            let b1 = if i1 == r { n } else { i1 };
            let a1 = if i1 == r { j1 + h } else { j1 };
            let b2 = if i2 == r { n } else { i2 };
            let a2 = if i2 == r { j2 + h } else { j2 };
            if i1 != n && i1 != r {
                assert(t.live(i1));
                assert(t.nodes@[i1] == s.nodes@[i1]);
            }
            if i2 != n && i2 != r {
                assert(t.live(i2));
                assert(t.nodes@[i2] == s.nodes@[i2]);
            }
            assert(s.slot(b1, a1));
            assert(s.slot(b2, a2));
            assert(s.clash(b1, a1, b2, a2));
        }
        assert(t.pend_ok(pt)) by {
            assert forall|i: int, x: int| #[trigger] t.slot(i, x) implies t.kid(i, x) != r by {
                assert(t.kid_ok(i, x, pt));
                let b = if i == r { n } else { i };
                let a = if i == r { x + h } else { x };
                if i != n && i != r {
                    assert(t.live(i));
                    assert(t.nodes@[i] == s.nodes@[i]);
                }
                assert(s.slot(b, a));
                assert(s.kid_ok(b, a, ps));
                assert(s.live(s.kid(b, a) as int));
            }
            if s.root is Some {
                assert(s.live(s.root->0 as int));
            }
            assert(s.live(sg as int));
        }
        assert(t.root_ok(pt)) by {
            if s.root is Some {
                let rt = s.root->0 as int;
                assert(s.live(rt));
                if rt != n {
                    assert(t.notes@[rt] == s.notes@[rt]);
                }
            }
        }
        s.lemma_sorted(ps);
        s.lemma_leaves_kept(t);
    }
}

} // verus!
