//! Fusing an underfull internal node with a sibling.

use crate::intrabal::links_extend;
use crate::map::BTreeMap;
use crate::node::{Node, Note, Pending};
use crate::slots::{links_at, links_insert, links_len, links_new, links_split_off, MAX_LEN};
use vstd::prelude::*;

verus! {

impl BTreeMap {
    /// `t` is `self` after internal node `v`, child `j + 1` of `n`, handed its
    /// children to its left sibling `u` and was given up.
    pub(crate) open spec fn intra_fused(&self, t: &BTreeMap, n: int, j: int, c: usize) -> bool {
        let u = self.kid(n, j) as int;
        let v = self.kid(n, j + 1) as int;
        &&& self.inv(Pending::Under(c))
        &&& (c == u || c == v)
        &&& self.slot(n, j)
        &&& j < self.links(n).len()
        &&& self.is_intra(u)
        &&& self.is_intra(v)
        &&& self.count(u) + self.count(v) == MAX_LEN
        &&& t.nodes@.len() == self.nodes@.len()
        &&& t.notes@.len() == self.notes@.len()
        &&& t.nodes@[v] is None
        &&& t.is_intra(u)
        &&& t.kidseq(u) == self.kids2(u, v)
        &&& t.sepseq(u) == self.seps2(u, self.sep(n, j), v)
        &&& t.unlinked(self, n, j)
        &&& (forall|i: int|
            0 <= i < self.nodes@.len() && i != u && i != v && i != n ==> #[trigger] t.nodes@[i]
                == self.nodes@[i])
        &&& (forall|i: int|
            0 <= i < self.nodes@.len() && i != u ==> #[trigger] t.notes@[i] == self.notes@[i])
        &&& t.note(u).level == self.note(u).level
        &&& t.note(u).first == self.note(u).first
        &&& t.note(u).after == self.note(v).after
        &&& t.free@ == self.free@.push(v as usize)
        &&& t.order == self.order
        &&& t.keys == self.keys
        &&& t.length == self.length
        &&& t.root == self.root
    }

    /// Fusing internal node `v` into its left sibling `u` under their parent `n`.
    pub(crate) proof fn lemma_intra_fuse(&self, t: &BTreeMap, n: int, j: int, c: usize)
        requires
            self.intra_fused(t, n, j, c),
            n <= usize::MAX,
        ensures
            t.inv(Pending::Under(n as usize)),
            t.held(self, n),
            t.count(n) == self.count(n) - 1,
            t.model() == self.model(),
    {
        let s = self;
        let ps = Pending::Under(c);
        let pt = Pending::Under(n as usize);
        let u = s.kid(n, j) as int;
        let v = s.kid(n, j + 1) as int;
        let ks = s.kids2(u, v);
        let ss = s.seps2(u, s.sep(n, j), v);
        s.lemma_run(c, n, j);
        s.lemma_unlinked(t, n, j);
        assert(s.slot(n, j + 1));
        assert(s.kid_ok(n, j, ps));
        assert(s.kid_ok(n, j + 1, ps));
        assert(s.live(n) && s.live(u) && s.live(v));
        assert(s.node_ok(n, ps) && s.node_ok(u, ps) && s.node_ok(v, ps));
        assert(t.kidseq(u).len() == ks.len());
        assert(ks.len() == s.kidseq(u).len() + s.kidseq(v).len());
        assert forall|x: int| 0 <= x < ks.len() implies #[trigger] t.kid(u, x) == ks[x] by {
            assert(t.kidseq(u)[x] == t.kid(u, x));
        }
        assert forall|x: int| 0 <= x < ks.len() - 1 implies #[trigger] t.sep(u, x) == ss[x] by {
            assert(t.sepseq(u)[x] == t.sep(u, x));
        }
        assert forall|i: int| #[trigger] t.live(i) <==> s.live(i) && i != v by {
            if 0 <= i < s.nodes@.len() && i != u && i != v && i != n {
                assert(t.nodes@[i] == s.nodes@[i]);
            }
        }
        assert forall|i: int| #[trigger] t.is_leaf(i) <==> s.is_leaf(i) by {
            if 0 <= i < s.nodes@.len() && i != u && i != v && i != n {
                assert(t.nodes@[i] == s.nodes@[i]);
            }
        }
        assert forall|i: int| #[trigger] t.is_intra(i) <==> s.is_intra(i) && i != v by {
            if 0 <= i < s.nodes@.len() && i != u && i != v && i != n {
                assert(t.nodes@[i] == s.nodes@[i]);
            }
        }
        assert forall|i: int| #[trigger] s.is_leaf(i) implies t.is_leaf(i) && t.leaf(i) == s.leaf(
            i,
        ) by {
            assert(t.nodes@[i] == s.nodes@[i]);
        }
        assert forall|g: int| 0 <= g < ks.len() implies t.notes@[#[trigger] ks[g] as int]
            == s.notes@[ks[g] as int] by {
            assert(s.live(ks[g] as int));
        }
        assert forall|i: int| #[trigger] t.live(i) implies t.node_ok(i, pt) by {
            assert(s.live(i));
            assert(s.node_ok(i, ps));
            if i != u {
                assert(t.notes@[i] == s.notes@[i]);
                if i != n {
                    assert(t.nodes@[i] == s.nodes@[i]);
                }
            }
        }
        assert forall|i: int, x: int| #[trigger] t.slot(i, x) implies t.kid_ok(i, x, pt) by {
            if i == u {
                assert(t.kid(u, x) == ks[x]);
                assert(s.live(ks[x] as int));
                if x < ks.len() - 1 {
                    assert(t.kid(u, x + 1) == ks[x + 1]);
                    assert(t.sep(u, x) == ss[x]);
                    assert(s.is_leaf(ss[x] as int));
                } else {
                    assert(ks.last() == ks[x]);
                }
            } else {
                assert(t.notes@[i] == s.notes@[i]);
                if i != n {
                    assert(t.nodes@[i] == s.nodes@[i]);
                }
                let x0 = if i == n && x > j { x + 1 } else { x };
                assert(s.slot(i, x0));
                assert(s.kid_ok(i, x0, ps));
                let k = s.kid(i, x0) as int;
                assert(t.kid(i, x) == k);
                assert(s.live(k));
                if k == v {
                    assert(s.clash(i, x0, n, j + 1));
                }
                if k != u {
                    assert(t.notes@[k] == s.notes@[k]);
                } else {
                    assert(s.clash(i, x0, n, j));
                }
                if x < t.links(i).len() {
                    let y0 = if i == n && x + 1 > j { x + 2 } else { x + 1 };
                    assert(s.slot(i, y0));
                    assert(s.kid_ok(i, y0, ps));
                    let k2 = s.kid(i, y0) as int;
                    assert(t.kid(i, x + 1) == k2);
                    assert(s.live(k2));
                    if k2 == v {
                        assert(s.clash(i, y0, n, j + 1));
                    }
                    if k2 != u {
                        assert(t.notes@[k2] == s.notes@[k2]);
                    }
                    assert(s.slot(i, y0 - 1));
                    assert(s.kid_ok(i, y0 - 1, ps));
                    assert(t.sep(i, x) == s.sep(i, y0 - 1));
                    assert(s.is_leaf(s.sep(i, y0 - 1) as int));
                }
            }
        }
        assert forall|i1: int, j1: int, i2: int, j2: int| #[trigger]
            t.clash(i1, j1, i2, j2) implies i1 == i2 && j1 == j2 by {
            let w1 = if i1 == u {
                s.hang(u, v, j1)
            } else if i1 == n && j1 > j {
                (i1, j1 + 1)
            } else {
                (i1, j1)
            };
            let w2 = if i2 == u {
                s.hang(u, v, j2)
            } else if i2 == n && j2 > j {
                (i2, j2 + 1)
            } else {
                (i2, j2)
            };
            if i1 == u {
                assert(t.kid(u, j1) == ks[j1]);
                assert(ks[j1] == s.kid(w1.0, w1.1));
            } else if i1 != n {
                assert(t.nodes@[i1] == s.nodes@[i1]);
            }
            if i2 == u {
                assert(t.kid(u, j2) == ks[j2]);
                assert(ks[j2] == s.kid(w2.0, w2.1));
            } else if i2 != n {
                assert(t.nodes@[i2] == s.nodes@[i2]);
            }
            assert(s.slot(w1.0, w1.1));
            assert(s.slot(w2.0, w2.1));
            assert(s.clash(w1.0, w1.1, w2.0, w2.1));
        }
        assert(t.root_ok(pt)) by {
            let r0 = s.root->0 as int;
            assert(s.live(r0));
            assert(t.notes@[r0] == s.notes@[r0]);
            if r0 != n {
                assert(t.nodes@[r0] == s.nodes@[r0]);
            }
        }
        assert(t.free_ok()) by {
            assert forall|x: int| 0 <= x < t.free@.len() implies (#[trigger] t.free@[x])
                < t.nodes@.len() && t.nodes@[t.free@[x] as int] is None by {
                if x < s.free@.len() {
                    let f = s.free@[x] as int;
                    assert(!s.live(f));
                    assert(!t.live(f));
                }
            }
            assert forall|x: int, y: int| 0 <= x < y < t.free@.len() implies #[trigger] t.free@[x]
                != #[trigger] t.free@[y] by {
                if y == s.free@.len() {
                    assert(!s.live(s.free@[x] as int));
                }
            }
        }
        assert(t.held(s, n)) by {
            assert forall|i: int|
                #[trigger] s.live(i) && s.note(i).level > s.note(n).level implies t.nodes@[i]
                == s.nodes@[i] && t.notes@[i] == s.notes@[i] by {}
            assert(t.notes@[n] == s.notes@[n]);
        }
        s.lemma_sorted(ps);
        s.lemma_leaves_kept(t);
    }

    /// Internal node `c`, one of the children `j` and `j + 1` of `n`, is one short
    /// and neither sibling can spare a child: child `j + 1` hands its children to
    /// child `j` and gives its slot up.
    pub(crate) fn intra_fuse(&mut self, n: usize, j: usize, u: usize, v: usize, Ghost(c): Ghost<usize>)
        requires
            old(self).inv(Pending::Under(c)),
            c == u || c == v,
            old(self).slot(n as int, j as int),
            j < old(self).links(n as int).len(),
            u == old(self).kid(n as int, j as int),
            v == old(self).kid(n as int, j + 1),
            old(self).is_intra(u as int),
            old(self).is_intra(v as int),
            old(self).count(u as int) + old(self).count(v as int) == MAX_LEN,
        ensures
            final(self).inv(Pending::Under(n)),
            final(self).held(old(self), n as int),
            final(self).count(n as int) == old(self).count(n as int) - 1,
            final(self).model() == old(self).model(),
            final(self).order == old(self).order,
    {
        let ghost pre = *self;
        proof {
            pre.lemma_run(c, n as int, j as int);
        }
        let m = match &self.nodes[n] {
            Some(Node::Intra(x)) => links_at(&x.heads, j).1,
            _ => 0,
        };
        let mut moved = links_new();
        let mut last: usize = 0;
        match &mut self.nodes[v] {
            Some(Node::Intra(x)) => {
                moved = links_split_off(&mut x.heads, 0);
                last = x.tail;
            },
            _ => {},
        }
        self.nodes[v] = None;
        self.free.push(v);
        match &mut self.nodes[u] {
            Some(Node::Intra(x)) => {
                let k = links_len(&x.heads);
                let old_tail = x.tail;
                links_insert(&mut x.heads, k, (old_tail, m));
                links_extend(&mut x.heads, &moved);
                x.tail = last;
            },
            _ => {},
        }
        let ghost m1 = *self;
        self.unlink(n, j);
        self.notes = Ghost(
            self.notes@.update(
                u as int,
                Note {
                    level: pre.note(u as int).level,
                    first: pre.note(u as int).first,
                    after: pre.note(v as int).after,
                },
            ),
        );
        proof {
            assert(pre.links(v as int).subrange(0, pre.links(v as int).len() as int)
                =~= pre.links(v as int));
            assert(self.nodes@[u as int] == m1.nodes@[u as int]);
            assert(self.nodes@[v as int] == m1.nodes@[v as int]);
            assert(self.links(u as int) =~= pre.links(u as int).push(
                (pre.intra(u as int).tail, m),
            ) + pre.links(v as int));
            assert(self.kidseq(u as int) =~= pre.kids2(u as int, v as int));
            assert(self.sepseq(u as int) =~= pre.seps2(u as int, m, v as int));
            assert forall|i: int|
                0 <= i < pre.nodes@.len() && i != u && i != v && i != n implies #[trigger] self.nodes@[i]
                == pre.nodes@[i] by {
                assert(self.nodes@[i] == m1.nodes@[i]);
            }
            pre.lemma_intra_fuse(self, n as int, j as int, c);
        }
    }
}

} // verus!
