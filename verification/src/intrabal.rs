//! Restoring an internal node that fell below its minimum by taking a child from
//! a neighbouring sibling.

use crate::map::BTreeMap;
use crate::node::{Node, Note, Pending};
use crate::slots::{
    links_at, links_at_mut, links_insert, links_len, links_of, links_remove, MAX_LEN, MIN_LEN,
};
use arrayvec::ArrayVec;
use vstd::prelude::*;

verus! {

/// Appends the pairs of `src` to `dst`.
pub(crate) fn links_extend(
    dst: &mut ArrayVec<(usize, usize), MAX_LEN>,
    src: &ArrayVec<(usize, usize), MAX_LEN>,
)
    requires
        links_of(*old(dst)).len() + links_of(*src).len() <= MAX_LEN,
    ensures
        links_of(*final(dst)) == links_of(*old(dst)) + links_of(*src),
{
    let n = links_len(src);
    let mut i: usize = 0;
    while i < n
        invariant
            i <= n,
            n == links_of(*src).len(),
            links_of(*old(dst)).len() + n <= MAX_LEN,
            links_of(*dst) == links_of(*old(dst)) + links_of(*src).subrange(0, i as int),
        decreases n - i,
    {
        let e = *links_at(src, i);
        let at = links_len(dst);
        links_insert(dst, at, e);
        assert(links_of(*dst) =~= links_of(*old(dst)) + links_of(*src).subrange(0, i + 1));
        i += 1;
    }
    assert(links_of(*src).subrange(0, n as int) =~= links_of(*src));
}

impl BTreeMap {
    /// The children of internal node `i`, in order.
    pub(crate) open spec fn kidseq(&self, i: int) -> Seq<usize> {
        Seq::new((self.links(i).len() + 1) as nat, |x: int| self.kid(i, x))
    }

    /// The separators of internal node `i`, in order.
    pub(crate) open spec fn sepseq(&self, i: int) -> Seq<usize> {
        Seq::new(self.links(i).len(), |x: int| self.sep(i, x))
    }

    /// The children of `u` and then of `v`.
    pub(crate) open spec fn kids2(&self, u: int, v: int) -> Seq<usize> {
        self.kidseq(u) + self.kidseq(v)
    }

    /// The separators of `u`, the one between `u` and `v`, and those of `v`.
    pub(crate) open spec fn seps2(&self, u: int, m: usize, v: int) -> Seq<usize> {
        self.sepseq(u).push(m) + self.sepseq(v)
    }

    /// The nodes `ks` stand side by side at one level, parted by the separators
    /// `ss`, and `aft` follows the last of them.
    pub(crate) open spec fn run_ok(&self, ks: Seq<usize>, ss: Seq<usize>, lvl: nat, aft: Option<usize>) -> bool {
        &&& ks.len() == ss.len() + 1
        &&& forall|g: int|
            0 <= g < ks.len() ==> self.live(#[trigger] ks[g] as int) && self.root != Some(ks[g])
                && self.note(ks[g] as int).level == lvl
        &&& forall|g: int|
            0 <= g < ss.len() ==> self.is_leaf(#[trigger] ss[g] as int) && self.root != Some(ss[g])
                && ss[g] == self.note(ks[g + 1] as int).first && self.note(ks[g] as int).after
                == Some(ss[g])
        &&& self.note(ks.last() as int).after == aft
        &&& forall|g: int, h: int| 0 <= g < h < ks.len() ==> ks[g] != ks[h]
    }

    /// Where child `g` of the run `kids2(u, v)` hangs.
    pub(crate) open spec fn hang(&self, u: int, v: int, g: int) -> (int, int) {
        if g < self.kidseq(u).len() {
            (u, g)
        } else {
            (v, g - self.kidseq(u).len())
        }
    }

    /// The children of two sibling internal nodes form one run.
    pub(crate) proof fn lemma_run(&self, c: usize, n: int, j: int)
        requires
            self.inv(Pending::Under(c)),
            self.slot(n, j),
            j < self.links(n).len(),
            self.is_intra(self.kid(n, j) as int),
            self.is_intra(self.kid(n, j + 1) as int),
        ensures
            self.run_ok(
                self.kids2(self.kid(n, j) as int, self.kid(n, j + 1) as int),
                self.seps2(
                    self.kid(n, j) as int,
                    self.sep(n, j),
                    self.kid(n, j + 1) as int,
                ),
                (self.note(n).level - 2) as nat,
                self.note(self.kid(n, j + 1) as int).after,
            ),
            self.note(n).level >= 2,
            self.note(self.kid(n, j) as int).level == self.note(n).level - 1,
            self.note(self.kid(n, j + 1) as int).level == self.note(n).level - 1,
            self.note(self.kids2(self.kid(n, j) as int, self.kid(n, j + 1) as int)[0] as int).first
                == self.note(self.kid(n, j) as int).first,
            self.kid(n, j) != self.kid(n, j + 1),
            self.kid(n, j) != n,
            self.kid(n, j + 1) != n,
            self.root != Some(self.kid(n, j)),
            self.root != Some(self.kid(n, j + 1)),
            self.note(self.kid(n, j) as int).after == Some(self.sep(n, j)),
            self.note(self.kid(n, j + 1) as int).first == self.sep(n, j),
            self.is_leaf(self.sep(n, j) as int),
            self.root != Some(self.sep(n, j)),
    {
        let ps = Pending::Under(c);
        let u = self.kid(n, j) as int;
        let v = self.kid(n, j + 1) as int;
        let ks = self.kids2(u, v);
        let ss = self.seps2(u, self.sep(n, j), v);
        let cu = self.kidseq(u).len() as int;
        assert(self.slot(n, j + 1));
        assert(self.kid_ok(n, j, ps));
        assert(self.kid_ok(n, j + 1, ps));
        assert(self.live(u) && self.live(v) && self.live(n));
        assert(self.node_ok(u, ps) && self.node_ok(v, ps) && self.node_ok(n, ps));
        if u == v {
            assert(self.clash(n, j, n, j + 1));
        }
        assert(self.slot(v, 0));
        assert(self.kid_ok(v, 0, ps));
        assert(self.slot(u, 0));
        assert(self.kid_ok(u, 0, ps));
        assert forall|g: int| 0 <= g < ks.len() implies self.live(#[trigger] ks[g] as int)
            && self.root != Some(ks[g]) && self.note(ks[g] as int).level == (self.note(n).level
            - 2) as nat by {
            let w = self.hang(u, v, g);
            assert(self.slot(w.0, w.1));
            assert(self.kid_ok(w.0, w.1, ps));
            assert(ks[g] == self.kid(w.0, w.1));
        }
        assert forall|g: int| 0 <= g < ss.len() implies self.is_leaf(#[trigger] ss[g] as int)
            && self.root != Some(ss[g]) && ss[g] == self.note(ks[g + 1] as int).first
            && self.note(ks[g] as int).after == Some(ss[g]) by {
            let w = self.hang(u, v, g);
            assert(self.slot(w.0, w.1));
            assert(self.kid_ok(w.0, w.1, ps));
            assert(ks[g] == self.kid(w.0, w.1));
            let w2 = self.hang(u, v, g + 1);
            assert(self.slot(w2.0, w2.1));
            assert(ks[g + 1] == self.kid(w2.0, w2.1));
            if g < cu - 1 {
                assert(ss[g] == self.sep(u, g));
            } else if g == cu - 1 {
                assert(ss[g] == self.sep(n, j));
            } else {
                assert(ss[g] == self.sep(v, g - cu));
            }
        }
        assert(self.note(ks.last() as int).after == self.note(v).after) by {
            let z = self.links(v).len() as int;
            assert(self.slot(v, z));
            assert(self.kid_ok(v, z, ps));
            assert(ks.last() == self.kid(v, z));
        }
        assert forall|g: int, h: int| 0 <= g < h < ks.len() implies ks[g] != ks[h] by {
            let w = self.hang(u, v, g);
            let w2 = self.hang(u, v, h);
            assert(self.slot(w.0, w.1));
            assert(self.slot(w2.0, w2.1));
            assert(ks[g] == self.kid(w.0, w.1));
            assert(ks[h] == self.kid(w2.0, w2.1));
            if ks[g] == ks[h] {
                assert(self.clash(w.0, w.1, w2.0, w2.1));
            }
        }
        assert(ks[0] == self.kid(u, 0));
    }

    /// `t` is `self` after the sibling internal nodes `u` and `v`, children `j` and
    /// `j + 1` of `n`, shared out their children anew, keeping their order.
    pub(crate) open spec fn intra_shift(&self, t: &BTreeMap, n: int, j: int, c: usize) -> bool {
        let u = self.kid(n, j) as int;
        let v = self.kid(n, j + 1) as int;
        let ss = self.seps2(u, self.sep(n, j), v);
        let m = ss[t.count(u) - 1];
        &&& self.inv(Pending::Under(c))
        &&& (c == u || c == v)
        &&& self.slot(n, j)
        &&& j < self.links(n).len()
        &&& self.is_intra(u)
        &&& self.is_intra(v)
        &&& t.nodes@.len() == self.nodes@.len()
        &&& t.notes@.len() == self.notes@.len()
        &&& t.is_intra(u)
        &&& t.is_intra(v)
        &&& t.is_intra(n)
        &&& t.kids2(u, v) == self.kids2(u, v)
        &&& t.seps2(u, m, v) == ss
        &&& MIN_LEN <= t.count(u) <= MAX_LEN
        &&& MIN_LEN <= t.count(v) <= MAX_LEN
        &&& t.links(n) == self.links(n).update(j, (u as usize, m))
        &&& t.intra(n).tail == self.intra(n).tail
        &&& (forall|i: int|
            0 <= i < self.nodes@.len() && i != u && i != v && i != n ==> #[trigger] t.nodes@[i]
                == self.nodes@[i])
        &&& (forall|i: int|
            0 <= i < self.nodes@.len() && i != u && i != v ==> #[trigger] t.notes@[i]
                == self.notes@[i])
        &&& t.note(u).level == self.note(u).level
        &&& t.note(u).first == self.note(u).first
        &&& t.note(u).after == Some(m)
        &&& t.note(v).level == self.note(v).level
        &&& t.note(v).first == m
        &&& t.note(v).after == self.note(v).after
        &&& t.free == self.free
        &&& t.order == self.order
        &&& t.keys == self.keys
        &&& t.length == self.length
        &&& t.root == self.root
    }

    /// Two sibling internal nodes share out their children anew.
    #[verifier::rlimit(50)]
    pub(crate) proof fn lemma_intra_shift(&self, t: &BTreeMap, n: int, j: int, c: usize)
        requires
            self.intra_shift(t, n, j, c),
        ensures
            t.inv(Pending::Settled),
            t.model() == self.model(),
            t.held(self, n),
    {
        let s = self;
        let ps = Pending::Under(c);
        let pt = Pending::Settled;
        let u = s.kid(n, j) as int;
        let v = s.kid(n, j + 1) as int;
        let ks = s.kids2(u, v);
        let ss = s.seps2(u, s.sep(n, j), v);
        let cu = t.count(u);
        let cs = s.count(u);
        let m = ss[cu - 1];
        s.lemma_run(c, n, j);
        assert(t.kidseq(u).len() == cu);
        assert(ks.len() == t.kidseq(u).len() + t.kidseq(v).len());
        assert(t.seps2(u, m, v).len() == t.sepseq(u).len() + 1 + t.sepseq(v).len());
        assert(s.live(n) && s.live(u) && s.live(v));
        assert(s.node_ok(n, ps) && s.node_ok(u, ps) && s.node_ok(v, ps));
        assert forall|x: int| 0 <= x < cu implies #[trigger] t.kid(u, x) == ks[x] by {
            assert(t.kidseq(u)[x] == t.kid(u, x));
            assert(t.kids2(u, v)[x] == t.kidseq(u)[x]);
        }
        assert forall|x: int| 0 <= x < t.count(v) implies #[trigger] t.kid(v, x) == ks[cu + x] by {
            assert(t.kidseq(v)[x] == t.kid(v, x));
            assert(t.kids2(u, v)[cu + x] == t.kidseq(v)[x]);
        }
        assert forall|x: int| 0 <= x < cu - 1 implies #[trigger] t.sep(u, x) == ss[x] by {
            assert(t.sepseq(u)[x] == t.sep(u, x));
            assert(t.seps2(u, m, v)[x] == t.sepseq(u).push(m)[x]);
        }
        assert forall|x: int| 0 <= x < t.count(v) - 1 implies #[trigger] t.sep(v, x) == ss[cu
            + x] by {
            assert(t.sepseq(v)[x] == t.sep(v, x));
            assert(t.seps2(u, m, v)[cu + x] == t.sepseq(v)[x]);
        }
        assert forall|i: int| #[trigger] t.live(i) == s.live(i) && t.is_leaf(i) == s.is_leaf(i)
            && t.is_intra(i) == s.is_intra(i) by {
            if 0 <= i < s.nodes@.len() && i != u && i != v && i != n {
                assert(t.nodes@[i] == s.nodes@[i]);
            }
        }
        assert forall|i: int| #[trigger] s.is_leaf(i) implies t.is_leaf(i) && t.leaf(i) == s.leaf(
            i,
        ) by {
            assert(t.nodes@[i] == s.nodes@[i]);
        }
        assert forall|g: int| 0 <= g < ks.len() implies t.notes@[#[trigger] ks[g] as int]
            == s.notes@[ks[g] as int] by {
            assert(s.live(ks[g] as int));
        }
        assert forall|i: int| #[trigger] t.live(i) implies t.node_ok(i, pt) by {
            assert(s.live(i));
            assert(s.node_ok(i, ps));
            if i != u && i != v {
                assert(t.notes@[i] == s.notes@[i]);
                if i != n {
                    assert(t.nodes@[i] == s.nodes@[i]);
                }
            }
        }
        assert forall|i: int, x: int| #[trigger] t.slot(i, x) implies t.kid_ok(i, x, pt) by {
            if i == u {
                assert(t.kid(u, x) == ks[x]);
                assert(s.live(ks[x] as int));
                if x < cu - 1 {
                    assert(t.kid(u, x + 1) == ks[x + 1]);
                    assert(t.sep(u, x) == ss[x]);
                    assert(s.is_leaf(ss[x] as int));
                } else {
                    assert(s.is_leaf(ss[x] as int));
                }
            } else if i == v {
                assert(t.kid(v, x) == ks[cu + x]);
                assert(s.live(ks[cu + x] as int));
                if x < t.count(v) - 1 {
                    assert(t.kid(v, x + 1) == ks[cu + x + 1]);
                    assert(t.sep(v, x) == ss[cu + x]);
                    assert(s.is_leaf(ss[cu + x] as int));
                } else {
                    assert(ks.last() == ks[cu + x]);
                }
                if x == 0 {
                    assert(s.is_leaf(ss[cu - 1] as int));
                }
            } else {
                if i != n {
                    assert(t.nodes@[i] == s.nodes@[i]);
                }
                assert(t.notes@[i] == s.notes@[i]);
                assert(s.slot(i, x));
                assert(s.kid_ok(i, x, ps));
                let k = s.kid(i, x) as int;
                assert(t.kid(i, x) == k);
                assert(s.live(k));
                if k == u {
                    assert(s.clash(i, x, n, j));
                }
                if k == v {
                    assert(s.clash(i, x, n, j + 1));
                }
                if k != u && k != v {
                    assert(t.notes@[k] == s.notes@[k]);
                }
                if x < s.links(i).len() {
                    assert(s.slot(i, x + 1));
                    assert(s.kid_ok(i, x + 1, ps));
                    let k2 = s.kid(i, x + 1) as int;
                    assert(t.kid(i, x + 1) == k2);
                    assert(s.live(k2));
                    if k2 == u {
                        assert(s.clash(i, x + 1, n, j));
                    }
                    if k2 == v {
                        assert(s.clash(i, x + 1, n, j + 1));
                    }
                    if k2 != u && k2 != v {
                        assert(t.notes@[k2] == s.notes@[k2]);
                    }
                    assert(s.is_leaf(s.sep(i, x) as int));
                    assert(s.is_leaf(ss[cu - 1] as int));
                }
            }
        }
        assert forall|i1: int, j1: int, i2: int, j2: int| #[trigger]
            t.clash(i1, j1, i2, j2) implies i1 == i2 && j1 == j2 by {
            let g1 = if i1 == u { j1 } else { cu + j1 };
            let g2 = if i2 == u { j2 } else { cu + j2 };
            let in1 = i1 == u || i1 == v;
            let in2 = i2 == u || i2 == v;
            if in1 {
                assert(t.kid(i1, j1) == ks[g1]);
                let w = s.hang(u, v, g1);
                assert(s.slot(w.0, w.1));
                assert(ks[g1] == s.kid(w.0, w.1));
            } else {
                if i1 != n {
                    assert(t.nodes@[i1] == s.nodes@[i1]);
                }
                assert(s.slot(i1, j1));
                assert(t.kid(i1, j1) == s.kid(i1, j1));
            }
            if in2 {
                assert(t.kid(i2, j2) == ks[g2]);
                let w = s.hang(u, v, g2);
                assert(s.slot(w.0, w.1));
                assert(ks[g2] == s.kid(w.0, w.1));
            } else {
                if i2 != n {
                    assert(t.nodes@[i2] == s.nodes@[i2]);
                }
                assert(s.slot(i2, j2));
                assert(t.kid(i2, j2) == s.kid(i2, j2));
            }
            if in1 && in2 {
                if g1 != g2 {
                    assert(ks[g1] != ks[g2]);
                }
            } else if in1 {
                let w = s.hang(u, v, g1);
                assert(s.clash(w.0, w.1, i2, j2));
            } else if in2 {
                let w = s.hang(u, v, g2);
                assert(s.clash(i1, j1, w.0, w.1));
            } else {
                assert(s.clash(i1, j1, i2, j2));
            }
        }
        assert(t.root_ok(pt)) by {
            let r0 = s.root->0 as int;
            assert(s.live(r0));
            assert(t.notes@[r0] == s.notes@[r0]);
        }
        assert(t.free_ok()) by {
            assert forall|a: int| 0 <= a < t.free@.len() implies (#[trigger] t.free@[a])
                < t.nodes@.len() && t.nodes@[t.free@[a] as int] is None by {
                let f = s.free@[a] as int;
                assert(!s.live(f));
                assert(!t.live(f));
            }
        }
        assert(t.held(s, n)) by {
            assert forall|i: int|
                #[trigger] s.live(i) && s.note(i).level > s.note(n).level implies t.nodes@[i]
                == s.nodes@[i] && t.notes@[i] == s.notes@[i] by {}
            assert(t.notes@[n] == s.notes@[n]);
        }
        s.lemma_sorted(ps);
        s.lemma_leaves_kept(t);
    }

    /// Internal node `c`, child `j + 1` of `n`, is one short and its left sibling
    /// `a` has a child to spare: the last child of `a` becomes the first of `c`.
    pub(crate) fn intra_from_left(&mut self, n: usize, j: usize, a: usize, c: usize)
        requires
            old(self).inv(Pending::Under(c)),
            old(self).slot(n as int, j as int),
            j < old(self).links(n as int).len(),
            a == old(self).kid(n as int, j as int),
            c == old(self).kid(n as int, j + 1),
            old(self).is_intra(a as int),
            old(self).is_intra(c as int),
            old(self).count(a as int) > MIN_LEN,
            old(self).count(c as int) == MIN_LEN - 1,
        ensures
            final(self).inv(Pending::Settled),
            final(self).model() == old(self).model(),
            final(self).held(old(self), n as int),
            final(self).order == old(self).order,
    {
        let ghost pre = *self;
        proof {
            pre.lemma_run(c, n as int, j as int);
            assert(pre.live(a as int));
            assert(pre.node_ok(a as int, Pending::Under(c)));
        }
        let m = match &self.nodes[n] {
            Some(Node::Intra(x)) => links_at(&x.heads, j).1,
            _ => 0,
        };
        let mut moved: usize = 0;
        let mut sl: usize = 0;
        match &mut self.nodes[a] {
            Some(Node::Intra(x)) => {
                let k = links_len(&x.heads);
                let e = links_remove(&mut x.heads, k - 1);
                moved = x.tail;
                x.tail = e.0;
                sl = e.1;
            },
            _ => {},
        }
        match &mut self.nodes[c] {
            Some(Node::Intra(x)) => {
                links_insert(&mut x.heads, 0, (moved, m));
            },
            _ => {},
        }
        match &mut self.nodes[n] {
            Some(Node::Intra(x)) => {
                let e = links_at_mut(&mut x.heads, j);
                e.1 = sl;
            },
            _ => {},
        }
        self.notes = Ghost(
            self.notes@.update(
                a as int,
                Note {
                    level: pre.note(a as int).level,
                    first: pre.note(a as int).first,
                    after: Some(sl),
                },
            ).update(
                c as int,
                Note {
                    level: pre.note(c as int).level,
                    first: sl,
                    after: pre.note(c as int).after,
                },
            ),
        );
        proof {
            assert(self.kids2(a as int, c as int) =~= pre.kids2(a as int, c as int));
            assert(self.seps2(a as int, sl, c as int) =~= pre.seps2(a as int, m, c as int));
            assert(pre.seps2(a as int, m, c as int)[self.count(a as int) - 1] == sl);
            pre.lemma_intra_shift(self, n as int, j as int, c);
        }
    }

    /// Internal node `c`, child `j` of `n`, is one short and its right sibling `b`
    /// has a child to spare: the first child of `b` becomes the last of `c`.
    pub(crate) fn intra_from_right(&mut self, n: usize, j: usize, c: usize, b: usize)
        requires
            old(self).inv(Pending::Under(c)),
            old(self).slot(n as int, j as int),
            j < old(self).links(n as int).len(),
            c == old(self).kid(n as int, j as int),
            b == old(self).kid(n as int, j + 1),
            old(self).is_intra(b as int),
            old(self).is_intra(c as int),
            old(self).count(b as int) > MIN_LEN,
            old(self).count(c as int) == MIN_LEN - 1,
        ensures
            final(self).inv(Pending::Settled),
            final(self).model() == old(self).model(),
            final(self).held(old(self), n as int),
            final(self).order == old(self).order,
    {
        let ghost pre = *self;
        proof {
            pre.lemma_run(c, n as int, j as int);
            assert(pre.live(b as int));
            assert(pre.node_ok(b as int, Pending::Under(c)));
        }
        let m = match &self.nodes[n] {
            Some(Node::Intra(x)) => links_at(&x.heads, j).1,
            _ => 0,
        };
        let mut moved: usize = 0;
        let mut sb: usize = 0;
        match &mut self.nodes[b] {
            Some(Node::Intra(x)) => {
                let e = links_remove(&mut x.heads, 0);
                moved = e.0;
                sb = e.1;
            },
            _ => {},
        }
        match &mut self.nodes[c] {
            Some(Node::Intra(x)) => {
                let k = links_len(&x.heads);
                let last = x.tail;
                links_insert(&mut x.heads, k, (last, m));
                x.tail = moved;
            },
            _ => {},
        }
        match &mut self.nodes[n] {
            Some(Node::Intra(x)) => {
                let e = links_at_mut(&mut x.heads, j);
                e.1 = sb;
            },
            _ => {},
        }
        self.notes = Ghost(
            self.notes@.update(
                c as int,
                Note {
                    level: pre.note(c as int).level,
                    first: pre.note(c as int).first,
                    after: Some(sb),
                },
            ).update(
                b as int,
                Note {
                    level: pre.note(b as int).level,
                    first: sb,
                    after: pre.note(b as int).after,
                },
            ),
        );
        proof {
            assert(self.kids2(c as int, b as int) =~= pre.kids2(c as int, b as int));
            assert(self.seps2(c as int, sb, b as int) =~= pre.seps2(c as int, m, b as int));
            assert(pre.seps2(c as int, m, b as int)[self.count(c as int) - 1] == sb);
            pre.lemma_intra_shift(self, n as int, j as int, c);
        }
    }
}

} // verus!
