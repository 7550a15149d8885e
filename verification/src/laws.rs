//! What holds of every loaded tree: the listing is a permutation, the walk
//! along the tour is one cycle through all nodes, and betweenness does not
//! depend on where the cycle is cut open.

use vstd::prelude::*;
use crate::cyclic::{lemma_between_rotates, lemma_between_swaps};
use crate::order::is_permutation;
use crate::tree::TwoLevelTree;

verus! {

/// Position `p` moved `k` places forwards on a cycle of `n` places, for at
/// most one round.
pub open spec fn ahead(p: int, k: int, n: int) -> int {
    if p + k < n {
        p + k
    } else {
        p + k - n
    }
}

/// Position `p` moved `k` places backwards on a cycle of `n` places, for
/// at most one round.
pub open spec fn behind(p: int, k: int, n: int) -> int {
    if p - k >= 0 {
        p - k
    } else {
        p - k + n
    }
}

impl TwoLevelTree {
    /// The node reached from `v` after `k` steps along the tour.
    pub open spec fn walk(&self, v: int, k: nat) -> int
        decreases k,
    {
        if k == 0 {
            v
        } else {
            self.succ(self.walk(v, (k - 1) as nat)) as int
        }
    }

    /// The node reached from `v` after `k` steps against the tour.
    pub open spec fn walk_back(&self, v: int, k: nat) -> int
        decreases k,
    {
        if k == 0 {
            v
        } else {
            self.pred(self.walk_back(v, (k - 1) as nat)) as int
        }
    }

    /// Whether the walk from `v` meets `x` before it is back at `v`.
    pub open spec fn reaches(&self, v: int, x: int) -> bool {
        exists|k: nat| k < self.spec_len() && #[trigger] self.walk(v, k) == x
    }

    /// The listing of a loaded tree names every node exactly once, and
    /// `rank` is the position of a node in it.
    pub proof fn lemma_listing(&self)
        requires
            self.wf(),
            self.is_attached(),
        ensures
            self@.len() == self.spec_len(),
            is_permutation(self@),
            forall|v: int|
                0 <= v < self.spec_len() ==> 0 <= #[trigger] self.rank(v) < self.spec_len()
                    && self@[self.rank(v)] == v,
            forall|p: int|
                0 <= p < self.spec_len() ==> (#[trigger] self@[p]) < self.spec_len() && self.rank(
                    self@[p] as int,
                ) == p,
    {
        assert forall|i: int, j: int| 0 <= i < j < self@.len() implies self@[i] != self@[j] by {
            assert(self.rank@[self.listing@[i] as int] == i);
            assert(self.rank@[self.listing@[j] as int] == j);
        }
    }

    /// Every vertex of a loaded tree belongs to exactly one segment, lies
    /// inside the range of the listing that its segment covers, and its
    /// stored links, read through the segment's flag, lead to its two
    /// neighbours on the tour.
    pub proof fn lemma_vertex(&self, v: int)
        requires
            self.wf(),
            self.is_attached(),
            0 <= v < self.spec_len(),
        ensures
            ({
                let x = self.vertices_view()[v];
                let g = self.parents_view()[x.parent as int];
                &&& x.index == v
                &&& x.parent < self.parents_view().len()
                &&& self.spec_start(x.parent as int) <= self.rank(v) < self.spec_start(
                    x.parent as int,
                ) + g.size
                &&& x.fwd(g.reverse) == self.succ(v)
                &&& x.bwd(g.reverse) == self.pred(v)
                &&& x.seq_id == (if g.reverse {
                    self.spec_start(x.parent as int) + g.size - 1 - self.rank(v)
                } else {
                    self.rank(v) - self.spec_start(x.parent as int)
                })
                &&& self.succ(v) < self.spec_len()
                &&& self.pred(v) < self.spec_len()
                &&& self.pred(self.succ(v) as int) == v
                &&& self.succ(self.pred(v) as int) == v
            }),
    {
        assert(self.vertex_ok(v));
        let p = self.rank@[v];
        let n = self.n();
        let q = if p + 1 < n {
            p + 1
        } else {
            0
        };
        let r = if p > 0 {
            p - 1
        } else {
            n - 1
        };
        assert(self.rank@[self.listing@[q] as int] == q);
        assert(self.rank@[self.listing@[r] as int] == r);
    }

    /// The segments of a loaded tree cover the listing one after the other
    /// in ring order, and the ring is closed.
    pub proof fn lemma_parent(&self, s: int)
        requires
            self.wf(),
            self.is_attached(),
            0 <= s < self.parents_view().len(),
        ensures
            ({
                let g = self.parents_view()[s];
                let m = self.parents_view().len();
                &&& g.id < m
                &&& g.next < m
                &&& g.prev < m
                &&& self.spec_ring(g.id as int) == s
                &&& 0 <= self.spec_ring(s) < m
                &&& self.parents_view()[self.spec_ring(s)].id == s
                &&& self.parents_view()[g.next as int].id == (if g.id + 1 < m {
                    g.id + 1
                } else {
                    0
                })
                &&& self.parents_view()[g.prev as int].id == (if g.id > 0 {
                    g.id - 1
                } else {
                    m - 1
                })
                &&& 0 <= self.spec_start(s)
                &&& self.spec_start(s) + g.size <= self.spec_len()
                &&& g.id == 0 ==> self.spec_start(s) == 0
                &&& g.id + 1 < m ==> self.spec_start(g.next as int) == self.spec_start(s) + g.size
                &&& g.id + 1 == m ==> self.spec_start(s) + g.size == self.spec_len()
                &&& g.size > 0 ==> g.spec_head() == self@[self.spec_start(s)] && g.spec_tail()
                    == self@[self.spec_start(s) + g.size - 1]
            }),
    {
        assert(self.parent_ok(s));
        assert(self.link_ok(s));
        assert(self.ring@[s] < self.m());
        let g = self.parents@[s];
        let k = g.id as int;
        assert(self.ring@[self.ring_next(k)] < self.m());
        assert(self.ring@[self.ring_prev(k)] < self.m());
        if k + 1 < self.m() {
            let t = self.ring@[k + 1] as int;
            assert(self.parent_ok(t));
            assert(self.ring@[k] == s);
        }
    }

    /// `k` steps along the tour lead `k` places forwards in the listing,
    /// `k` steps against it lead `k` places backwards.
    pub proof fn lemma_walk(&self, v: int, k: nat)
        requires
            self.wf(),
            self.is_attached(),
            0 <= v < self.spec_len(),
            k <= self.spec_len(),
        ensures
            0 <= self.walk(v, k) < self.spec_len(),
            0 <= self.walk_back(v, k) < self.spec_len(),
            self.walk(v, k) == self@[ahead(self.rank(v), k as int, self.spec_len() as int)],
            self.walk_back(v, k) == self@[behind(self.rank(v), k as int, self.spec_len() as int)],
        decreases k,
    {
        let n = self.spec_len() as int;
        self.lemma_listing();
        if k == 0 {
        } else {
            self.lemma_walk(v, (k - 1) as nat);
            let a = self.walk(v, (k - 1) as nat);
            let b = self.walk_back(v, (k - 1) as nat);
            assert(self.rank(a) == ahead(self.rank(v), k - 1, n));
            assert(self.rank(b) == behind(self.rank(v), k - 1, n));
        }
    }

    /// The tour is one cycle through all nodes: a walk from any node is
    /// back at that node after as many steps as there are nodes, and not
    /// earlier; it passes every node.
    pub proof fn lemma_round_trip(&self, v: int)
        requires
            self.wf(),
            self.is_attached(),
            0 <= v < self.spec_len(),
        ensures
            self.walk(v, self.spec_len()) == v,
            self.walk_back(v, self.spec_len()) == v,
            forall|k: nat| 0 < k < self.spec_len() ==> #[trigger] self.walk(v, k) != v,
            forall|k: nat| 0 < k < self.spec_len() ==> #[trigger] self.walk_back(v, k) != v,
            forall|x: int| 0 <= x < self.spec_len() ==> #[trigger] self.reaches(v, x),
    {
        let n = self.spec_len() as int;
        self.lemma_listing();
        self.lemma_walk(v, self.spec_len());
        assert forall|k: nat| 0 < k < self.spec_len() implies #[trigger] self.walk(v, k) != v by {
            self.lemma_walk(v, k);
            let p = ahead(self.rank(v), k as int, n);
            assert(self.rank(self@[p] as int) == p);
        }
        assert forall|k: nat| 0 < k < self.spec_len() implies #[trigger] self.walk_back(v, k)
            != v by {
            self.lemma_walk(v, k);
            let p = ahead(self.rank(v), k as int, n);
            let q = behind(self.rank(v), k as int, n);
            assert(self.rank(self@[p] as int) == p);
            assert(self.rank(self@[q] as int) == q);
        }
        assert forall|x: int| 0 <= x < self.spec_len() implies #[trigger] self.reaches(v, x) by {
            let d = self.rank(x) - self.rank(v);
            let k: nat = (if d >= 0 {
                d
            } else {
                d + n
            }) as nat;
            self.lemma_walk(v, k);
            assert(self.walk(v, k) == x);
        }
    }

    /// After an order has been loaded, a walk along the tour reads the
    /// order forwards and a walk against it reads the order backwards, each
    /// from whatever node it starts at, and after as many steps as there are
    /// nodes either walk is back at its start.
    pub proof fn lemma_walk_reads_order(&self, order: Seq<usize>, i: int, k: nat)
        requires
            self.wf(),
            self.is_attached(),
            self@ == order,
            0 <= i < order.len(),
            k <= order.len(),
        ensures
            self.walk(order[i] as int, k) == order[ahead(i, k as int, order.len() as int)],
            self.walk_back(order[i] as int, k) == order[behind(i, k as int, order.len() as int)],
            self.walk(order[i] as int, order.len()) == order[i],
            self.walk_back(order[i] as int, order.len()) == order[i],
    {
        self.lemma_listing();
        self.lemma_walk(order[i] as int, k);
        self.lemma_walk(order[i] as int, order.len());
    }

    /// For three different nodes betweenness is the same whichever of them
    /// the walk starts from, and exactly one of the two orders of the other
    /// two is the order of the walk.
    pub proof fn lemma_between_laws(&self, a: int, b: int, c: int)
        requires
            self.wf(),
            self.is_attached(),
            0 <= a < self.spec_len(),
            0 <= b < self.spec_len(),
            0 <= c < self.spec_len(),
            a != b,
            b != c,
            c != a,
        ensures
            self.is_between(a, b, c) == self.is_between(b, c, a),
            self.is_between(b, c, a) == self.is_between(c, a, b),
            self.is_between(a, b, c) == !self.is_between(a, c, b),
    {
        self.lemma_listing();
        lemma_between_rotates(self.rank(a), self.rank(b), self.rank(c));
        lemma_between_swaps(self.rank(a), self.rank(b), self.rank(c));
    }

    /// Betweenness read as a walk: `b` lies between `a` and `c` exactly if
    /// the walk from `a` needs fewer steps to `b` than to `c`.
    pub proof fn lemma_between_walk(&self, a: int, b: int, c: int, i: nat, j: nat)
        requires
            self.wf(),
            self.is_attached(),
            0 <= a < self.spec_len(),
            i < self.spec_len(),
            j < self.spec_len(),
            self.walk(a, i) == b,
            self.walk(a, j) == c,
        ensures
            self.is_between(a, b, c) == (i < j),
    {
        let n = self.spec_len() as int;
        self.lemma_listing();
        self.lemma_walk(a, i);
        self.lemma_walk(a, j);
        let p = self.rank(a);
        assert(self.rank(b) == ahead(p, i as int, n));
        assert(self.rank(c) == ahead(p, j as int, n));
    }
}

} // verus!
