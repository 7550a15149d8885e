//! Loading an explicit order into the tree.

use vstd::prelude::*;
use vstd::arithmetic::div_mod::{
    lemma_div_is_ordered,
    lemma_fundamental_div_mod,
    lemma_fundamental_div_mod_converse,
    lemma_mod_pos_bound,
};
use crate::cyclic::{after, before};
use crate::order::{is_permutation, lemma_permutation_onto, occurs, TourOrder};
use crate::parent::ParentVertex;
use crate::tree::TwoLevelTree;
use crate::vertex::{TltVertex, DETACHED};

verus! {

/// The position at which group `s` begins when `n` nodes are dealt out in
/// groups of `cap`.
pub open spec fn group_start(s: int, cap: int, n: int) -> int {
    if s * cap <= n {
        s * cap
    } else {
        n
    }
}

/// The record of the vertex at position `i` of a freshly loaded order.
pub open spec fn loaded_vertex(order: Seq<usize>, i: int, cap: int) -> TltVertex {
    TltVertex {
        index: order[i],
        seq_id: (i % cap) as usize,
        visited: false,
        prev: before(order, i),
        next: after(order, i),
        parent: (i / cap) as usize,
    }
}

/// The record of segment `s` of `m` after an order was loaded in groups of
/// `cap`.
pub open spec fn loaded_parent(order: Seq<usize>, s: int, cap: int, m: int) -> ParentVertex {
    let lo = group_start(s, cap, order.len() as int);
    let hi = group_start(s + 1, cap, order.len() as int);
    ParentVertex {
        id: s as usize,
        size: (hi - lo) as usize,
        max_size: cap as usize,
        reverse: false,
        prev: (if s == 0 {
            m - 1
        } else {
            s - 1
        }) as usize,
        next: (if s + 1 < m {
            s + 1
        } else {
            0
        }) as usize,
        first: if hi > lo {
            order[lo]
        } else {
            DETACHED
        },
        last: if hi > lo {
            order[hi - 1]
        } else {
            DETACHED
        },
    }
}

/// Consecutive groups lie one behind the other and stay inside `0..n`.
pub proof fn lemma_group_start(s: int, cap: int, n: int)
    requires
        0 <= s,
        cap > 0,
        0 <= n,
    ensures
        0 <= group_start(s, cap, n) <= group_start(s + 1, cap, n) <= n,
        group_start(s + 1, cap, n) - group_start(s, cap, n) <= cap,
        group_start(0, cap, n) == 0,
        s * cap <= n ==> group_start(s, cap, n) == s * cap,
        (s + 1) * cap == s * cap + cap,
        s > n / cap ==> group_start(s, cap, n) == n,
{
    assert((s + 1) * cap == s * cap + cap) by (nonlinear_arith);
    assert(0 <= s * cap) by (nonlinear_arith)
        requires
            0 <= s,
            cap > 0,
    ;
    if s > n / cap {
        lemma_fundamental_div_mod(n, cap);
        lemma_mod_pos_bound(n, cap);
        assert(s * cap >= (n / cap + 1) * cap) by (nonlinear_arith)
            requires
                s >= n / cap + 1,
                cap > 0,
        ;
        assert((n / cap + 1) * cap == cap * (n / cap) + cap) by (nonlinear_arith);
    }
}

/// Position `i` falls into group `i / cap`, at offset `i % cap`.
pub proof fn lemma_group_of(i: int, cap: int, n: int)
    requires
        0 <= i < n,
        cap > 0,
    ensures
        0 <= i / cap <= n / cap,
        0 <= i % cap < cap,
        group_start(i / cap, cap, n) == (i / cap) * cap,
        group_start(i / cap, cap, n) + i % cap == i,
        i < group_start(i / cap + 1, cap, n),
{
    lemma_fundamental_div_mod(i, cap);
    lemma_mod_pos_bound(i, cap);
    lemma_div_is_ordered(i, n, cap);
    lemma_div_is_ordered(0, i, cap);
    assert(cap * (i / cap) == (i / cap) * cap) by (nonlinear_arith);
    assert((i / cap + 1) * cap == (i / cap) * cap + cap) by (nonlinear_arith);
}

impl TwoLevelTree {
    /// Records that were filled in from an order, group by group, form a
    /// well-formed tree whose listing is that order.
    proof fn lemma_loaded(&self, ord: Seq<usize>, cap: int)
        requires
            0 < cap <= usize::MAX,
            self.m() <= usize::MAX,
            self.n() <= usize::MAX,
            self.m() == self.n() / cap + 1,
            ord.len() == self.n(),
            is_permutation(ord),
            self.attached,
            self.listing@ == ord,
            self.rank@.len() == self.n(),
            self.ring@ == Seq::new(self.m() as nat, |j: int| j as usize),
            self.base@ == Seq::new(self.m() as nat, |s: int| group_start(s, cap, self.n())),
            forall|i: int| 0 <= i < self.n() ==> self.rank@[#[trigger] ord[i] as int] == i,
            forall|i: int|
                0 <= i < self.n() ==> self.vertices@[ord[i] as int] == #[trigger] loaded_vertex(
                    ord,
                    i,
                    cap,
                ),
            forall|s: int|
                0 <= s < self.m() ==> (#[trigger] self.parents@[s]) == loaded_parent(
                    ord,
                    s,
                    cap,
                    self.m(),
                ),
        ensures
            self.wf(),
    {
        let n = self.n();
        let m = self.m();
        lemma_permutation_onto(ord);
        lemma_group_start(0, cap, n);
        lemma_group_start(m, cap, n);
        assert(self.parents@[0] == loaded_parent(ord, 0, cap, m));
        assert(self.parents@[0].max_size == cap);
        assert(self.listing_ok()) by {
            assert forall|v: int| 0 <= v < n implies 0 <= (#[trigger] self.rank@[v]) < n
                && self.listing@[self.rank@[v]] == v by {
                assert(occurs(ord, v));
                let i = choose|i: int| 0 <= i < n && #[trigger] ord[i] == v;
                assert(self.rank@[ord[i] as int] == i);
            }
        }
        assert forall|v: int| 0 <= v < n implies (#[trigger] self.vertices@[v]).index == v by {
            assert(occurs(ord, v));
            let i = choose|i: int| 0 <= i < n && #[trigger] ord[i] == v;
            assert(self.vertices@[ord[i] as int] == loaded_vertex(ord, i, cap));
        }
        assert forall|s: int| 0 <= s < m implies (#[trigger] self.parents@[s]).max_size
            == self.parents@[0].max_size by {
            assert(self.parents@[s] == loaded_parent(ord, s, cap, m));
        }
        assert(self.common_ok());
        assert(self.ring_ok()) by {
            assert forall|k: int| 0 <= k < m implies (#[trigger] self.ring@[k]) < m
                && self.parents@[self.ring@[k] as int].id == k by {
                assert(self.parents@[k] == loaded_parent(ord, k, cap, m));
            }
            assert forall|s: int| 0 <= s < m implies (#[trigger] self.parents@[s]).id < m
                && self.ring@[self.parents@[s].id as int] == s by {
                assert(self.parents@[s] == loaded_parent(ord, s, cap, m));
            }
            assert forall|s: int| 0 <= s < m implies #[trigger] self.link_ok(s) by {
                assert(self.parents@[s] == loaded_parent(ord, s, cap, m));
            }
        }
        assert forall|s: int| 0 <= s < m implies #[trigger] self.parent_ok(s) by {
            lemma_group_start(s, cap, n);
            let g = self.parents@[s];
            assert(g == loaded_parent(ord, s, cap, m));
            assert(self.base@[s] == group_start(s, cap, n));
            assert(g.size == group_start(s + 1, cap, n) - group_start(s, cap, n));
            if s > 0 {
                lemma_group_start(s - 1, cap, n);
                assert(self.parents@[s - 1] == loaded_parent(ord, s - 1, cap, m));
                assert(self.ring@[s - 1] == s - 1);
                assert(self.base@[s - 1] == group_start(s - 1, cap, n));
            }
        }
        assert forall|v: int| 0 <= v < n implies #[trigger] self.vertex_ok(v) by {
            assert(occurs(ord, v));
            let i = choose|i: int| 0 <= i < n && #[trigger] ord[i] == v;
            assert(self.rank@[ord[i] as int] == i);
            assert(self.vertices@[ord[i] as int] == loaded_vertex(ord, i, cap));
            lemma_group_of(i, cap, n);
            let s = i / cap;
            lemma_group_start(s, cap, n);
            assert(self.parents@[s] == loaded_parent(ord, s, cap, m));
            assert(self.base@[s] == group_start(s, cap, n));
        }
    }

    /// Number of vertices that a segment receives when a tour is loaded.
    pub open(crate) spec fn spec_group_size(&self) -> nat {
        self.parents@[0].max_size as nat
    }

    /// Loads `tour`: afterwards the listing of the tree is `tour`.
    ///
    /// The nodes are dealt out to the segments in groups of the configured
    /// size, in the order of the segments' indices; segments for which no
    /// node is left stay empty. Every reversal flag and every traversal
    /// mark is cleared.
    pub fn apply(&mut self, tour: &TourOrder)
        requires
            old(self).wf(),
            tour@.len() == old(self).spec_len(),
            is_permutation(tour@),
        ensures
            final(self).wf(),
            final(self).is_attached(),
            final(self)@ == tour@,
            final(self).spec_len() == old(self).spec_len(),
            final(self).spec_group_size() == old(self).spec_group_size(),
            final(self).parents_view().len() == old(self).parents_view().len(),
            forall|i: int|
                0 <= i < tour@.len() ==> final(self).rank(#[trigger] tour@[i] as int) == i,
            forall|i: int|
                0 <= i < tour@.len() ==> final(self).vertices_view()[tour@[i] as int]
                    == #[trigger] loaded_vertex(tour@, i, old(self).spec_group_size() as int),
            forall|k: int|
                0 <= k < old(self).parents_view().len() ==> #[trigger] final(self).spec_ring(k)
                    == k,
            forall|s: int|
                0 <= s < old(self).parents_view().len() ==> #[trigger] final(self).spec_start(s)
                    == group_start(
                    s,
                    old(self).spec_group_size() as int,
                    old(self).spec_len() as int,
                ),
            forall|s: int|
                0 <= s < old(self).parents_view().len() ==> #[trigger] final(self).parents_view()[s]
                    == loaded_parent(
                    tour@,
                    s,
                    old(self).spec_group_size() as int,
                    old(self).parents_view().len() as int,
                ),
    {
        let order = tour.order();
        let n = self.vertices.len();
        let m = self.parents.len();
        let cap = self.parents[0].max_size;
        let ghost ord = tour@;
        let ghost mut rank: Seq<int> = Seq::new(n as nat, |v: int| 0int);
        let mut lo: usize = 0;
        let mut k: usize = 0;
        proof {
            lemma_group_start(0, cap as int, n as int);
        }
        while k < m
            invariant
                k <= m,
                n == self.vertices@.len(),
                m == self.parents@.len(),
                m == n / cap + 1,
                cap > 0,
                ord == order@,
                ord.len() == n,
                is_permutation(ord),
                rank.len() == n,
                lo == group_start(k as int, cap as int, n as int),
                forall|s: int| 0 <= s < k ==> (#[trigger] self.parents@[s]) == loaded_parent(
                        ord,
                        s,
                        cap as int,
                        m as int,
                    ),
                forall|s: int| k <= s < m ==> (#[trigger] self.parents@[s]).max_size == cap,
                forall|i: int|
                    0 <= i < lo ==> self.vertices@[ord[i] as int] == #[trigger] loaded_vertex(
                        ord,
                        i,
                        cap as int,
                    ),
                forall|i: int| 0 <= i < lo ==> rank[#[trigger] ord[i] as int] == i,
            decreases m - k,
        {
            proof {
                lemma_group_start(k as int, cap as int, n as int);
            }
            let hi = if n - lo >= cap {
                lo + cap
            } else {
                n
            };
            let size = hi - lo;
            let seg = ParentVertex {
                id: k,
                size,
                max_size: cap,
                reverse: false,
                prev: if k == 0 {
                    m - 1
                } else {
                    k - 1
                },
                next: if k + 1 < m {
                    k + 1
                } else {
                    0
                },
                first: if size > 0 {
                    order[lo]
                } else {
                    DETACHED
                },
                last: if size > 0 {
                    order[hi - 1]
                } else {
                    DETACHED
                },
            };
            self.parents.set(k, seg);
            let mut i: usize = lo;
            while i < hi
                invariant
                    lo <= i <= hi <= n,
                    hi - lo <= cap,
                    lo < hi ==> lo == k * cap,
                    k < m,
                    n == self.vertices@.len(),
                    m == self.parents@.len(),
                    cap > 0,
                    ord == order@,
                    ord.len() == n,
                    is_permutation(ord),
                    rank.len() == n,
                    forall|s: int| 0 <= s < k ==> (#[trigger] self.parents@[s]) == loaded_parent(
                            ord,
                            s,
                            cap as int,
                            m as int,
                        ),
                    self.parents@[k as int] == seg,
                    forall|s: int| k < s < m ==> (#[trigger] self.parents@[s]).max_size == cap,
                    forall|j: int|
                        0 <= j < i ==> self.vertices@[ord[j] as int] == #[trigger] loaded_vertex(
                            ord,
                            j,
                            cap as int,
                        ),
                    forall|j: int| 0 <= j < i ==> rank[#[trigger] ord[j] as int] == j,
                decreases hi - i,
            {
                let v = order[i];
                let nx = if i + 1 < n {
                    order[i + 1]
                } else {
                    order[0]
                };
                let pv = if i > 0 {
                    order[i - 1]
                } else {
                    order[n - 1]
                };
                proof {
                    lemma_fundamental_div_mod_converse(
                        i as int,
                        cap as int,
                        k as int,
                        i as int - lo as int,
                    );
                    assert(ord[i as int] == v);
                    assert forall|j: int| 0 <= j < i implies ord[j] != v by {}
                    rank = rank.update(v as int, i as int);
                }
                self.vertices.set(
                    v,
                    TltVertex {
                        index: v,
                        seq_id: i - lo,
                        visited: false,
                        prev: pv,
                        next: nx,
                        parent: k,
                    },
                );
                i += 1;
            }
            proof {
                lemma_group_start(k as int + 1, cap as int, n as int);
            }
            lo = hi;
            k += 1;
        }
        proof {
            lemma_group_start(m as int, cap as int, n as int);
            assert(lo == n);
            self.listing@ = ord;
            self.rank@ = rank;
            self.ring@ = Seq::new(m as nat, |j: int| j as usize);
            self.base@ = Seq::new(m as nat, |s: int| group_start(s, cap as int, n as int));
        }
        self.attached = true;
        proof {
            self.lemma_loaded(ord, cap as int);
        }
    }
}

} // verus!
