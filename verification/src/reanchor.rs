//! Choosing the segment at which the listing begins.

use vstd::prelude::*;
use crate::cyclic::{lemma_rotated_neighbours, rotated, shifted};
use crate::parent::ParentVertex;
use crate::tree::TwoLevelTree;

verus! {

impl TwoLevelTree {
    /// What a caller of the renumbering must provide: a loaded tree and one
    /// of its segments.
    pub(crate) open spec fn anchor_given(&self, s0: int) -> bool {
        &&& self.wf()
        &&& self.attached
        &&& self.n() <= usize::MAX
        &&& self.m() <= usize::MAX
        &&& 0 <= s0 < self.m()
    }

    /// The record of segment `s` after the places in the ring have been
    /// counted from segment `s0` on.
    pub(crate) open spec fn anchor_parent(&self, s: int, s0: int) -> ParentVertex {
        let g = self.parents@[s];
        ParentVertex {
            id: shifted(self.parents@[s0].id as int, self.m(), g.id as int) as usize,
            ..g
        }
    }

    /// What counting the places from segment `s0` on makes of `self`: the
    /// tour is the same, its listing begins with that segment.
    pub(crate) open spec fn anchor_done(&self, post: TwoLevelTree, s0: int) -> bool {
        let k0 = self.parents@[s0].id as int;
        let r = self.base@[s0];
        &&& post.attached
        &&& post.listing@ == rotated(self.listing@, r)
        &&& post.rank@ == Seq::new(self.rank@.len(), |v: int| shifted(r, self.n(), self.rank@[v]))
        &&& post.ring@ == Seq::new(
            self.ring@.len(),
            |k: int|
                self.ring@[if k + k0 < self.m() {
                    k + k0
                } else {
                    k + k0 - self.m()
                }],
        )
        &&& post.base@ == Seq::new(
            self.base@.len(),
            |s: int|
                if self.parents@[s].id >= k0 {
                    self.base@[s] - r
                } else {
                    self.base@[s] - r + self.n()
                },
        )
        &&& post.parents@ == Seq::new(self.parents@.len(), |s: int| self.anchor_parent(s, s0))
        &&& post.vertices@ == self.vertices@
    }

    /// Where segment `s` lies relative to the new first segment `s0`.
    proof fn lemma_anchor_side(&self, s: int, s0: int)
        requires
            self.anchor_given(s0),
            0 <= s < self.m(),
        ensures
            0 <= self.base@[s0] <= self.n(),
            0 <= self.base@[s],
            self.base@[s] + self.parents@[s].size <= self.n(),
            self.parents@[s].id >= self.parents@[s0].id ==> self.base@[s] >= self.base@[s0],
            self.parents@[s].id < self.parents@[s0].id ==> self.base@[s] + self.parents@[s].size
                <= self.base@[s0],
            self.parents@[s].id == self.parents@[s0].id ==> s == s0,
    {
        assert(self.parent_ok(s));
        assert(self.parent_ok(s0));
        if s != s0 {
            self.lemma_apart(s, s0);
        }
    }

    /// The listing read from the new first segment on is a listing of all
    /// nodes, and the records keep what does not depend on the tour.
    proof fn lemma_anchor_common(&self, post: TwoLevelTree, s0: int)
        requires
            self.anchor_given(s0),
            self.anchor_done(post, s0),
        ensures
            post.common_ok(),
            post.n() == self.n(),
            post.m() == self.m(),
            post.listing_ok(),
            post.same_marks(*self),
    {
        let r = self.base@[s0];
        let n = self.n();
        self.lemma_anchor_side(s0, s0);
        assert forall|s: int| 0 <= s < post.m() implies (#[trigger] post.parents@[s]).max_size
            == post.parents@[0].max_size by {
            assert(self.parents@[s].max_size == self.parents@[0].max_size);
        }
        assert forall|v: int| 0 <= v < n implies (#[trigger] post.vertices@[v]).index == v by {
            assert(self.vertices@[v].index == v);
        }
        assert forall|v: int| 0 <= v < n implies 0 <= (#[trigger] post.rank@[v]) < n
            && post.listing@[post.rank@[v]] == v by {
            assert(0 <= self.rank@[v] < n);
            lemma_rotated_neighbours(self.listing@, r, self.rank@[v]);
        }
        assert forall|p: int| 0 <= p < n implies (#[trigger] post.listing@[p]) < n
            && post.rank@[post.listing@[p] as int] == p by {
            let q = if p + r < n {
                p + r
            } else {
                p + r - n
            };
            assert(self.listing@[q] < n);
            assert(self.rank@[self.listing@[q] as int] == q);
        }
    }

    /// The segments form a ring whose places are counted from the new first
    /// segment on.
    proof fn lemma_anchor_ring(&self, post: TwoLevelTree, s0: int)
        requires
            self.anchor_given(s0),
            self.anchor_done(post, s0),
        ensures
            post.ring_ok(),
    {
        let k0 = self.parents@[s0].id as int;
        let m = self.m();
        assert(self.parents@[s0].id < m);
        assert forall|k: int| 0 <= k < m implies (#[trigger] post.ring@[k]) < m
            && post.parents@[post.ring@[k] as int].id == k by {
            let q = if k + k0 < m {
                k + k0
            } else {
                k + k0 - m
            };
            assert(self.ring@[q] < m);
        }
        assert forall|s: int| 0 <= s < m implies (#[trigger] post.parents@[s]).id < m
            && post.ring@[post.parents@[s].id as int] == s by {
            assert(self.parents@[s].id < m);
        }
        assert forall|s: int| 0 <= s < m implies #[trigger] post.link_ok(s) by {
            assert(self.link_ok(s));
            let k = self.parents@[s].id as int;
            let kk = post.parents@[s].id as int;
            assert(kk == shifted(k0, m, k));
            let nk = post.ring_next(kk);
            let pk = post.ring_prev(kk);
            assert(post.ring@[nk] == self.ring@[if nk + k0 < m {
                nk + k0
            } else {
                nk + k0 - m
            }]);
            assert(post.ring@[pk] == self.ring@[if pk + k0 < m {
                pk + k0
            } else {
                pk + k0 - m
            }]);
        }
    }

    /// Segment `s` covers its part of the listing read from the new first
    /// segment on.
    proof fn lemma_anchor_parent(&self, post: TwoLevelTree, s0: int, s: int)
        requires
            self.anchor_given(s0),
            self.anchor_done(post, s0),
            0 <= s < self.m(),
        ensures
            post.parent_ok(s),
    {
        let k0 = self.parents@[s0].id as int;
        let r = self.base@[s0];
        let m = self.m();
        let n = self.n();
        let g = self.parents@[s];
        let k = g.id as int;
        let kk = post.parents@[s].id as int;
        self.lemma_anchor_side(s, s0);
        self.lemma_anchor_side(s0, s0);
        assert(self.parent_ok(s));
        assert(kk == shifted(k0, m, k));
        if kk > 0 {
            let q = post.ring@[kk - 1] as int;
            let j = if kk - 1 + k0 < m {
                kk - 1 + k0
            } else {
                kk - 1 + k0 - m
            };
            assert(q == self.ring@[j]);
            assert(q < m);
            assert(self.parents@[q].id == j);
            assert(self.parent_ok(q));
            self.lemma_anchor_side(q, s0);
            if k > 0 {
                assert(j == k - 1);
            } else {
                assert(j == m - 1);
            }
        }
        assert(self.parent_ok(s0));
        if kk == m - 1 {
            if k0 > 0 {
                assert(k == k0 - 1);
                assert(self.ring@[k0] == s0);
                assert(self.ring@[k] == s);
            }
        }
        if g.size > 0 {
            lemma_rotated_neighbours(self.listing@, r, self.base@[s]);
            lemma_rotated_neighbours(self.listing@, r, self.base@[s] + g.size - 1);
        }
    }

    /// Vertex `v` agrees with the listing read from the new first segment on.
    proof fn lemma_anchor_vertex(&self, post: TwoLevelTree, s0: int, v: int)
        requires
            self.anchor_given(s0),
            self.anchor_done(post, s0),
            0 <= v < self.n(),
        ensures
            post.vertex_ok(v),
    {
        let r = self.base@[s0];
        assert(self.place_ok(v) && self.seq_ok(v)) by {
            assert(self.vertex_ok(v));
        }
        let s = self.vertices@[v].parent as int;
        self.lemma_anchor_side(s, s0);
        self.lemma_anchor_side(s0, s0);
        lemma_rotated_neighbours(self.listing@, r, self.rank@[v]);
        assert(post.rank@[v] == shifted(r, self.n(), self.rank@[v]));
        assert(post.parents@[s] == self.anchor_parent(s, s0));
        assert(post.seq_ok(v));
        assert(post.place_ok(v));
    }

    /// Counting the places of the ring from another segment on leaves a
    /// well-formed tree.
    pub(crate) proof fn lemma_anchor_done(&self, post: TwoLevelTree, s0: int)
        requires
            self.anchor_given(s0),
            self.anchor_done(post, s0),
        ensures
            post.wf(),
            post.n() == self.n(),
            post.m() == self.m(),
            post.same_marks(*self),
            post.parents@[0].max_size == self.parents@[0].max_size,
    {
        self.lemma_anchor_common(post, s0);
        self.lemma_anchor_ring(post, s0);
        assert forall|s: int| 0 <= s < post.m() implies #[trigger] post.parent_ok(s) by {
            self.lemma_anchor_parent(post, s0, s);
        }
        assert forall|v: int| 0 <= v < post.n() implies #[trigger] post.vertex_ok(v) by {
            self.lemma_anchor_vertex(post, s0, v);
        }
    }

    /// Counts the places of the ring from segment `s0` on, so that the
    /// listing begins with that segment. The tour itself does not change.
    pub(crate) fn reanchor(&mut self, s0: usize)
        requires
            old(self).wf(),
            old(self).attached,
            s0 < old(self).m(),
        ensures
            final(self).wf(),
            old(self).anchor_done(*final(self), s0 as int),
            final(self).n() == old(self).n(),
            final(self).m() == old(self).m(),
            final(self).same_marks(*old(self)),
            final(self).parents@[0].max_size == old(self).parents@[0].max_size,
            final(self).frame() == old(self).frame().anchored(s0 as int, old(self).n()),
    {
        let ghost pre = *self;
        let m = self.parents.len();
        let n = self.vertices.len();
        let k0 = self.parents[s0].id;
        proof {
            assert(pre.parents@[s0 as int].id < m);
        }
        let mut s: usize = 0;
        while s < m
            invariant
                s <= m,
                m == pre.m(),
                k0 == pre.parents@[s0 as int].id,
                k0 < m,
                pre.wf(),
                pre.attached,
                self.vertices == pre.vertices,
                self.listing == pre.listing,
                self.rank == pre.rank,
                self.ring == pre.ring,
                self.base == pre.base,
                self.attached == pre.attached,
                self.parents@.len() == m,
                forall|q: int|
                    0 <= q < m ==> #[trigger] self.parents@[q] == (if q < s {
                        pre.anchor_parent(q, s0 as int)
                    } else {
                        pre.parents@[q]
                    }),
            decreases m - s,
        {
            let g = self.parents[s];
            proof {
                assert(pre.parents@[s as int].id < m);
            }
            let id = if g.id >= k0 {
                g.id - k0
            } else {
                g.id + (m - k0)
            };
            self.parents.set(s, ParentVertex { id, ..g });
            s += 1;
        }
        proof {
            let r = pre.base@[s0 as int];
            self.listing@ = rotated(pre.listing@, r);
            self.rank@ = Seq::new(pre.rank@.len(), |v: int| shifted(r, pre.n(), pre.rank@[v]));
            self.ring@ = Seq::new(
                pre.ring@.len(),
                |k: int|
                    pre.ring@[if k + k0 < pre.m() {
                        k + k0
                    } else {
                        k + k0 - pre.m()
                    }],
            );
            self.base@ = Seq::new(
                pre.base@.len(),
                |q: int|
                    if pre.parents@[q].id >= k0 {
                        pre.base@[q] - r
                    } else {
                        pre.base@[q] - r + pre.n()
                    },
            );
            assert(self.parents@ =~= Seq::new(
                pre.parents@.len(),
                |q: int| pre.anchor_parent(q, s0 as int),
            ));
            pre.lemma_anchor_done(*self, s0 as int);
            pre.lemma_frame_anchored(*self, s0 as int);
        }
    }

    /// The layout after the places have been counted anew.
    pub(crate) proof fn lemma_frame_anchored(&self, post: TwoLevelTree, s0: int)
        requires
            self.anchor_given(s0),
            self.anchor_done(post, s0),
        ensures
            post.frame() == self.frame().anchored(s0, self.n()),
    {
        let a = post.frame();
        let b = self.frame().anchored(s0, self.n());
        assert(self.parents@[s0].id < self.m());
        assert forall|q: int| 0 <= q < self.m() implies a.ids[q] == b.ids[q] && a.sizes[q]
            == b.sizes[q] && a.flags[q] == b.flags[q] && a.starts[q] == b.starts[q] && a.ring[q]
            == b.ring[q] by {
            assert(post.parents@[q] == self.anchor_parent(q, s0));
            assert(self.parents@[q].id < self.m());
        }
        crate::frame::lemma_frame_eq(a, b);
    }
}

} // verus!
