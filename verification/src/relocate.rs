//! Moving vertices from one end of a segment into the neighbouring segment.

use vstd::prelude::*;
use crate::parent::ParentVertex;
use crate::tree::TwoLevelTree;
use crate::vertex::TltVertex;

verus! {

/// The sequence number of the vertex at position `p` in a segment that
/// covers `size` positions from `lo` on.
pub open spec fn seq_at(rev: bool, lo: int, size: int, p: int) -> int {
    if rev {
        lo + size - 1 - p
    } else {
        p - lo
    }
}

/// The segment record `g` with the given size and with the given vertices
/// at the two ends of its part of the tour.
pub open spec fn with_ends(g: ParentVertex, head: usize, tail: usize, size: int) -> ParentVertex {
    if g.reverse {
        ParentVertex { first: tail, last: head, size: size as usize, ..g }
    } else {
        ParentVertex { first: head, last: tail, size: size as usize, ..g }
    }
}

impl TwoLevelTree {
    /// The segment that receives the vertices: the next one in the ring
    /// where `dir` is set, the previous one otherwise.
    pub(crate) open spec fn move_dst(&self, s: int, dir: bool) -> int {
        if dir {
            self.parents@[s].next as int
        } else {
            self.parents@[s].prev as int
        }
    }

    /// First position of the block of `cnt` vertices that leaves segment
    /// `s`.
    pub(crate) open spec fn move_lo(&self, s: int, cnt: int, dir: bool) -> int {
        if dir {
            self.base@[s] + self.parents@[s].size - cnt
        } else {
            self.base@[s]
        }
    }

    /// What a caller of the move must provide: a loaded tree, a segment
    /// that keeps at least one vertex, and a neighbour on the side to which
    /// the vertices go that is not across the seam of the listing.
    pub(crate) open spec fn move_given(&self, s: int, cnt: int, dir: bool) -> bool {
        &&& self.wf()
        &&& self.attached
        &&& self.n() <= usize::MAX
        &&& 0 <= s < self.m()
        &&& 0 < cnt < self.parents@[s].size
        &&& dir ==> self.parents@[s].id + 1 < self.m()
        &&& !dir ==> self.parents@[s].id > 0
    }

    /// Where segment `q` begins after the move.
    pub(crate) open spec fn move_base(&self, q: int, s: int, cnt: int, dir: bool) -> int {
        if q == s && !dir {
            self.base@[s] + cnt
        } else if q == self.move_dst(s, dir) && dir {
            self.base@[q] - cnt
        } else {
            self.base@[q]
        }
    }

    /// How many vertices segment `q` owns after the move.
    pub(crate) open spec fn move_size(&self, q: int, s: int, cnt: int, dir: bool) -> int {
        if q == s {
            self.parents@[s].size - cnt
        } else if q == self.move_dst(s, dir) {
            self.parents@[q].size + cnt
        } else {
            self.parents@[q].size as int
        }
    }

    /// The record of segment `q` after the move.
    pub(crate) open spec fn move_parent(&self, q: int, s: int, cnt: int, dir: bool) -> ParentVertex {
        let g = self.parents@[q];
        let lo = self.move_lo(s, cnt, dir);
        let hi = lo + cnt - 1;
        if q == s {
            with_ends(
                g,
                if dir {
                    g.spec_head()
                } else {
                    self.listing@[hi + 1]
                },
                if dir {
                    self.listing@[lo - 1]
                } else {
                    g.spec_tail()
                },
                g.size - cnt,
            )
        } else if q == self.move_dst(s, dir) {
            with_ends(
                g,
                if dir || g.size == 0 {
                    self.listing@[lo]
                } else {
                    g.spec_head()
                },
                if !dir || g.size == 0 {
                    self.listing@[hi]
                } else {
                    g.spec_tail()
                },
                g.size + cnt,
            )
        } else {
            g
        }
    }

    /// The record of vertex `v` after the move: a vertex of the block
    /// belongs to the receiving segment, with its links exchanged where the
    /// two segments are flagged differently, and the sequence numbers count
    /// from the new stored first member of each segment.
    pub(crate) open spec fn move_record(&self, v: int, s: int, cnt: int, dir: bool) -> TltVertex {
        let a = self.vertices@[v];
        let p = self.rank@[v];
        let lo = self.move_lo(s, cnt, dir);
        let t = self.move_dst(s, dir);
        let inb = a.parent == s && lo <= p < lo + cnt;
        let q = if inb {
            t
        } else {
            a.parent as int
        };
        let b = if inb && self.parents@[s].reverse != self.parents@[t].reverse {
            a.turned()
        } else {
            a
        };
        TltVertex {
            parent: q as usize,
            seq_id: seq_at(
                self.parents@[q].reverse,
                self.move_base(q, s, cnt, dir),
                self.move_size(q, s, cnt, dir),
                p,
            ) as usize,
            ..b
        }
    }

    /// What the move of `cnt` vertices out of segment `s` makes of `self`.
    pub(crate) open spec fn move_done(&self, post: TwoLevelTree, s: int, cnt: int, dir: bool) -> bool {
        &&& post.attached
        &&& post.listing@ == self.listing@
        &&& post.rank@ == self.rank@
        &&& post.ring@ == self.ring@
        &&& post.base@.len() == self.base@.len()
        &&& forall|q: int|
            0 <= q < self.m() ==> #[trigger] post.base@[q] == self.move_base(q, s, cnt, dir)
        &&& post.parents@.len() == self.parents@.len()
        &&& forall|q: int|
            0 <= q < self.m() ==> #[trigger] post.parents@[q] == self.move_parent(q, s, cnt, dir)
        &&& post.vertices@.len() == self.vertices@.len()
        &&& forall|v: int|
            0 <= v < self.n() ==> #[trigger] post.vertices@[v] == self.move_record(v, s, cnt, dir)
    }

    /// Where the two segments of a move lie.
    pub(crate) proof fn lemma_move_layout(&self, s: int, cnt: int, dir: bool)
        requires
            self.move_given(s, cnt, dir),
        ensures
            ({
                let t = self.move_dst(s, dir);
                let lo = self.move_lo(s, cnt, dir);
                &&& 0 <= t < self.m()
                &&& t != s
                &&& self.parents@[t].id == (if dir {
                    self.parents@[s].id + 1
                } else {
                    self.parents@[s].id - 1
                })
                &&& (dir ==> self.base@[t] == self.base@[s] + self.parents@[s].size)
                &&& (!dir ==> self.base@[s] == self.base@[t] + self.parents@[t].size)
                &&& 0 <= self.base@[s]
                &&& self.base@[s] + self.parents@[s].size <= self.n()
                &&& 0 <= self.base@[t]
                &&& self.base@[t] + self.parents@[t].size <= self.n()
                &&& self.base@[s] <= lo
                &&& lo + cnt <= self.base@[s] + self.parents@[s].size
                &&& self.parents@[t].size + self.parents@[s].size <= self.n()
            }),
    {
        let t = self.move_dst(s, dir);
        let k = self.parents@[s].id as int;
        assert(self.link_ok(s));
        assert(self.parent_ok(s));
        if dir {
            assert(self.ring@[k + 1] < self.m());
            assert(self.parents@[self.ring@[k + 1] as int].id == k + 1);
            assert(self.parent_ok(t));
            assert(self.ring@[k] == s);
        } else {
            assert(self.ring@[k - 1] < self.m());
            assert(self.parents@[self.ring@[k - 1] as int].id == k - 1);
            assert(self.parent_ok(t));
        }
    }

    /// The move changes neither the listing nor the ring, and it keeps what
    /// does not depend on the tour.
    proof fn lemma_move_common(&self, post: TwoLevelTree, s: int, cnt: int, dir: bool)
        requires
            self.move_given(s, cnt, dir),
            self.move_done(post, s, cnt, dir),
        ensures
            post.common_ok(),
            post.n() == self.n(),
            post.m() == self.m(),
            post.listing_ok(),
            post.ring_ok(),
            post.same_marks(*self),
    {
        self.lemma_move_layout(s, cnt, dir);
        assert forall|v: int| 0 <= v < self.n() implies (#[trigger] post.vertices@[v]).index == v
            && post.vertices@[v].visited == self.vertices@[v].visited by {
            assert(self.vertices@[v].index == v);
            assert(post.vertices@[v] == self.move_record(v, s, cnt, dir));
        }
        assert forall|q: int| 0 <= q < post.m() implies (#[trigger] post.parents@[q]).max_size
            == post.parents@[0].max_size by {
            assert(self.parents@[q].max_size == self.parents@[0].max_size);
            assert(post.parents@[q] == self.move_parent(q, s, cnt, dir));
            assert(post.parents@[0] == self.move_parent(0, s, cnt, dir));
        }
        assert(post.parents@[0] == self.move_parent(0, s, cnt, dir));
        assert forall|k: int| 0 <= k < post.m() implies (#[trigger] post.ring@[k]) < post.m()
            && post.parents@[post.ring@[k] as int].id == k by {
            assert(self.ring@[k] < self.m());
            assert(post.parents@[self.ring@[k] as int] == self.move_parent(
                self.ring@[k] as int,
                s,
                cnt,
                dir,
            ));
        }
        assert forall|q: int| 0 <= q < post.m() implies (#[trigger] post.parents@[q]).id < post.m()
            && post.ring@[post.parents@[q].id as int] == q by {
            assert(self.parents@[q].id < self.m());
            assert(post.parents@[q] == self.move_parent(q, s, cnt, dir));
        }
        assert forall|q: int| 0 <= q < post.m() implies #[trigger] post.link_ok(q) by {
            assert(self.link_ok(q));
            assert(post.parents@[q] == self.move_parent(q, s, cnt, dir));
        }
    }

    /// Segment `q` covers its part of the listing after the move.
    #[verifier::rlimit(25)]
    proof fn lemma_move_parent(&self, post: TwoLevelTree, s: int, cnt: int, dir: bool, q: int)
        requires
            self.move_given(s, cnt, dir),
            self.move_done(post, s, cnt, dir),
            0 <= q < self.m(),
        ensures
            post.parent_ok(q),
    {
        self.lemma_move_layout(s, cnt, dir);
        let t = self.move_dst(s, dir);
        let g = self.parents@[q];
        assert(self.parent_ok(q));
        assert(self.parent_ok(s));
        assert(self.parent_ok(t));
        assert(post.parents@[q] == self.move_parent(q, s, cnt, dir));
        assert(post.base@[q] == self.move_base(q, s, cnt, dir));
        assert(self.ring@[self.parents@[s].id as int] == s);
        assert(self.ring@[self.parents@[t].id as int] == t);
        if g.id > 0 {
            let q0 = self.ring@[g.id - 1] as int;
            assert(q0 < self.m());
            assert(self.parents@[q0].id == g.id - 1);
            assert(post.parents@[q0] == self.move_parent(q0, s, cnt, dir));
            assert(post.base@[q0] == self.move_base(q0, s, cnt, dir));
        }
    }

    /// Vertex `v` agrees with the listing after the move.
    #[verifier::rlimit(25)]
    proof fn lemma_move_vertex(&self, post: TwoLevelTree, s: int, cnt: int, dir: bool, v: int)
        requires
            self.move_given(s, cnt, dir),
            self.move_done(post, s, cnt, dir),
            0 <= v < self.n(),
        ensures
            post.vertex_ok(v),
    {
        self.lemma_move_layout(s, cnt, dir);
        let t = self.move_dst(s, dir);
        let a = self.vertices@[v];
        let b = post.vertices@[v];
        assert(self.place_ok(v) && self.seq_ok(v)) by {
            assert(self.vertex_ok(v));
        }
        assert(b == self.move_record(v, s, cnt, dir));
        let q = b.parent as int;
        assert(post.parents@[q] == self.move_parent(q, s, cnt, dir));
        assert(post.base@[q] == self.move_base(q, s, cnt, dir));
        assert(post.parents@[q].size == self.move_size(q, s, cnt, dir));
        assert(post.seq_ok(v));
        assert(post.place_ok(v));
    }

    /// Moving vertices into the neighbouring segment leaves a well-formed
    /// tree with the same listing.
    pub(crate) proof fn lemma_move_done(&self, post: TwoLevelTree, s: int, cnt: int, dir: bool)
        requires
            self.move_given(s, cnt, dir),
            self.move_done(post, s, cnt, dir),
        ensures
            post.wf(),
            post.n() == self.n(),
            post.m() == self.m(),
            post.same_marks(*self),
    {
        self.lemma_move_common(post, s, cnt, dir);
        assert forall|q: int| 0 <= q < post.m() implies #[trigger] post.parent_ok(q) by {
            self.lemma_move_parent(post, s, cnt, dir, q);
        }
        assert forall|v: int| 0 <= v < post.n() implies #[trigger] post.vertex_ok(v) by {
            self.lemma_move_vertex(post, s, cnt, dir, v);
        }
    }

    /// How far the vertex at position `p` of the giving segment stands
    /// from the end at which the vertices leave.
    pub(crate) open spec fn move_depth(&self, p: int, s: int, dir: bool) -> int {
        if dir {
            self.base@[s] + self.parents@[s].size - 1 - p
        } else {
            p - self.base@[s]
        }
    }

    /// How far the vertex at position `p` of the receiving segment stands
    /// from the end at which the vertices arrive.
    pub(crate) open spec fn move_reach(&self, p: int, s: int, dir: bool) -> int {
        let t = self.move_dst(s, dir);
        if dir {
            p - self.base@[t]
        } else {
            self.base@[t] + self.parents@[t].size - 1 - p
        }
    }

    /// The record of vertex `v` while the move is under way: `k1` vertices
    /// of the block, `k2` vertices of the rest of the giving segment and `k3`
    /// old members of the receiving segment have their final records.
    pub(crate) open spec fn move_step(
        &self,
        v: int,
        s: int,
        cnt: int,
        dir: bool,
        k1: int,
        k2: int,
        k3: int,
    ) -> TltVertex {
        let a = self.vertices@[v];
        let p = self.rank@[v];
        let d = self.move_depth(p, s, dir);
        let done = if a.parent == s {
            if d < cnt {
                d < k1
            } else {
                d - cnt < k2
            }
        } else if a.parent == self.move_dst(s, dir) {
            self.move_reach(p, s, dir) < k3
        } else {
            false
        };
        if done {
            self.move_record(v, s, cnt, dir)
        } else {
            a
        }
    }

    /// The vertex at depth `d` of the giving segment, and what its record
    /// says.
    proof fn lemma_move_walk(&self, s: int, cnt: int, dir: bool, d: int)
        requires
            self.move_given(s, cnt, dir),
            0 <= d < self.parents@[s].size,
        ensures
            ({
                let p = if dir {
                    self.base@[s] + self.parents@[s].size - 1 - d
                } else {
                    self.base@[s] + d
                };
                let c = self.listing@[p] as int;
                let r = self.parents@[s].reverse;
                &&& 0 <= p < self.n()
                &&& 0 <= c < self.n()
                &&& self.rank@[c] == p
                &&& self.move_depth(p, s, dir) == d
                &&& self.vertices@[c].parent == s
                &&& self.vertices@[c].seq_id == seq_at(r, self.base@[s], self.parents@[s].size as int, p)
                &&& d + 1 < self.parents@[s].size ==> (if dir {
                    self.vertices@[c].bwd(r)
                } else {
                    self.vertices@[c].fwd(r)
                }) == self.listing@[if dir {
                    p - 1
                } else {
                    p + 1
                }]
            }),
    {
        self.lemma_move_layout(s, cnt, dir);
        let p = if dir {
            self.base@[s] + self.parents@[s].size - 1 - d
        } else {
            self.base@[s] + d
        };
        self.lemma_owner(p, s);
        assert(self.vertex_ok(self.listing@[p] as int));
    }

    /// The vertex at reach `d` of the receiving segment, and what its
    /// record says.
    proof fn lemma_move_walk_dst(&self, s: int, cnt: int, dir: bool, d: int)
        requires
            self.move_given(s, cnt, dir),
            0 <= d < self.parents@[self.move_dst(s, dir)].size,
        ensures
            ({
                let t = self.move_dst(s, dir);
                let p = if dir {
                    self.base@[t] + d
                } else {
                    self.base@[t] + self.parents@[t].size - 1 - d
                };
                let c = self.listing@[p] as int;
                let r = self.parents@[t].reverse;
                &&& 0 <= p < self.n()
                &&& 0 <= c < self.n()
                &&& self.rank@[c] == p
                &&& self.move_reach(p, s, dir) == d
                &&& self.vertices@[c].parent == t
                &&& self.vertices@[c].seq_id == seq_at(r, self.base@[t], self.parents@[t].size as int, p)
                &&& d + 1 < self.parents@[t].size ==> (if dir {
                    self.vertices@[c].fwd(r)
                } else {
                    self.vertices@[c].bwd(r)
                }) == self.listing@[if dir {
                    p + 1
                } else {
                    p - 1
                }]
                &&& d == 0 ==> c == (if dir {
                    self.parents@[t].spec_head()
                } else {
                    self.parents@[t].spec_tail()
                })
            }),
    {
        self.lemma_move_layout(s, cnt, dir);
        let t = self.move_dst(s, dir);
        let p = if dir {
            self.base@[t] + d
        } else {
            self.base@[t] + self.parents@[t].size - 1 - d
        };
        assert(self.parent_ok(t));
        self.lemma_owner(p, t);
        assert(self.vertex_ok(self.listing@[p] as int));
    }

    /// A step of the walk changes the record of one vertex only.
    proof fn lemma_move_step(
        &self,
        v: int,
        s: int,
        cnt: int,
        dir: bool,
        k1: int,
        k2: int,
        k3: int,
    )
        requires
            self.move_given(s, cnt, dir),
            0 <= v < self.n(),
        ensures
            ({
                let p = self.rank@[v];
                let a = self.vertices@[v];
                let t = self.move_dst(s, dir);
                let d = self.move_depth(p, s, dir);
                let e = self.move_reach(p, s, dir);
                &&& 0 <= p < self.n()
                &&& self.listing@[p] == v
                &&& a.parent == s ==> 0 <= d < self.parents@[s].size
                &&& a.parent == t ==> 0 <= e < self.parents@[t].size
                &&& k1 <= 0 && k2 <= 0 && k3 <= 0 ==> self.move_step(v, s, cnt, dir, k1, k2, k3) == a
                &&& a.parent == s && d == k1 && d < cnt ==> self.move_step(v, s, cnt, dir, k1, k2, k3)
                    == a
                &&& a.parent == s && d - cnt == k2 && d >= cnt ==> self.move_step(
                    v,
                    s,
                    cnt,
                    dir,
                    k1,
                    k2,
                    k3,
                ) == a
                &&& a.parent == t && e == k3 ==> self.move_step(v, s, cnt, dir, k1, k2, k3) == a
                &&& !(a.parent == s && d == k1 && d < cnt) ==> self.move_step(
                    v,
                    s,
                    cnt,
                    dir,
                    k1 + 1,
                    k2,
                    k3,
                ) == self.move_step(v, s, cnt, dir, k1, k2, k3)
                &&& !(a.parent == s && d - cnt == k2 && d >= cnt) ==> self.move_step(
                    v,
                    s,
                    cnt,
                    dir,
                    k1,
                    k2 + 1,
                    k3,
                ) == self.move_step(v, s, cnt, dir, k1, k2, k3)
                &&& !(a.parent == t && e == k3) ==> self.move_step(v, s, cnt, dir, k1, k2, k3 + 1)
                    == self.move_step(v, s, cnt, dir, k1, k2, k3)
            }),
    {
        self.lemma_move_layout(s, cnt, dir);
        assert(self.vertex_ok(v));
    }

    /// Where no sequence number of the rest of the giving segment has to
    /// change, its records are final from the start; likewise for the old
    /// members of the receiving segment.
    proof fn lemma_move_skip(&self, v: int, s: int, cnt: int, dir: bool)
        requires
            self.move_given(s, cnt, dir),
            0 <= v < self.n(),
        ensures
            ({
                let p = self.rank@[v];
                let a = self.vertices@[v];
                let t = self.move_dst(s, dir);
                &&& a.parent == s && self.move_depth(p, s, dir) >= cnt && dir
                    != self.parents@[s].reverse ==> self.move_record(v, s, cnt, dir) == a
                &&& a.parent == t && dir == self.parents@[t].reverse ==> self.move_record(
                    v,
                    s,
                    cnt,
                    dir,
                ) == a
                &&& a.parent != s && a.parent != t ==> self.move_record(v, s, cnt, dir) == a
            }),
    {
        self.lemma_move_layout(s, cnt, dir);
        assert(self.vertex_ok(v));
    }

    /// Moves `cnt` vertices from one end of segment `s` into the segment
    /// next to that end: from the tail into the next segment where `dir` is
    /// set, from the head into the previous segment otherwise. The tour
    /// itself does not change.
    #[verifier::rlimit(25)]
    pub(crate) fn relocate(&mut self, s: usize, cnt: usize, dir: bool)
        requires
            old(self).move_given(s as int, cnt as int, dir),
        ensures
            final(self).wf(),
            old(self).move_done(*final(self), s as int, cnt as int, dir),
            final(self).n() == old(self).n(),
            final(self).m() == old(self).m(),
            final(self).same_marks(*old(self)),
            final(self).frame() == old(self).frame().moved(s as int, cnt as int, dir),
            old(self).frame().beside(s as int, dir) == old(self).move_dst(s as int, dir),
    {
        let ghost pre = *self;
        let n = self.vertices.len();
        let g = self.parents[s];
        let t = if dir {
            g.next
        } else {
            g.prev
        };
        proof {
            pre.lemma_move_layout(s as int, cnt as int, dir);
        }
        let h = self.parents[t];
        let rs = g.reverse;
        let rt = h.reverse;
        let turn = rs != rt;
        let outer = if dir {
            g.tail()
        } else {
            g.head()
        };
        let near = if dir {
            h.head()
        } else {
            h.tail()
        };
        proof {
            pre.lemma_move_walk(s as int, cnt as int, dir, 0);
            assert(pre.parent_ok(s as int));
            assert forall|v: int| 0 <= v < n implies #[trigger] self.vertices@[v] == pre.move_step(
                v,
                s as int,
                cnt as int,
                dir,
                0,
                0,
                0,
            ) by {
                pre.lemma_move_step(v, s as int, cnt as int, dir, 0, 0, 0);
            }
        }
        let mut cur = outer;
        let mut inner = outer;
        let mut k: usize = 0;
        while k < cnt
            invariant
                k <= cnt,
                pre.move_given(s as int, cnt as int, dir),
                n == pre.n(),
                g == pre.parents@[s as int],
                h == pre.parents@[t as int],
                t == pre.move_dst(s as int, dir),
                rs == g.reverse,
                rt == h.reverse,
                turn == (rs != rt),
                h.size + g.size <= n,
                self.parents == pre.parents,
                self.listing == pre.listing,
                self.rank == pre.rank,
                self.ring == pre.ring,
                self.base == pre.base,
                self.attached == pre.attached,
                self.vertices@.len() == n,
                cur == pre.listing@[if dir {
                    pre.base@[s as int] + g.size - 1 - k
                } else {
                    pre.base@[s as int] + k
                }],
                k > 0 ==> inner == pre.listing@[if dir {
                    pre.base@[s as int] + g.size - k
                } else {
                    pre.base@[s as int] + k - 1
                }],
                forall|v: int|
                    0 <= v < n ==> #[trigger] self.vertices@[v] == pre.move_step(
                        v,
                        s as int,
                        cnt as int,
                        dir,
                        k as int,
                        0,
                        0,
                    ),
            decreases cnt - k,
        {
            proof {
                pre.lemma_move_layout(s as int, cnt as int, dir);
                pre.lemma_move_walk(s as int, cnt as int, dir, k as int);
                pre.lemma_move_step(cur as int, s as int, cnt as int, dir, k as int, 0, 0);
                assert(self.vertices@[cur as int] == pre.move_step(
                    cur as int,
                    s as int,
                    cnt as int,
                    dir,
                    k as int,
                    0,
                    0,
                ));
            }
            let a = self.vertices[cur];
            let nxt = if dir {
                a.backward(rs)
            } else {
                a.forward(rs)
            };
            let sid = if dir != rt {
                cnt - 1 - k
            } else {
                h.size + k
            };
            let rec = if turn {
                TltVertex { parent: t, seq_id: sid, prev: a.next, next: a.prev, ..a }
            } else {
                TltVertex { parent: t, seq_id: sid, ..a }
            };
            proof {
                assert(rec == pre.move_record(cur as int, s as int, cnt as int, dir));
            }
            self.vertices.set(cur, rec);
            proof {
                assert forall|v: int| 0 <= v < n implies #[trigger] self.vertices@[v]
                    == pre.move_step(v, s as int, cnt as int, dir, k as int + 1, 0, 0) by {
                    pre.lemma_move_step(v, s as int, cnt as int, dir, k as int, 0, 0);
                }
            }
            inner = cur;
            cur = nxt;
            k += 1;
        }
        let edge = cur;
        let rest = g.size - cnt;
        if dir == rs {
            let mut k2: usize = 0;
            while k2 < rest
                invariant
                    k2 <= rest,
                    rest == g.size - cnt,
                    dir == rs,
                    pre.move_given(s as int, cnt as int, dir),
                    n == pre.n(),
                    g == pre.parents@[s as int],
                    rs == g.reverse,
                    self.parents == pre.parents,
                    self.listing == pre.listing,
                    self.rank == pre.rank,
                    self.ring == pre.ring,
                    self.base == pre.base,
                    self.attached == pre.attached,
                    self.vertices@.len() == n,
                    k2 < rest ==> cur == pre.listing@[if dir {
                        pre.base@[s as int] + g.size - 1 - cnt - k2
                    } else {
                        pre.base@[s as int] + cnt + k2
                    }],
                    forall|v: int|
                        0 <= v < n ==> #[trigger] self.vertices@[v] == pre.move_step(
                            v,
                            s as int,
                            cnt as int,
                            dir,
                            cnt as int,
                            k2 as int,
                            0,
                        ),
                decreases rest - k2,
            {
                proof {
                    pre.lemma_move_layout(s as int, cnt as int, dir);
                    pre.lemma_move_walk(s as int, cnt as int, dir, cnt + k2);
                    pre.lemma_move_step(
                        cur as int,
                        s as int,
                        cnt as int,
                        dir,
                        cnt as int,
                        k2 as int,
                        0,
                    );
                    assert(self.vertices@[cur as int] == pre.move_step(
                        cur as int,
                        s as int,
                        cnt as int,
                        dir,
                        cnt as int,
                        k2 as int,
                        0,
                    ));
                }
                let a = self.vertices[cur];
                let nxt = if dir {
                    a.backward(rs)
                } else {
                    a.forward(rs)
                };
                let rec = TltVertex { seq_id: a.seq_id - cnt, ..a };
                proof {
                    assert(rec == pre.move_record(cur as int, s as int, cnt as int, dir));
                }
                self.vertices.set(cur, rec);
                proof {
                    assert forall|v: int| 0 <= v < n implies #[trigger] self.vertices@[v]
                        == pre.move_step(v, s as int, cnt as int, dir, cnt as int, k2 as int + 1, 0) by {
                        pre.lemma_move_step(v, s as int, cnt as int, dir, cnt as int, k2 as int, 0);
                    }
                }
                cur = nxt;
                k2 += 1;
            }
        }
        proof {
            assert forall|v: int| 0 <= v < n implies #[trigger] self.vertices@[v] == pre.move_step(
                v,
                s as int,
                cnt as int,
                dir,
                cnt as int,
                rest as int,
                0,
            ) by {
                pre.lemma_move_skip(v, s as int, cnt as int, dir);
                pre.lemma_move_step(v, s as int, cnt as int, dir, cnt as int, 0, 0);
            }
        }
        if dir != rt {
            proof {
                if h.size > 0 {
                    pre.lemma_move_walk_dst(s as int, cnt as int, dir, 0);
                }
            }
            let mut c3 = near;
            let mut k3: usize = 0;
            while k3 < h.size
                invariant
                    k3 <= h.size,
                    rest == g.size - cnt,
                    dir != rt,
                    pre.move_given(s as int, cnt as int, dir),
                    n == pre.n(),
                    g == pre.parents@[s as int],
                    h == pre.parents@[t as int],
                    t == pre.move_dst(s as int, dir),
                    rt == h.reverse,
                    h.size + g.size <= n,
                    self.parents == pre.parents,
                    self.listing == pre.listing,
                    self.rank == pre.rank,
                    self.ring == pre.ring,
                    self.base == pre.base,
                    self.attached == pre.attached,
                    self.vertices@.len() == n,
                    k3 < h.size ==> c3 == pre.listing@[if dir {
                        pre.base@[t as int] + k3
                    } else {
                        pre.base@[t as int] + h.size - 1 - k3
                    }],
                    forall|v: int|
                        0 <= v < n ==> #[trigger] self.vertices@[v] == pre.move_step(
                            v,
                            s as int,
                            cnt as int,
                            dir,
                            cnt as int,
                            rest as int,
                            k3 as int,
                        ),
                decreases h.size - k3,
            {
                proof {
                    pre.lemma_move_layout(s as int, cnt as int, dir);
                    pre.lemma_move_walk_dst(s as int, cnt as int, dir, k3 as int);
                    pre.lemma_move_step(
                        c3 as int,
                        s as int,
                        cnt as int,
                        dir,
                        cnt as int,
                        rest as int,
                        k3 as int,
                    );
                    assert(self.vertices@[c3 as int] == pre.move_step(
                        c3 as int,
                        s as int,
                        cnt as int,
                        dir,
                        cnt as int,
                        rest as int,
                        k3 as int,
                    ));
                }
                let a = self.vertices[c3];
                let nxt = if dir {
                    a.forward(rt)
                } else {
                    a.backward(rt)
                };
                let rec = TltVertex { seq_id: a.seq_id + cnt, ..a };
                proof {
                    assert(rec == pre.move_record(c3 as int, s as int, cnt as int, dir));
                }
                self.vertices.set(c3, rec);
                proof {
                    assert forall|v: int| 0 <= v < n implies #[trigger] self.vertices@[v]
                        == pre.move_step(
                        v,
                        s as int,
                        cnt as int,
                        dir,
                        cnt as int,
                        rest as int,
                        k3 as int + 1,
                    ) by {
                        pre.lemma_move_step(
                            v,
                            s as int,
                            cnt as int,
                            dir,
                            cnt as int,
                            rest as int,
                            k3 as int,
                        );
                    }
                }
                c3 = nxt;
                k3 += 1;
            }
        }
        let src = if dir {
            if rs {
                ParentVertex { first: edge, size: rest, ..g }
            } else {
                ParentVertex { last: edge, size: rest, ..g }
            }
        } else {
            if rs {
                ParentVertex { last: edge, size: rest, ..g }
            } else {
                ParentVertex { first: edge, size: rest, ..g }
            }
        };
        let far = if h.size == 0 {
            outer
        } else if dir {
            h.tail()
        } else {
            h.head()
        };
        let dst = if dir == rt {
            ParentVertex { last: inner, first: far, size: h.size + cnt, ..h }
        } else {
            ParentVertex { first: inner, last: far, size: h.size + cnt, ..h }
        };
        self.parents.set(s, src);
        self.parents.set(t, dst);
        proof {
            self.base@ = Seq::new(
                pre.base@.len(),
                |q: int| pre.move_base(q, s as int, cnt as int, dir),
            );
            assert(pre.parent_ok(s as int));
            assert(pre.parent_ok(t as int));
            assert(src == pre.move_parent(s as int, s as int, cnt as int, dir));
            assert(dst == pre.move_parent(t as int, s as int, cnt as int, dir));
            assert forall|v: int| 0 <= v < n implies #[trigger] self.vertices@[v]
                == pre.move_record(v, s as int, cnt as int, dir) by {
                pre.lemma_move_skip(v, s as int, cnt as int, dir);
                pre.lemma_move_step(v, s as int, cnt as int, dir, cnt as int, rest as int, 0);
            }
            pre.lemma_move_done(*self, s as int, cnt as int, dir);
            pre.lemma_frame_moved(*self, s as int, cnt as int, dir);
        }
    }

    /// The layout after a move.
    pub(crate) proof fn lemma_frame_moved(&self, post: TwoLevelTree, s: int, cnt: int, dir: bool)
        requires
            self.move_given(s, cnt, dir),
            self.move_done(post, s, cnt, dir),
        ensures
            post.frame() == self.frame().moved(s, cnt, dir),
            self.frame().beside(s, dir) == self.move_dst(s, dir),
    {
        self.lemma_move_layout(s, cnt, dir);
        let t = self.move_dst(s, dir);
        let a = post.frame();
        let b = self.frame().moved(s, cnt, dir);
        assert(self.link_ok(s));
        assert(self.frame().beside(s, dir) == t);
        assert forall|q: int| 0 <= q < self.m() implies a.ids[q] == b.ids[q] && a.sizes[q]
            == b.sizes[q] && a.flags[q] == b.flags[q] && a.starts[q] == b.starts[q] by {
            assert(post.parents@[q] == self.move_parent(q, s, cnt, dir));
            assert(post.base@[q] == self.move_base(q, s, cnt, dir));
        }
        crate::frame::lemma_frame_eq(a, b);
    }
}

} // verus!
