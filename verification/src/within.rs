//! Reversal of a block of vertices that lies inside one segment.

use vstd::prelude::*;
use crate::cyclic::{after, before, lemma_reverse_block_neighbours, mirror, reverse_block};
use crate::parent::ParentVertex;
use crate::tree::TwoLevelTree;
use crate::vertex::TltVertex;

verus! {

impl TwoLevelTree {
    /// What a caller of the block reversal must provide: a loaded tree and
    /// a block `i..=j` of the listing that lies inside segment `s` and is
    /// not the whole listing.
    pub(crate) open spec fn within_given(&self, s: int, i: int, j: int) -> bool {
        &&& self.wf()
        &&& self.attached
        &&& 0 <= s < self.m()
        &&& self.base@[s] <= i <= j < self.base@[s] + self.parents@[s].size
        &&& !(i == 0 && j == self.n() - 1)
    }

    /// The record of vertex `v` after the block `i..=j` of segment `s` has
    /// been reversed: inside the block the links change places and the
    /// sequence numbers are mirrored, and the four links across the two cuts
    /// are rewired.
    pub(crate) open spec fn within_record(&self, v: int, s: int, i: int, j: int) -> TltVertex {
        let r = self.parents@[s].reverse;
        let u = self.listing@[i];
        let w = self.listing@[j];
        let x = before(self.listing@, i);
        let y = after(self.listing@, j);
        let rx = self.parents@[self.vertices@[x as int].parent as int].reverse;
        let ry = self.parents@[self.vertices@[y as int].parent as int].reverse;
        let a = self.vertices@[v];
        let a0 = if i <= self.rank@[v] <= j {
            TltVertex {
                seq_id: (self.vertices@[u as int].seq_id + self.vertices@[w as int].seq_id
                    - a.seq_id) as usize,
                ..a.turned()
            }
        } else {
            a
        };
        let a1 = if v == u {
            a0.with_fwd(r, y)
        } else {
            a0
        };
        let a2 = if v == w {
            a1.with_bwd(r, x)
        } else {
            a1
        };
        let a3 = if v == x {
            a2.with_fwd(rx, w)
        } else {
            a2
        };
        if v == y {
            a3.with_bwd(ry, u)
        } else {
            a3
        }
    }

    /// The record of segment `s` after its block `i..=j` has been reversed:
    /// where the block reaches an end of the segment, that end changes.
    pub(crate) open spec fn within_parent(&self, s: int, i: int, j: int) -> ParentVertex {
        let g = self.parents@[s];
        let head = if i == self.base@[s] {
            self.listing@[j]
        } else {
            g.spec_head()
        };
        let tail = if j == self.base@[s] + g.size - 1 {
            self.listing@[i]
        } else {
            g.spec_tail()
        };
        if g.reverse {
            ParentVertex { first: tail, last: head, ..g }
        } else {
            ParentVertex { first: head, last: tail, ..g }
        }
    }

    /// What the reversal of the block `i..=j` of segment `s` makes of
    /// `self`.
    pub(crate) open spec fn within_done(&self, post: TwoLevelTree, s: int, i: int, j: int) -> bool {
        &&& post.attached
        &&& post.listing@ == reverse_block(self.listing@, i, j)
        &&& post.rank@ == Seq::new(self.rank@.len(), |v: int| mirror(i, j, self.rank@[v]))
        &&& post.ring@ == self.ring@
        &&& post.base@ == self.base@
        &&& post.parents@ == self.parents@.update(s, self.within_parent(s, i, j))
        &&& post.vertices@.len() == self.vertices@.len()
        &&& forall|v: int|
            0 <= v < self.n() ==> #[trigger] post.vertices@[v] == self.within_record(v, s, i, j)
    }

    /// Which vertices stand at and next to the ends of the block, and how
    /// a vertex is told apart from them by its position.
    pub(crate) proof fn lemma_within_who(&self, s: int, i: int, j: int, v: int)
        requires
            self.within_given(s, i, j),
            0 <= v < self.n(),
        ensures
            ({
                let n = self.n();
                let p = self.rank@[v];
                let u = self.listing@[i] as int;
                let w = self.listing@[j] as int;
                let x = before(self.listing@, i) as int;
                let y = after(self.listing@, j) as int;
                let r = self.parents@[s].reverse;
                &&& 0 <= i <= j < n
                &&& 0 <= p < n
                &&& self.listing@[p] == v
                &&& 0 <= u < n && 0 <= w < n && 0 <= x < n && 0 <= y < n
                &&& (v == u <==> p == i)
                &&& (v == w <==> p == j)
                &&& (v == x <==> p == (if i > 0 {
                    i - 1
                } else {
                    n - 1
                }))
                &&& (v == y <==> p == (if j + 1 < n {
                    j + 1
                } else {
                    0
                }))
                &&& self.vertices@[u].parent == s
                &&& self.vertices@[w].parent == s
                &&& (i <= p <= j ==> self.vertices@[v].parent == s)
                &&& self.vertices@[x].parent < self.m()
                &&& self.vertices@[y].parent < self.m()
                &&& self.vertices@[v].parent < self.m()
                &&& self.vertices@[u].bwd(r) == x
                &&& self.vertices@[w].fwd(r) == y
                &&& self.vertices@[u].seq_id == (if r {
                    self.base@[s] + self.parents@[s].size - 1 - i
                } else {
                    i - self.base@[s]
                })
                &&& self.vertices@[w].seq_id == (if r {
                    self.base@[s] + self.parents@[s].size - 1 - j
                } else {
                    j - self.base@[s]
                })
            }),
    {
        assert(self.parent_ok(s));
        self.lemma_owner(i, s);
        self.lemma_owner(j, s);
        let u = self.listing@[i] as int;
        let w = self.listing@[j] as int;
        let x = before(self.listing@, i) as int;
        let y = after(self.listing@, j) as int;
        assert(self.vertex_ok(u));
        assert(self.vertex_ok(w));
        assert(self.vertex_ok(x));
        assert(self.vertex_ok(y));
        assert(self.vertex_ok(v));
        if i <= self.rank@[v] <= j {
            self.lemma_owner(self.rank@[v], s);
        }
    }

    /// The listing with the block reversed is a listing of all nodes; the
    /// ring is as it was, and the records keep what does not depend on the
    /// tour.
    proof fn lemma_within_common(&self, post: TwoLevelTree, s: int, i: int, j: int)
        requires
            self.within_given(s, i, j),
            self.within_done(post, s, i, j),
        ensures
            post.common_ok(),
            post.n() == self.n(),
            post.m() == self.m(),
            post.listing_ok(),
            post.ring_ok(),
            post.same_marks(*self),
    {
        assert forall|v: int| 0 <= v < self.n() implies (#[trigger] post.vertices@[v]).index == v
            && post.vertices@[v].visited == self.vertices@[v].visited by {
            assert(self.vertices@[v].index == v);
            assert(post.vertices@[v] == self.within_record(v, s, i, j));
        }
        assert forall|t: int| 0 <= t < post.m() implies (#[trigger] post.parents@[t]).max_size
            == post.parents@[0].max_size by {
            assert(self.parents@[t].max_size == self.parents@[0].max_size);
        }
        assert forall|v: int| 0 <= v < post.n() implies 0 <= (#[trigger] post.rank@[v]) < post.n()
            && post.listing@[post.rank@[v]] == v by {
            assert(0 <= self.rank@[v] < self.n());
            assert(self.parent_ok(s));
        }
        assert forall|p: int| 0 <= p < post.n() implies (#[trigger] post.listing@[p]) < post.n()
            && post.rank@[post.listing@[p] as int] == p by {
            let q = mirror(i, j, p);
            assert(self.parent_ok(s));
            assert(self.listing@[q] < self.n());
        }
        assert forall|k: int| 0 <= k < post.m() implies (#[trigger] post.ring@[k]) < post.m()
            && post.parents@[post.ring@[k] as int].id == k by {
            assert(self.ring@[k] < self.m());
        }
        assert forall|t: int| 0 <= t < post.m() implies (#[trigger] post.parents@[t]).id < post.m()
            && post.ring@[post.parents@[t].id as int] == t by {
            assert(self.parents@[t].id < self.m());
        }
        assert forall|t: int| 0 <= t < post.m() implies #[trigger] post.link_ok(t) by {
            assert(self.link_ok(t));
        }
    }

    /// Segment `t` covers its part of the listing with the block reversed.
    proof fn lemma_within_parent(&self, post: TwoLevelTree, s: int, i: int, j: int, t: int)
        requires
            self.within_given(s, i, j),
            self.within_done(post, s, i, j),
            0 <= t < self.m(),
        ensures
            post.parent_ok(t),
    {
        assert(self.parent_ok(t));
        assert(self.parent_ok(s));
        let g = self.parents@[t];
        if g.id > 0 {
            let q = self.ring@[g.id - 1] as int;
            assert(q < self.m());
        }
        if t != s {
            self.lemma_apart(s, t);
            if g.size > 0 {
                let a = self.base@[t];
                let b = a + g.size - 1;
                assert(mirror(i, j, a) == a);
                assert(mirror(i, j, b) == b);
            }
        } else {
            let a = self.base@[s];
            let b = a + g.size - 1;
            assert(mirror(i, j, a) == if a == i {
                j
            } else {
                a
            });
            assert(mirror(i, j, b) == if b == j {
                i
            } else {
                b
            });
        }
    }

    /// Vertex `v` agrees with the listing with the block reversed.
    proof fn lemma_within_vertex(&self, post: TwoLevelTree, s: int, i: int, j: int, v: int)
        requires
            self.within_given(s, i, j),
            self.within_done(post, s, i, j),
            0 <= v < self.n(),
        ensures
            post.vertex_ok(v),
    {
        self.lemma_within_who(s, i, j, v);
        let p = self.rank@[v];
        let t = self.vertices@[v].parent as int;
        let b = post.vertices@[v];
        let h = post.parents@[t];
        let pp = mirror(i, j, p);
        assert(b == self.within_record(v, s, i, j));
        assert(self.place_ok(v) && self.seq_ok(v)) by {
            assert(self.vertex_ok(v));
        }
        assert(post.rank@[v] == pp);
        assert(h.reverse == self.parents@[t].reverse && h.size == self.parents@[t].size);
        assert(b.parent == t);
        lemma_reverse_block_neighbours(self.listing@, i, j, p);
        assert(post.seq_ok(v));
        assert(b.fwd(h.reverse) == after(post.listing@, pp));
        assert(b.bwd(h.reverse) == before(post.listing@, pp));
        assert(post.place_ok(v));
    }

    /// Reversing a block inside a segment leaves a well-formed tree.
    pub(crate) proof fn lemma_within_done(&self, post: TwoLevelTree, s: int, i: int, j: int)
        requires
            self.within_given(s, i, j),
            self.within_done(post, s, i, j),
        ensures
            post.wf(),
            post.n() == self.n(),
            post.m() == self.m(),
            post.same_marks(*self),
    {
        self.lemma_within_common(post, s, i, j);
        assert forall|t: int| 0 <= t < post.m() implies #[trigger] post.parent_ok(t) by {
            self.lemma_within_parent(post, s, i, j, t);
        }
        assert forall|v: int| 0 <= v < post.n() implies #[trigger] post.vertex_ok(v) by {
            self.lemma_within_vertex(post, s, i, j, v);
        }
    }

    /// The record of vertex `v` while the block is being walked: vertices
    /// at positions below `upto` have been turned already.
    pub(crate) open spec fn within_turning(&self, v: int, i: int, j: int, upto: int) -> TltVertex {
        let u = self.listing@[i];
        let w = self.listing@[j];
        let a = self.vertices@[v];
        if i <= self.rank@[v] < upto {
            TltVertex {
                seq_id: (self.vertices@[u as int].seq_id + self.vertices@[w as int].seq_id
                    - a.seq_id) as usize,
                ..a.turned()
            }
        } else {
            a
        }
    }

    /// Exchanges the two links and mirrors the sequence number of every
    /// vertex on the way from `u` to `w` inside segment `s`. The links across
    /// the two cuts and the ends of the segment are left for the caller.
    fn turn_block(&mut self, s: usize, u: usize, w: usize)
        requires
            old(self).wf(),
            old(self).attached,
            u < old(self).n(),
            w < old(self).n(),
            old(self).within_given(
                s as int,
                old(self).rank@[u as int],
                old(self).rank@[w as int],
            ),
        ensures
            final(self).parents == old(self).parents,
            final(self).listing == old(self).listing,
            final(self).rank == old(self).rank,
            final(self).ring == old(self).ring,
            final(self).base == old(self).base,
            final(self).attached == old(self).attached,
            final(self).vertices@.len() == old(self).vertices@.len(),
            forall|v: int|
                0 <= v < old(self).n() ==> #[trigger] final(self).vertices@[v] == old(
                    self,
                ).within_turning(
                    v,
                    old(self).rank@[u as int],
                    old(self).rank@[w as int],
                    old(self).rank@[w as int] + 1,
                ),
    {
        let ghost pre = *self;
        let ghost i = pre.rank@[u as int];
        let ghost j = pre.rank@[w as int];
        proof {
            pre.lemma_within_who(s as int, i, j, u as int);
        }
        let n = self.vertices.len();
        let r = self.parents[s].reverse;
        let su = self.vertices[u].seq_id;
        let sw = self.vertices[w].seq_id;
        let cnt = if r {
            su - sw + 1
        } else {
            sw - su + 1
        };
        let mut cur = u;
        let mut t: usize = 0;
        while t < cnt
            invariant
                t <= cnt,
                cnt == j - i + 1,
                0 <= i <= j < n,
                pre.within_given(s as int, i, j),
                u == pre.listing@[i],
                w == pre.listing@[j],
                su == pre.vertices@[u as int].seq_id,
                sw == pre.vertices@[w as int].seq_id,
                r == pre.parents@[s as int].reverse,
                n == pre.n(),
                self.parents == pre.parents,
                self.listing == pre.listing,
                self.rank == pre.rank,
                self.ring == pre.ring,
                self.base == pre.base,
                self.attached == pre.attached,
                self.vertices@.len() == n,
                t < cnt ==> cur == pre.listing@[i + t],
                forall|v: int|
                    0 <= v < n ==> #[trigger] self.vertices@[v] == pre.within_turning(
                        v,
                        i,
                        j,
                        i + t,
                    ),
            decreases cnt - t,
        {
            proof {
                assert(pre.listing@[i + t] < n);
                pre.lemma_within_who(s as int, i, j, cur as int);
                pre.lemma_within_who(s as int, i, j, u as int);
                assert(pre.vertex_ok(cur as int));
                assert(pre.rank@[cur as int] == i + t);
                assert(self.vertices@[cur as int] == pre.within_turning(cur as int, i, j, i + t));
                assert(self.vertices@[cur as int] == pre.vertices@[cur as int]);
            }
            let a = self.vertices[cur];
            let nxt = a.forward(r);
            let sid = if r {
                sw + (su - a.seq_id)
            } else {
                su + (sw - a.seq_id)
            };
            let rec = TltVertex { seq_id: sid, prev: a.next, next: a.prev, ..a };
            proof {
                assert(rec == pre.within_turning(cur as int, i, j, i + t + 1));
            }
            self.vertices.set(cur, rec);
            proof {
                assert forall|v: int| 0 <= v < n implies #[trigger] self.vertices@[v]
                    == pre.within_turning(v, i, j, i + t + 1) by {
                    assert(0 <= pre.rank@[v] < n && pre.listing@[pre.rank@[v]] == v);
                    if v != cur {
                        assert(pre.rank@[v] != i + t);
                        assert(pre.within_turning(v, i, j, i + t + 1) == pre.within_turning(
                            v,
                            i,
                            j,
                            i + t,
                        ));
                    }
                }
            }
            cur = nxt;
            t += 1;
        }
    }

    /// Reverses the part of the tour that leads from `u` to `w`, two
    /// vertices of segment `s`, by rewriting the links and the sequence
    /// numbers of the vertices on it.
    pub(crate) fn reverse_within(&mut self, s: usize, u: usize, w: usize)
        requires
            old(self).wf(),
            old(self).attached,
            u < old(self).n(),
            w < old(self).n(),
            old(self).vertices@[u as int].parent == s,
            old(self).vertices@[w as int].parent == s,
            old(self).rank@[u as int] <= old(self).rank@[w as int],
            !(old(self).rank@[u as int] == 0 && old(self).rank@[w as int] == old(self).n() - 1),
        ensures
            final(self).wf(),
            old(self).within_done(
                *final(self),
                s as int,
                old(self).rank@[u as int],
                old(self).rank@[w as int],
            ),
            final(self).n() == old(self).n(),
            final(self).m() == old(self).m(),
            final(self).same_marks(*old(self)),
            final(self).frame() == old(self).frame(),
    {
        let ghost pre = *self;
        let ghost i = pre.rank@[u as int];
        let ghost j = pre.rank@[w as int];
        proof {
            assert(pre.vertex_ok(u as int));
            assert(pre.vertex_ok(w as int));
            assert(pre.within_given(s as int, i, j));
            pre.lemma_within_who(s as int, i, j, u as int);
        }
        let g = self.parents[s];
        let r = g.reverse;
        let x = self.vertices[u].backward(r);
        let y = self.vertices[w].forward(r);
        let rx = self.parents[self.vertices[x].parent].reverse;
        let ry = self.parents[self.vertices[y].parent].reverse;
        self.turn_block(s, u, w);
        let ghost mid = *self;
        self.vertices[u].set_forward(r, y);
        self.vertices[w].set_backward(r, x);
        self.vertices[x].set_forward(rx, w);
        self.vertices[y].set_backward(ry, u);
        proof {
            assert forall|v: int| 0 <= v < pre.n() implies #[trigger] self.vertices@[v]
                == pre.within_record(v, s as int, i, j) by {
                pre.lemma_within_who(s as int, i, j, v);
                assert(mid.vertices@[v] == pre.within_turning(v, i, j, j + 1));
            }
        }
        let head = g.head();
        let tail = g.tail();
        let nh = if head == u {
            w
        } else {
            head
        };
        let nt = if tail == w {
            u
        } else {
            tail
        };
        if r {
            self.parents.set(s, ParentVertex { first: nt, last: nh, ..g });
        } else {
            self.parents.set(s, ParentVertex { first: nh, last: nt, ..g });
        }
        proof {
            self.listing@ = reverse_block(pre.listing@, i, j);
            self.rank@ = Seq::new(pre.rank@.len(), |v: int| mirror(i, j, pre.rank@[v]));
            assert(pre.parent_ok(s as int));
            assert(self.parents@[s as int] == pre.within_parent(s as int, i, j)) by {
                assert(pre.listing@[pre.base@[s as int]] < pre.n());
                assert(pre.listing@[pre.base@[s as int] + g.size - 1] < pre.n());
            }
            pre.lemma_within_done(*self, s as int, i, j);
            crate::frame::lemma_frame_eq(self.frame(), pre.frame());
        }
    }
}

} // verus!
