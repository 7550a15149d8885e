//! The flip move: two edges of the tour are exchanged for two others by
//! reversing the path between them.
//!
//! The two edges `(a, b)` and `(c, d)` may each be given in tour direction
//! or against it. Where they run the same way, `a` is joined to `c` and `b`
//! to `d`; where they run against each other, `a` is joined to `d` and `b`
//! to `c`, for the other pairing would take the tour apart into two cycles.
//! What follows speaks of two edges in tour direction.
//!
//! Reversing the path from `b` to `c` and reversing the rest of the cycle,
//! from `d` to `a`, give the same cycle. A flip reverses the side that is
//! cheaper to reverse. How much work that takes depends on where the two
//! cuts fall:
//!
//! * both cuts inside one segment: the vertices between them are rewritten
//!   one by one, or, where they are the whole segment, the segment's flag is
//!   toggled;
//! * both cuts between segments: the run of segments between the cuts is
//!   reversed in the ring and every segment of the run is flagged the other
//!   way round. Of the two runs that the cuts bound, the one that does not
//!   pass the seam of the listing is the inner run, the other the outer run;
//!   the shorter of the two is reversed. Before an outer run is reversed the
//!   places of the ring are counted anew, so that the listing begins behind
//!   the run;
//! * a cut inside a segment: the segment is split at the cut by moving the
//!   smaller side into the neighbouring segment, after which the cut lies
//!   between segments.
//!
//! Segments are never split or merged to restore their configured size: a
//! flip changes their sizes by what it moves, and nothing else does. How the
//! segments are laid out after a flip is written down in `flip_frame`.

use vstd::prelude::*;
use crate::cyclic::{mirror, next_place, prev_place, reverse_block, rotated, shifted};
use crate::frame::Frame;
use crate::tree::TwoLevelTree;

verus! {

impl TwoLevelTree {
    /// The part of the listing that lies between the edges `(a, b)` and
    /// `(c, d)` without passing the seam of the listing, as the positions
    /// of its first and its last entry.
    ///
    /// The edges are read in tour direction; where they are given against
    /// it, both are turned round first. The part is the path from the head
    /// of the first edge to the tail of the second where that path lies
    /// inside the listing, and the rest of the cycle otherwise.
    pub open spec fn flip_block(&self, a: int, b: int, c: int, d: int) -> (int, int) {
        if self.succ(a) == b {
            if self.rank(b) <= self.rank(c) {
                (self.rank(b), self.rank(c))
            } else {
                (self.rank(d), self.rank(a))
            }
        } else {
            if self.rank(a) <= self.rank(d) {
                (self.rank(a), self.rank(d))
            } else {
                (self.rank(c), self.rank(b))
            }
        }
    }

    /// The segment that owns the node at position `p` of the listing.
    pub open spec fn owner(&self, p: int) -> int {
        self.vertices_view()[self@[p] as int].parent as int
    }

    /// Whether `flip_at` reverses the outer side: the two cuts lie in
    /// different segments, and from the first to the second there are more
    /// steps along the ring than from the second round to the first.
    pub open spec fn flip_outer(&self, a: int, b: int, c: int, d: int) -> bool {
        let (i, j) = self.flip_block(a, b, c, d);
        let inner = self.parents_view()[self.owner(j)].id - self.parents_view()[self.owner(i)].id;
        self.owner(i) != self.owner(j) && inner > self.parents_view().len() - inner
    }

    /// The position from which the listing is read after `flip_at`: the
    /// old beginning, or, where the outer side is reversed, the beginning of
    /// the segment in which the inner side ends.
    pub open spec fn flip_origin(&self, a: int, b: int, c: int, d: int) -> int {
        if self.flip_outer(a, b, c, d) {
            self.spec_start(self.owner(self.flip_block(a, b, c, d).1))
        } else {
            0
        }
    }

    /// The block that `flip_at` reverses, as positions of the listing read
    /// from `flip_origin` on.
    pub open spec fn flip_span(&self, a: int, b: int, c: int, d: int) -> (int, int) {
        let (i, j) = self.flip_block(a, b, c, d);
        let r = self.flip_origin(a, b, c, d);
        if self.flip_outer(a, b, c, d) {
            (j + 1 - r, self.spec_len() + i - 1 - r)
        } else {
            (i, j)
        }
    }

    /// The listing after `flip_at`.
    pub open spec fn flipped(&self, a: int, b: int, c: int, d: int) -> Seq<usize> {
        reverse_block(
            rotated(self@, self.flip_origin(a, b, c, d)),
            self.flip_span(a, b, c, d).0,
            self.flip_span(a, b, c, d).1,
        )
    }

    /// The position of node `v` in the listing after `flip_at`.
    pub open spec fn flipped_rank(&self, v: int, a: int, b: int, c: int, d: int) -> int {
        mirror(
            self.flip_span(a, b, c, d).0,
            self.flip_span(a, b, c, d).1,
            shifted(self.flip_origin(a, b, c, d), self.spec_len() as int, self.rank(v)),
        )
    }

    /// The layout of the segments after `flip_at`.
    ///
    /// Where the outer side is reversed, the places of the ring are first
    /// counted from the segment in which the inner side ends. The block is
    /// then reversed as `Frame::path_turned` says: inside its segment where
    /// it has one, and otherwise as a run of whole segments, after the two
    /// segments at its ends have each given their smaller side away.
    pub open spec fn flip_frame(&self, a: int, b: int, c: int, d: int) -> Frame {
        let (i, j) = self.flip_block(a, b, c, d);
        let n = self.spec_len() as int;
        if self.flip_outer(a, b, c, d) {
            self.frame().anchored(self.owner(j), n).path_turned(
                self.owner(next_place(j, n)),
                self.owner(prev_place(i, n)),
                self.flip_span(a, b, c, d).0,
                self.flip_span(a, b, c, d).1,
            )
        } else {
            self.frame().path_turned(self.owner(i), self.owner(j), i, j)
        }
    }

    /// The layout after the rest of the cycle has been reversed instead of
    /// the block that leads from `u` to `w`.
    pub(crate) open spec fn outer_frame(&self, u: int, w: int) -> Frame {
        let n = self.n();
        let sw = self.vertices@[w].parent as int;
        let r = self.base@[sw];
        let i = self.rank@[u];
        let j = self.rank@[w];
        self.frame().anchored(sw, n).path_turned(
            self.vertices@[self.listing@[next_place(j, n)] as int].parent as int,
            self.vertices@[self.listing@[prev_place(i, n)] as int].parent as int,
            j + 1 - r,
            n + i - 1 - r,
        )
    }

    /// Whether every vertex outside the segment of `u` has the segment that
    /// it had in `pre`.
    pub(crate) open spec fn others_stay(&self, pre: TwoLevelTree, u: int) -> bool {
        forall|v: int|
            0 <= v < pre.n() && pre.vertices@[v].parent != pre.vertices@[u].parent ==> (
            #[trigger] self.vertices@[v]).parent == pre.vertices@[v].parent
    }

    /// Whether `(a, b)` and `(c, d)` are two different edges of the tour.
    /// Each may be given in tour direction or against it; they are different
    /// where they do not join the same two nodes.
    pub open spec fn flippable(&self, a: int, b: int, c: int, d: int) -> bool {
        &&& 0 <= a < self.spec_len()
        &&& 0 <= b < self.spec_len()
        &&& 0 <= c < self.spec_len()
        &&& 0 <= d < self.spec_len()
        &&& !(a == c && b == d)
        &&& !(a == d && b == c)
        &&& self.succ(a) == b || self.pred(a) == b
        &&& self.succ(c) == d || self.pred(c) == d
    }

    /// The second edge as `flip_at` reads it: as it is given where the two
    /// edges run the same way, and turned round otherwise. With the edges
    /// running against each other, joining `a` to `c` and `b` to `d` would
    /// take the tour apart into two cycles; `a` is joined to `d` and `b` to
    /// `c` then.
    pub open spec fn turned(&self, a: int, b: int, c: int, d: int) -> (int, int) {
        if self.aligned(a, b, c, d) {
            (c, d)
        } else {
            (d, c)
        }
    }

    /// Whether `(a, b)` and `(c, d)` are two different edges of the tour,
    /// both given in tour direction or both against it.
    pub open spec fn aligned(&self, a: int, b: int, c: int, d: int) -> bool {
        &&& 0 <= a < self.spec_len()
        &&& 0 <= b < self.spec_len()
        &&& 0 <= c < self.spec_len()
        &&& 0 <= d < self.spec_len()
        &&& a != c
        &&& !(a == d && b == c)
        &&& (self.succ(a) == b && self.succ(c) == d) || (self.pred(a) == b && self.pred(c) == d)
    }

    /// Whether `u` is the vertex at which the tour enters its segment.
    pub(crate) open spec fn heads(&self, u: int) -> bool {
        &&& self.vertices@[u].parent < self.m()
        &&& self.base@[self.vertices@[u].parent as int] == self.rank@[u]
    }

    /// Whether `w` is the vertex at which the tour leaves its segment.
    pub(crate) open spec fn tails(&self, w: int) -> bool {
        let q = self.vertices@[w].parent as int;
        &&& q < self.m()
        &&& self.base@[q] + self.parents@[q].size - 1 == self.rank@[w]
    }

    /// Whether `v` belongs to a segment that ends before `w`.
    pub(crate) open spec fn earlier(&self, v: int, w: int) -> bool {
        self.vertices@[v].parent != self.vertices@[w].parent && self.rank@[v] < self.rank@[w]
    }

    /// Whether `v` has the segment that it had in `pre`, and that segment
    /// the beginning that it had.
    pub(crate) open spec fn keeps(&self, pre: TwoLevelTree, v: int) -> bool {
        let q = pre.vertices@[v].parent as int;
        self.vertices@[v].parent == q && self.base@[q] == pre.base@[q]
    }

    /// Decides whether `flip_at` may be called with these four nodes: a
    /// tour is loaded, and `(a, b)` and `(c, d)` are two different edges of
    /// it.
    pub fn is_flippable(&self, a: usize, b: usize, c: usize, d: usize) -> (r: bool)
        requires
            self.wf(),
        ensures
            r == (self.is_attached() && self.flippable(a as int, b as int, c as int, d as int)),
    {
        let n = self.vertices.len();
        if !self.attached || a >= n || b >= n || c >= n || d >= n || (a == c && b == d) || (a
            == d && b == c) {
            return false;
        }
        proof {
            assert(self.vertex_ok(a as int));
            assert(self.vertex_ok(c as int));
        }
        let ra = self.parents[self.vertices[a].parent].reverse;
        let rc = self.parents[self.vertices[c].parent].reverse;
        let va = self.vertices[a];
        let vc = self.vertices[c];
        (va.forward(ra) == b || va.backward(ra) == b) && (vc.forward(rc) == d || vc.backward(rc)
            == d)
    }

    /// The second of two edges that can be flipped, as `flip_at` reads it:
    /// `flip_at(a, b, c, d)` joins `a` to the first and `b` to the second of
    /// the two nodes returned.
    pub fn flip_joins(&self, a: usize, b: usize, c: usize, d: usize) -> (r: (usize, usize))
        requires
            self.wf(),
            self.is_attached(),
            self.flippable(a as int, b as int, c as int, d as int),
        ensures
            (r.0 as int, r.1 as int) == self.turned(a as int, b as int, c as int, d as int),
            self.aligned(a as int, b as int, r.0 as int, r.1 as int),
    {
        proof {
            self.lemma_turned(a as int, b as int, c as int, d as int);
        }
        if self.is_aligned(a, b, c, d) {
            (c, d)
        } else {
            (d, c)
        }
    }

    /// Decides whether `(a, b)` and `(c, d)` are two different edges of the
    /// loaded tour that run the same way.
    pub(crate) fn is_aligned(&self, a: usize, b: usize, c: usize, d: usize) -> (r: bool)
        requires
            self.wf(),
        ensures
            r == (self.is_attached() && self.aligned(a as int, b as int, c as int, d as int)),
    {
        let n = self.vertices.len();
        if !self.attached || a >= n || b >= n || c >= n || d >= n || a == c || (a == d && b
            == c) {
            return false;
        }
        proof {
            assert(self.vertex_ok(a as int));
            assert(self.vertex_ok(c as int));
        }
        let ra = self.parents[self.vertices[a].parent].reverse;
        let rc = self.parents[self.vertices[c].parent].reverse;
        let va = self.vertices[a];
        let vc = self.vertices[c];
        (va.forward(ra) == b && vc.forward(rc) == d) || (va.backward(ra) == b && vc.backward(rc)
            == d)
    }

    /// Whether `x` stands no later in the listing than `y`.
    pub(crate) fn precedes(&self, x: usize, y: usize) -> (r: bool)
        requires
            self.wf(),
            self.attached,
            x < self.n(),
            y < self.n(),
        ensures
            r == (self.rank@[x as int] <= self.rank@[y as int]),
    {
        proof {
            assert(self.vertex_ok(x as int));
            assert(self.vertex_ok(y as int));
        }
        let a = self.vertices[x];
        let b = self.vertices[y];
        if a.parent == b.parent {
            if self.parents[a.parent].reverse {
                b.seq_id <= a.seq_id
            } else {
                a.seq_id <= b.seq_id
            }
        } else {
            proof {
                self.lemma_apart(a.parent as int, b.parent as int);
                assert(self.parent_ok(a.parent as int));
                assert(self.parent_ok(b.parent as int));
            }
            self.parents[a.parent].id < self.parents[b.parent].id
        }
    }

    /// Makes `u` the first vertex of a segment without changing the tour:
    /// where `u` stands inside its segment, the smaller side of the segment
    /// moves into the neighbouring segment. Before the first segment of the
    /// ring there is no neighbour, so there the side behind the cut moves.
    pub(crate) fn align_head(&mut self, u: usize)
        requires
            old(self).wf(),
            old(self).attached,
            u < old(self).n(),
            old(self).parents@[old(self).vertices@[u as int].parent as int].id + 1 < old(self).m(),
        ensures
            final(self).wf(),
            final(self).attached,
            final(self).listing@ == old(self).listing@,
            final(self).rank@ == old(self).rank@,
            final(self).n() == old(self).n(),
            final(self).m() == old(self).m(),
            final(self).same_marks(*old(self)),
            final(self).parents@[0].max_size == old(self).parents@[0].max_size,
            final(self).heads(u as int),
            final(self).others_stay(*old(self), u as int),
            (final(self).frame(), final(self).vertices@[u as int].parent as int) == old(
                self,
            ).frame().head_aligned(
                old(self).vertices@[u as int].parent as int,
                old(self).rank@[u as int],
            ),
    {
        let ghost pre = *self;
        proof {
            assert(pre.vertex_ok(u as int));
        }
        let n = self.vertices.len();
        let s = self.vertices[u].parent;
        let g = self.parents[s];
        proof {
            assert(pre.parent_ok(s as int));
        }
        if g.head() == u {
            proof {
                assert(pre.listing@[pre.base@[s as int]] == u);
            }
            return ;
        }
        let seq = self.vertices[u].seq_id;
        let d1 = if g.reverse {
            g.size - 1 - seq
        } else {
            seq
        };
        let d2 = g.size - d1;
        let dir = !(d1 <= d2 && g.id > 0);
        let cnt = if dir {
            d2
        } else {
            d1
        };
        proof {
            assert(d1 == pre.rank@[u as int] - pre.base@[s as int]);
            assert(d1 > 0) by {
                assert(pre.listing@[pre.base@[s as int]] == g.spec_head());
            }
            assert(pre.move_given(s as int, cnt as int, dir));
            pre.lemma_move_layout(s as int, cnt as int, dir);
        }
        self.relocate(s, cnt, dir);
        proof {
            assert(self.vertices@[u as int] == pre.move_record(u as int, s as int, cnt as int, dir));
            let q = self.vertices@[u as int].parent as int;
            assert(self.base@[q] == pre.move_base(q, s as int, cnt as int, dir));
            assert(self.parents@[0] == pre.move_parent(0, s as int, cnt as int, dir));
            assert forall|v: int|
                0 <= v < pre.n() && pre.vertices@[v].parent != s implies (
            #[trigger] self.vertices@[v]).parent == pre.vertices@[v].parent by {
                assert(self.vertices@[v] == pre.move_record(v, s as int, cnt as int, dir));
            }
        }
    }

    /// Makes `w` the last vertex of a segment without changing the tour:
    /// where `w` stands inside its segment, the smaller side of the segment
    /// moves into the neighbouring segment. Behind the last segment of the
    /// ring there is no neighbour, so there the side before the cut moves.
    /// Vertices of earlier segments keep their segment, and those segments
    /// keep their beginning.
    pub(crate) fn align_tail(&mut self, w: usize)
        requires
            old(self).wf(),
            old(self).attached,
            w < old(self).n(),
            old(self).parents@[old(self).vertices@[w as int].parent as int].id > 0,
        ensures
            final(self).wf(),
            final(self).attached,
            final(self).listing@ == old(self).listing@,
            final(self).rank@ == old(self).rank@,
            final(self).n() == old(self).n(),
            final(self).m() == old(self).m(),
            final(self).same_marks(*old(self)),
            final(self).parents@[0].max_size == old(self).parents@[0].max_size,
            final(self).tails(w as int),
            (final(self).frame(), final(self).vertices@[w as int].parent as int) == old(
                self,
            ).frame().tail_aligned(
                old(self).vertices@[w as int].parent as int,
                old(self).rank@[w as int],
            ),
            forall|v: int|
                0 <= v < old(self).n() && old(self).earlier(v, w as int)
                    ==> #[trigger] final(self).keeps(*old(self), v),
    {
        let ghost pre = *self;
        proof {
            assert(pre.vertex_ok(w as int));
        }
        let n = self.vertices.len();
        let m = self.parents.len();
        let s = self.vertices[w].parent;
        let g = self.parents[s];
        proof {
            assert(pre.parent_ok(s as int));
        }
        if g.tail() == w {
            proof {
                assert(pre.listing@[pre.base@[s as int] + g.size - 1] == w);
            }
            return ;
        }
        let seq = self.vertices[w].seq_id;
        let d1 = if g.reverse {
            g.size - seq
        } else {
            seq + 1
        };
        let d2 = g.size - d1;
        let dir = !(d1 <= d2 || g.id + 1 == m);
        let cnt = if dir {
            d2
        } else {
            d1
        };
        proof {
            assert(d1 == pre.rank@[w as int] - pre.base@[s as int] + 1);
            assert(d2 > 0) by {
                assert(pre.listing@[pre.base@[s as int] + g.size - 1] == g.spec_tail());
            }
            assert(pre.move_given(s as int, cnt as int, dir));
            pre.lemma_move_layout(s as int, cnt as int, dir);
        }
        self.relocate(s, cnt, dir);
        proof {
            let t = pre.move_dst(s as int, dir);
            assert(self.vertices@[w as int] == pre.move_record(w as int, s as int, cnt as int, dir));
            let q = self.vertices@[w as int].parent as int;
            assert(self.base@[q] == pre.move_base(q, s as int, cnt as int, dir));
            assert(self.parents@[q] == pre.move_parent(q, s as int, cnt as int, dir));
            assert(self.parents@[0] == pre.move_parent(0, s as int, cnt as int, dir));
            assert forall|v: int| 0 <= v < pre.n() && pre.earlier(v, w as int) implies #[trigger] self.keeps(
                pre,
                v,
            ) by {
                assert(pre.vertex_ok(v));
                let qv = pre.vertices@[v].parent as int;
                assert(self.vertices@[v] == pre.move_record(v, s as int, cnt as int, dir));
                assert(self.base@[qv] == pre.move_base(qv, s as int, cnt as int, dir));
                pre.lemma_apart(qv, s as int);
                assert(pre.parent_ok(qv));
            }
        }
    }

    /// Reverses the block of the listing that leads from `u` to `w`, two
    /// vertices of segment `s`.
    pub(crate) fn reverse_inside(&mut self, s: usize, u: usize, w: usize)
        requires
            old(self).wf(),
            old(self).attached,
            u < old(self).n(),
            w < old(self).n(),
            old(self).vertices@[u as int].parent == s,
            old(self).vertices@[w as int].parent == s,
            old(self).rank@[u as int] <= old(self).rank@[w as int],
            !(old(self).rank@[u as int] == 0 && old(self).rank@[w as int] == old(self).n() - 1),
        ensures
            final(self).wf(),
            final(self).attached,
            final(self).listing@ == reverse_block(
                old(self).listing@,
                old(self).rank@[u as int],
                old(self).rank@[w as int],
            ),
            final(self).rank@ == Seq::new(
                old(self).rank@.len(),
                |v: int| mirror(old(self).rank@[u as int], old(self).rank@[w as int], old(self).rank@[v]),
            ),
            final(self).n() == old(self).n(),
            final(self).m() == old(self).m(),
            final(self).same_marks(*old(self)),
            final(self).parents@[0].max_size == old(self).parents@[0].max_size,
            final(self).frame() == old(self).frame().inside_turned(
                s as int,
                old(self).rank@[u as int],
                old(self).rank@[w as int],
            ),
    {
        let ghost pre = *self;
        proof {
            assert(pre.vertex_ok(u as int));
            assert(pre.vertex_ok(w as int));
            assert(pre.parent_ok(s as int));
            assert(pre.listing@[pre.base@[s as int]] == pre.parents@[s as int].spec_head());
            assert(pre.listing@[pre.base@[s as int] + pre.parents@[s as int].size - 1]
                == pre.parents@[s as int].spec_tail());
            assert(pre.rank@[pre.listing@[pre.base@[s as int]] as int] == pre.base@[s as int]);
            assert(pre.rank@[pre.listing@[pre.base@[s as int] + pre.parents@[s as int].size
                - 1] as int] == pre.base@[s as int] + pre.parents@[s as int].size - 1);
        }
        let g = self.parents[s];
        if g.head() == u && g.tail() == w {
            proof {
                pre.lemma_run_ends(s as int, s as int);
            }
            self.reverse_run(s, s);
        } else {
            self.reverse_within(s, u, w);
            proof {
                let i = pre.rank@[u as int];
                let j = pre.rank@[w as int];
                assert(self.parents@[0] == pre.parents@.update(
                    s as int,
                    pre.within_parent(s as int, i, j),
                )[0]);
            }
        }
    }

    /// Reverses the block of the listing that leads from `u` to `w`.
    pub(crate) fn reverse_path(&mut self, u: usize, w: usize)
        requires
            old(self).wf(),
            old(self).attached,
            u < old(self).n(),
            w < old(self).n(),
            old(self).rank@[u as int] <= old(self).rank@[w as int],
            !(old(self).rank@[u as int] == 0 && old(self).rank@[w as int] == old(self).n() - 1),
        ensures
            final(self).wf(),
            final(self).attached,
            final(self).listing@ == reverse_block(
                old(self).listing@,
                old(self).rank@[u as int],
                old(self).rank@[w as int],
            ),
            final(self).rank@ == Seq::new(
                old(self).rank@.len(),
                |v: int| mirror(old(self).rank@[u as int], old(self).rank@[w as int], old(self).rank@[v]),
            ),
            final(self).n() == old(self).n(),
            final(self).m() == old(self).m(),
            final(self).same_marks(*old(self)),
            final(self).parents@[0].max_size == old(self).parents@[0].max_size,
            final(self).frame() == old(self).frame().path_turned(
                old(self).vertices@[u as int].parent as int,
                old(self).vertices@[w as int].parent as int,
                old(self).rank@[u as int],
                old(self).rank@[w as int],
            ),
    {
        let ghost pre = *self;
        proof {
            assert(pre.vertex_ok(u as int));
            assert(pre.vertex_ok(w as int));
        }
        let su = self.vertices[u].parent;
        let sw = self.vertices[w].parent;
        if su == sw {
            self.reverse_inside(su, u, w);
            return ;
        }
        proof {
            pre.lemma_apart(su as int, sw as int);
            assert(pre.parent_ok(su as int));
            assert(pre.parent_ok(sw as int));
            assert(pre.parents@[sw as int].id < pre.m());
        }
        self.align_head(u);
        let ghost mid = *self;
        proof {
            assert(mid.vertex_ok(u as int));
            assert(mid.vertex_ok(w as int));
            assert(mid.vertices@[w as int].parent == pre.vertices@[w as int].parent);
        }
        let su = self.vertices[u].parent;
        let sw = self.vertices[w].parent;
        if su == sw {
            self.reverse_inside(su, u, w);
            proof {
                assert(self.same_marks(pre));
            }
            return ;
        }
        proof {
            mid.lemma_apart(su as int, sw as int);
            assert(mid.parent_ok(su as int));
            assert(mid.parent_ok(sw as int));
        }
        self.align_tail(w);
        let ghost late = *self;
        let s1 = self.vertices[u].parent;
        let s2 = self.vertices[w].parent;
        proof {
            assert(late.vertex_ok(u as int));
            assert(late.vertex_ok(w as int));
            assert(mid.earlier(u as int, w as int));
            assert(late.keeps(mid, u as int));
            assert(s1 == su);
            assert(late.run_lo(s1 as int) == pre.rank@[u as int]);
            assert(late.run_hi(s2 as int) == pre.rank@[w as int]);
            assert(late.parent_ok(s1 as int));
            assert(late.parent_ok(s2 as int));
            if s1 != s2 {
                late.lemma_apart(s1 as int, s2 as int);
            }
            assert(late.run_given(s1 as int, s2 as int));
        }
        self.reverse_run(s1, s2);
        proof {
            assert(self.same_marks(pre));
        }
    }

    /// Reverses the rest of the cycle instead of the block that leads from
    /// `u` to `w`: the places of the ring are counted from the segment of
    /// `w` on, after which the rest, from the node behind `w` to the node
    /// before `u`, is a block of the listing.
    pub(crate) fn reverse_outer(&mut self, u: usize, w: usize)
        requires
            old(self).wf(),
            old(self).attached,
            u < old(self).n(),
            w < old(self).n(),
            old(self).rank@[u as int] <= old(self).rank@[w as int],
            old(self).vertices@[u as int].parent != old(self).vertices@[w as int].parent,
            !(old(self).rank@[u as int] == 0 && old(self).rank@[w as int] == old(self).n() - 1),
        ensures
            final(self).wf(),
            final(self).attached,
            final(self).listing@ == reverse_block(
                rotated(old(self).listing@, old(self).base@[old(self).vertices@[w as int].parent as int]),
                old(self).rank@[w as int] + 1 - old(self).base@[old(self).vertices@[w as int].parent as int],
                old(self).n() + old(self).rank@[u as int] - 1
                    - old(self).base@[old(self).vertices@[w as int].parent as int],
            ),
            final(self).rank@ == Seq::new(
                old(self).rank@.len(),
                |v: int|
                    mirror(
                        old(self).rank@[w as int] + 1
                            - old(self).base@[old(self).vertices@[w as int].parent as int],
                        old(self).n() + old(self).rank@[u as int] - 1
                            - old(self).base@[old(self).vertices@[w as int].parent as int],
                        shifted(
                            old(self).base@[old(self).vertices@[w as int].parent as int],
                            old(self).n(),
                            old(self).rank@[v],
                        ),
                    ),
            ),
            final(self).n() == old(self).n(),
            final(self).m() == old(self).m(),
            final(self).same_marks(*old(self)),
            final(self).parents@[0].max_size == old(self).parents@[0].max_size,
            final(self).frame() == old(self).outer_frame(u as int, w as int),
    {
        let ghost pre = *self;
        proof {
            assert(pre.vertex_ok(u as int));
            assert(pre.vertex_ok(w as int));
        }
        let su = self.vertices[u].parent;
        let sw = self.vertices[w].parent;
        let u2 = self.vertices[w].forward(self.parents[sw].reverse);
        let w2 = self.vertices[u].backward(self.parents[su].reverse);
        proof {
            pre.lemma_apart(su as int, sw as int);
            assert(pre.parent_ok(su as int));
            assert(pre.parent_ok(sw as int));
            assert(pre.vertex_ok(u2 as int));
            assert(pre.vertex_ok(w2 as int));
        }
        self.reanchor(sw);
        proof {
            let r = pre.base@[sw as int];
            let n = pre.n();
            assert(self.rank@[u2 as int] == shifted(r, n, pre.rank@[u2 as int]));
            assert(self.rank@[w2 as int] == shifted(r, n, pre.rank@[w2 as int]));
            assert(self.rank@[u2 as int] == pre.rank@[w as int] + 1 - r);
            assert(self.rank@[w2 as int] == n + pre.rank@[u as int] - 1 - r);
        }
        let ghost mid = *self;
        self.reverse_path(u2, w2);
        proof {
            assert(self.same_marks(pre));
            let r = pre.base@[sw as int];
            let n = pre.n();
            let i2 = pre.rank@[w as int] + 1 - r;
            let j2 = n + pre.rank@[u as int] - 1 - r;
            assert(self.rank@ =~= Seq::new(
                pre.rank@.len(),
                |v: int| mirror(i2, j2, shifted(r, n, pre.rank@[v])),
            ));
        }
    }

    /// Finds the part of the listing between the two edges that does not
    /// pass the seam, and returns its first and its last node.
    pub(crate) fn pick_block(&self, a: usize, b: usize, c: usize, d: usize) -> (r: (usize, usize))
        requires
            self.wf(),
            self.is_attached(),
            self.aligned(a as int, b as int, c as int, d as int),
        ensures
            r.0 < self.n(),
            r.1 < self.n(),
            self.rank@[r.0 as int] == self.flip_block(a as int, b as int, c as int, d as int).0,
            self.rank@[r.1 as int] == self.flip_block(a as int, b as int, c as int, d as int).1,
            self.listing@[self.rank@[r.0 as int]] == r.0,
            self.listing@[self.rank@[r.1 as int]] == r.1,
    {
        proof {
            assert(self.vertex_ok(a as int));
            assert(self.vertex_ok(b as int));
            assert(self.vertex_ok(c as int));
            assert(self.vertex_ok(d as int));
        }
        let ra = self.parents[self.vertices[a].parent].reverse;
        let forward = self.vertices[a].forward(ra) == b;
        if forward {
            if self.precedes(b, c) {
                (b, c)
            } else {
                (d, a)
            }
        } else {
            if self.precedes(a, d) {
                (a, d)
            } else {
                (c, b)
            }
        }
    }

    /// Replaces the tour edges `(a, b)` and `(c, d)`, which run the same
    /// way, by `(a, c)` and `(b, d)`.
    pub(crate) fn flip_aligned(&mut self, a: usize, b: usize, c: usize, d: usize)
        requires
            old(self).wf(),
            old(self).is_attached(),
            old(self).aligned(a as int, b as int, c as int, d as int),
        ensures
            final(self).wf(),
            final(self).is_attached(),
            final(self).spec_len() == old(self).spec_len(),
            final(self).parents_view().len() == old(self).parents_view().len(),
            final(self).spec_group_size() == old(self).spec_group_size(),
            final(self)@ == old(self).flipped(a as int, b as int, c as int, d as int),
            forall|v: int|
                0 <= v < old(self).spec_len() ==> final(self).rank(v) == old(self).flipped_rank(
                    v,
                    a as int,
                    b as int,
                    c as int,
                    d as int,
                ),
            final(self).same_marks(*old(self)),
            final(self).frame() == old(self).flip_frame(a as int, b as int, c as int, d as int),
            forall|s: int|
                0 <= s < old(self).parents_view().len() ==> #[trigger] final(self).laid_parent(s),
            forall|v: int, s: int|
                0 <= v < old(self).spec_len() && 0 <= s < old(self).parents_view().len()
                    ==> #[trigger] final(self).laid_vertex(v, s),
    {
        let ghost pre = *self;
        proof {
            pre.lemma_flip_block_ends(a as int, b as int, c as int, d as int);
        }
        let m = self.parents.len();
        let (u, w) = self.pick_block(a, b, c, d);
        proof {
            assert(pre.vertex_ok(u as int));
            assert(pre.vertex_ok(w as int));
        }
        let su = self.vertices[u].parent;
        let sw = self.vertices[w].parent;
        let outer = if su != sw {
            proof {
                pre.lemma_apart(su as int, sw as int);
                assert(pre.parent_ok(su as int));
                assert(pre.parent_ok(sw as int));
                assert(pre.parents@[sw as int].id < m);
            }
            let inner = self.parents[sw].id - self.parents[su].id;
            inner > m - inner
        } else {
            false
        };
        proof {
            assert(outer == pre.flip_outer(a as int, b as int, c as int, d as int));
        }
        if outer {
            self.reverse_outer(u, w);
        } else {
            self.reverse_path(u, w);
            proof {
                assert(rotated(pre.listing@, 0) =~= pre.listing@);
            }
        }
        proof {
            self.lemma_laid_out();
        }
    }

    /// Replaces two edges of the tour by two others, which reverses the
    /// path between them: the edges `(a, b)` and `(c, d)` give way to
    /// `(a, c)` and `(b, d)` where they run the same way, and to `(a, d)` and
    /// `(b, c)` where they run against each other.
    ///
    /// In the listing one block is reversed; `flipped` says which, and from
    /// where the listing is then read, for the second edge as `turned` gives
    /// it. `flip_frame` says how the segments are laid out afterwards, and
    /// the layout and the listing fix every record. The traversal marks stay
    /// as they are.
    pub fn flip_at(&mut self, a: usize, b: usize, c: usize, d: usize)
        requires
            old(self).wf(),
            old(self).is_attached(),
            old(self).flippable(a as int, b as int, c as int, d as int),
        ensures
            final(self).wf(),
            final(self).is_attached(),
            final(self).spec_len() == old(self).spec_len(),
            final(self).parents_view().len() == old(self).parents_view().len(),
            final(self).spec_group_size() == old(self).spec_group_size(),
            old(self).aligned(
                a as int,
                b as int,
                old(self).turned(a as int, b as int, c as int, d as int).0,
                old(self).turned(a as int, b as int, c as int, d as int).1,
            ),
            final(self)@ == old(self).flipped(
                a as int,
                b as int,
                old(self).turned(a as int, b as int, c as int, d as int).0,
                old(self).turned(a as int, b as int, c as int, d as int).1,
            ),
            forall|v: int|
                0 <= v < old(self).spec_len() ==> final(self).rank(v) == old(self).flipped_rank(
                    v,
                    a as int,
                    b as int,
                    old(self).turned(a as int, b as int, c as int, d as int).0,
                    old(self).turned(a as int, b as int, c as int, d as int).1,
                ),
            final(self).same_marks(*old(self)),
            final(self).frame() == old(self).flip_frame(
                a as int,
                b as int,
                old(self).turned(a as int, b as int, c as int, d as int).0,
                old(self).turned(a as int, b as int, c as int, d as int).1,
            ),
            forall|s: int|
                0 <= s < old(self).parents_view().len() ==> #[trigger] final(self).laid_parent(s),
            forall|v: int, s: int|
                0 <= v < old(self).spec_len() && 0 <= s < old(self).parents_view().len()
                    ==> #[trigger] final(self).laid_vertex(v, s),
    {
        let (c2, d2) = self.flip_joins(a, b, c, d);
        self.flip_aligned(a, b, c2, d2);
    }
}

} // verus!
