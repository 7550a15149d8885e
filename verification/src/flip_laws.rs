//! What a flip does to the edges of the tour, whichever side it reverses.

use vstd::prelude::*;
use crate::cyclic::{
    adjacent, lemma_turned_adjacent, lemma_turned_neighbours, mirror, next_place, prev_place,
    rotated, same_places, shifted, unshifted,
};
use crate::tree::TwoLevelTree;

verus! {

/// Whether `x` and `y` are `a` and `b`, in this order or the other.
pub open spec fn is_pair(x: int, y: int, a: int, b: int) -> bool {
    (x == a && y == b) || (x == b && y == a)
}

impl TwoLevelTree {
    /// Whether the tour passes directly from `x` to `y` or from `y` to
    /// `x`.
    pub open spec fn has_edge(&self, x: int, y: int) -> bool {
        self.succ(x) == y || self.pred(x) == y
    }

    /// The node with which the block that `flip_at` reverses begins.
    pub open spec fn flip_first(&self, a: int, b: int, c: int, d: int) -> int {
        rotated(self@, self.flip_origin(a, b, c, d))[self.flip_span(a, b, c, d).0] as int
    }

    /// The node with which the block that `flip_at` reverses ends.
    pub open spec fn flip_last(&self, a: int, b: int, c: int, d: int) -> int {
        rotated(self@, self.flip_origin(a, b, c, d))[self.flip_span(a, b, c, d).1] as int
    }

    /// Whether node `x` lies in the block that `flip_at` reverses.
    pub open spec fn flip_covers(&self, x: int, a: int, b: int, c: int, d: int) -> bool {
        let p = shifted(self.flip_origin(a, b, c, d), self.spec_len() as int, self.rank(x));
        self.flip_span(a, b, c, d).0 <= p <= self.flip_span(a, b, c, d).1
    }

    /// Where the four nodes of two flippable edges stand in the listing.
    pub proof fn lemma_flip_ranks(&self, a: int, b: int, c: int, d: int)
        requires
            self.wf(),
            self.is_attached(),
            self.aligned(a, b, c, d),
        ensures
            ({
                let n = self.spec_len() as int;
                &&& self@.len() == n
                &&& 0 <= self.rank(a) < n && self@[self.rank(a)] == a
                &&& 0 <= self.rank(b) < n && self@[self.rank(b)] == b
                &&& 0 <= self.rank(c) < n && self@[self.rank(c)] == c
                &&& 0 <= self.rank(d) < n && self@[self.rank(d)] == d
                &&& self.rank(a) != self.rank(c)
                &&& self.succ(a) == b ==> self.succ(c) == d && self.rank(b) == next_place(
                    self.rank(a),
                    n,
                ) && self.rank(d) == next_place(self.rank(c), n)
                &&& self.succ(a) != b ==> self.pred(a) == b && self.pred(c) == d && self.rank(b)
                    == prev_place(self.rank(a), n) && self.rank(d) == prev_place(self.rank(c), n)
            }),
    {
        self.lemma_listing();
        let n = self.spec_len() as int;
        let ra = self.rank(a);
        let rc = self.rank(c);
        assert(self.rank(self@[next_place(ra, n)] as int) == next_place(ra, n));
        assert(self.rank(self@[next_place(rc, n)] as int) == next_place(rc, n));
        assert(self.rank(self@[prev_place(ra, n)] as int) == prev_place(ra, n));
        assert(self.rank(self@[prev_place(rc, n)] as int) == prev_place(rc, n));
        if self.succ(a) == b && self.succ(c) != d {
            assert(self.pred(a) == b);
            assert(n <= 2);
        }
    }

    /// The part between the two edges that does not pass the seam begins
    /// and ends at two of the four given nodes.
    pub proof fn lemma_flip_block_ends(&self, a: int, b: int, c: int, d: int)
        requires
            self.wf(),
            self.is_attached(),
            self.aligned(a, b, c, d),
        ensures
            ({
                let n = self.spec_len() as int;
                let (i, j) = self.flip_block(a, b, c, d);
                let u = self@[i] as int;
                let w = self@[j] as int;
                &&& 0 <= i <= j < n
                &&& !(i == 0 && j == n - 1)
                &&& 0 <= u < n
                &&& 0 <= w < n
                &&& self.rank(u) == i
                &&& self.rank(w) == j
                &&& if self.succ(a) == b {
                    (u == b && w == c && self.pred(u) == a && self.succ(w) == d) || (u == d && w
                        == a && self.pred(u) == c && self.succ(w) == b)
                } else {
                    (u == a && w == d && self.pred(u) == b && self.succ(w) == c) || (u == c && w
                        == b && self.pred(u) == d && self.succ(w) == a)
                }
            }),
    {
        self.lemma_flip_ranks(a, b, c, d);
        self.lemma_listing();
    }

    /// From where the listing is read after a flip, and which block of that
    /// reading is reversed: the block is not the whole cycle, and it begins
    /// and ends where the part between the edges does, or where the rest of
    /// the cycle does.
    pub proof fn lemma_flip_span(&self, a: int, b: int, c: int, d: int)
        requires
            self.wf(),
            self.is_attached(),
            self.aligned(a, b, c, d),
        ensures
            ({
                let n = self.spec_len() as int;
                let (i, j) = self.flip_block(a, b, c, d);
                let (i2, j2) = self.flip_span(a, b, c, d);
                let r = self.flip_origin(a, b, c, d);
                &&& 0 <= r <= n
                &&& 0 <= i2 <= j2 < n
                &&& !(i2 == 0 && j2 == n - 1)
                &&& unshifted(r, n, i2) == (if self.flip_outer(a, b, c, d) {
                    next_place(j, n)
                } else {
                    i
                })
                &&& unshifted(r, n, j2) == (if self.flip_outer(a, b, c, d) {
                    prev_place(i, n)
                } else {
                    j
                })
            }),
    {
        self.lemma_flip_block_ends(a, b, c, d);
        if self.flip_outer(a, b, c, d) {
            let (i, j) = self.flip_block(a, b, c, d);
            let u = self@[i] as int;
            let w = self@[j] as int;
            self.lemma_vertex(u);
            self.lemma_vertex(w);
            let su = self.vertices@[u].parent as int;
            let sw = self.vertices@[w].parent as int;
            self.lemma_apart(su, sw);
            self.lemma_parent(su);
            self.lemma_parent(sw);
        }
    }

    /// The block that `flip_at` reverses begins and ends at two of the four
    /// given nodes: it is the path between the two edges, or the rest of the
    /// cycle, read in tour direction. The two other nodes stand directly
    /// before and behind it.
    pub proof fn lemma_flip_ends(&self, a: int, b: int, c: int, d: int)
        requires
            self.wf(),
            self.is_attached(),
            self.aligned(a, b, c, d),
        ensures
            ({
                let first = self.flip_first(a, b, c, d);
                let last = self.flip_last(a, b, c, d);
                let n = self.spec_len() as int;
                let (i2, j2) = self.flip_span(a, b, c, d);
                let r = self.flip_origin(a, b, c, d);
                &&& 0 <= first < n
                &&& 0 <= last < n
                &&& self.rank(first) == unshifted(r, n, i2)
                &&& self.rank(last) == unshifted(r, n, j2)
                &&& if self.succ(a) == b {
                    (first == b && last == c && self.pred(first) == a && self.succ(last) == d)
                        || (first == d && last == a && self.pred(first) == c && self.succ(last)
                        == b)
                } else {
                    (first == a && last == d && self.pred(first) == b && self.succ(last) == c)
                        || (first == c && last == b && self.pred(first) == d && self.succ(last)
                        == a)
                }
            }),
    {
        self.lemma_flip_block_ends(a, b, c, d);
        self.lemma_flip_span(a, b, c, d);
        self.lemma_flip_ranks(a, b, c, d);
        self.lemma_listing();
        let n = self.spec_len() as int;
        let (i, j) = self.flip_block(a, b, c, d);
        let (i2, j2) = self.flip_span(a, b, c, d);
        let r = self.flip_origin(a, b, c, d);
        let pf = unshifted(r, n, i2);
        let pl = unshifted(r, n, j2);
        assert(rotated(self@, r)[i2] == self@[pf]);
        assert(rotated(self@, r)[j2] == self@[pl]);
        assert(self.rank(self@[pf] as int) == pf);
        assert(self.rank(self@[pl] as int) == pl);
        let u = self@[i] as int;
        let w = self@[j] as int;
        self.lemma_vertex(u);
        self.lemma_vertex(w);
        self.lemma_vertex(self@[pf] as int);
        self.lemma_vertex(self@[pl] as int);
    }

    /// The neighbours of node `x` after a flip: inside the reversed block
    /// the two neighbours change places, and across the two cuts the ends of
    /// the block change places.
    pub proof fn lemma_flip_neighbours(
        &self,
        post: TwoLevelTree,
        a: int,
        b: int,
        c: int,
        d: int,
        x: int,
    )
        requires
            self.wf(),
            self.is_attached(),
            self.aligned(a, b, c, d),
            post.wf(),
            post.is_attached(),
            post.spec_len() == self.spec_len(),
            post@ == self.flipped(a, b, c, d),
            0 <= x < self.spec_len(),
        ensures
            ({
                let first = self.flip_first(a, b, c, d);
                let last = self.flip_last(a, b, c, d);
                let inside = self.flip_covers(x, a, b, c, d);
                &&& post.succ(x) == (if inside {
                    if x != first {
                        self.pred(x)
                    } else {
                        self.succ(last)
                    }
                } else {
                    if x == self.pred(first) {
                        last as usize
                    } else {
                        self.succ(x)
                    }
                })
                &&& post.pred(x) == (if inside {
                    if x != last {
                        self.succ(x)
                    } else {
                        self.pred(first)
                    }
                } else {
                    if x == self.succ(last) {
                        first as usize
                    } else {
                        self.pred(x)
                    }
                })
                &&& (x == first || x == last) ==> inside
                &&& (x == self.pred(first) || x == self.succ(last)) ==> !inside
            }),
    {
        self.lemma_flip_span(a, b, c, d);
        self.lemma_flip_ends(a, b, c, d);
        self.lemma_listing();
        post.lemma_listing();
        let n = self.spec_len() as int;
        let r = self.flip_origin(a, b, c, d);
        let (i2, j2) = self.flip_span(a, b, c, d);
        let p = self.rank(x);
        let q = shifted(r, n, p);
        let z = mirror(i2, j2, q);
        let pf = unshifted(r, n, i2);
        let pl = unshifted(r, n, j2);
        lemma_turned_neighbours(self@, r, i2, j2, p);
        assert(post@[z] == x);
        assert(post.rank(x) == z);
        let first = self.flip_first(a, b, c, d);
        let last = self.flip_last(a, b, c, d);
        assert(x == first <==> p == pf);
        assert(x == last <==> p == pl);
        let xf = self.pred(first) as int;
        let yl = self.succ(last) as int;
        assert(xf == self@[prev_place(pf, n)]);
        assert(yl == self@[next_place(pl, n)]);
        assert(self.rank(xf) == prev_place(pf, n));
        assert(self.rank(yl) == next_place(pl, n));
        assert(x == xf <==> p == prev_place(pf, n));
        assert(x == yl <==> p == next_place(pl, n));
    }

    /// Where node `v` stands in the listing after a flip.
    pub proof fn lemma_flipped_rank(
        &self,
        post: TwoLevelTree,
        a: int,
        b: int,
        c: int,
        d: int,
        v: int,
    )
        requires
            self.wf(),
            self.is_attached(),
            self.aligned(a, b, c, d),
            post.wf(),
            post.is_attached(),
            post.spec_len() == self.spec_len(),
            post@ == self.flipped(a, b, c, d),
            0 <= v < self.spec_len(),
        ensures
            post.rank(v) == self.flipped_rank(v, a, b, c, d),
    {
        self.lemma_flip_span(a, b, c, d);
        self.lemma_listing();
        post.lemma_listing();
        let n = self.spec_len() as int;
        let r = self.flip_origin(a, b, c, d);
        let (i2, j2) = self.flip_span(a, b, c, d);
        let p = self.rank(v);
        lemma_turned_neighbours(self@, r, i2, j2, p);
        let z = mirror(i2, j2, shifted(r, n, p));
        assert(post@[z] == v);
    }

    /// A flip of two edges that run the same way removes the edges `(a, b)`
    /// and `(c, d)` from the tour, puts the edges `(a, c)` and `(b, d)` in
    /// their place, and leaves every other edge alone.
    #[verifier::rlimit(25)]
    pub proof fn lemma_flip_edges(
        &self,
        post: TwoLevelTree,
        a: int,
        b: int,
        c: int,
        d: int,
        x: int,
        y: int,
    )
        requires
            self.wf(),
            self.is_attached(),
            self.aligned(a, b, c, d),
            post.wf(),
            post.is_attached(),
            post.spec_len() == self.spec_len(),
            post@ == self.flipped(a, b, c, d),
            0 <= x < self.spec_len(),
            0 <= y < self.spec_len(),
        ensures
            post.has_edge(x, y) == ((self.has_edge(x, y) && !is_pair(x, y, a, b) && !is_pair(
                x,
                y,
                c,
                d,
            )) || is_pair(x, y, a, c) || is_pair(x, y, b, d)),
    {
        let n = self.spec_len() as int;
        let r = self.flip_origin(a, b, c, d);
        let (i2, j2) = self.flip_span(a, b, c, d);
        let first = self.flip_first(a, b, c, d);
        let last = self.flip_last(a, b, c, d);
        let pf = unshifted(r, n, i2);
        let pl = unshifted(r, n, j2);
        let p = self.rank(x);
        let q = self.rank(y);
        self.lemma_flip_span(a, b, c, d);
        self.lemma_flip_ends(a, b, c, d);
        self.lemma_flipped_rank(post, a, b, c, d, x);
        self.lemma_flipped_rank(post, a, b, c, d, y);
        lemma_turned_adjacent(n, r, i2, j2, p, q);
        self.lemma_edge_places(x, y);
        post.lemma_edge_places(x, y);
        let before_first = self.pred(first) as int;
        let behind_last = self.succ(last) as int;
        self.lemma_vertex(first);
        self.lemma_vertex(last);
        self.lemma_places(x, y, before_first, first);
        self.lemma_places(x, y, last, behind_last);
        self.lemma_places(x, y, before_first, last);
        self.lemma_places(x, y, first, behind_last);
        assert(self.rank(before_first) == prev_place(pf, n)) by {
            self.lemma_edge_places(first, before_first);
            self.lemma_listing();
        }
        assert(self.rank(behind_last) == next_place(pl, n)) by {
            self.lemma_edge_places(last, behind_last);
            self.lemma_listing();
        }
    }

    /// Two nodes are joined by an edge exactly if they stand next to each
    /// other in the cyclic listing.
    pub proof fn lemma_edge_places(&self, x: int, y: int)
        requires
            self.wf(),
            self.is_attached(),
            0 <= x < self.spec_len(),
            0 <= y < self.spec_len(),
        ensures
            self.succ(x) == y <==> self.rank(y) == next_place(
                self.rank(x),
                self.spec_len() as int,
            ),
            self.pred(x) == y <==> self.rank(y) == prev_place(
                self.rank(x),
                self.spec_len() as int,
            ),
            self.has_edge(x, y) == adjacent(self.rank(x), self.rank(y), self.spec_len() as int),
    {
        self.lemma_listing();
        let n = self.spec_len() as int;
        let p = self.rank(x);
        assert(self.rank(self@[next_place(p, n)] as int) == next_place(p, n));
        assert(self.rank(self@[prev_place(p, n)] as int) == prev_place(p, n));
    }

    /// Two nodes are a given pair of nodes exactly if they stand at the
    /// places of that pair.
    pub proof fn lemma_places(&self, x: int, y: int, s: int, t: int)
        requires
            self.wf(),
            self.is_attached(),
            0 <= x < self.spec_len(),
            0 <= y < self.spec_len(),
            0 <= s < self.spec_len(),
            0 <= t < self.spec_len(),
        ensures
            is_pair(x, y, s, t) == same_places(
                self.rank(x),
                self.rank(y),
                self.rank(s),
                self.rank(t),
            ),
    {
        self.lemma_listing();
    }

    /// Flipping `(a, b)`, `(c, d)`, which run the same way, and then the
    /// two new edges `(a, c)`, `(b, d)` gives back the tour: the second flip
    /// is allowed, and after it the tour has the edges that it had at first.
    pub proof fn lemma_flip_inverse(
        &self,
        mid: TwoLevelTree,
        post: TwoLevelTree,
        a: int,
        b: int,
        c: int,
        d: int,
    )
        requires
            self.wf(),
            self.is_attached(),
            self.aligned(a, b, c, d),
            mid.wf(),
            mid.is_attached(),
            mid.spec_len() == self.spec_len(),
            mid@ == self.flipped(a, b, c, d),
            post.wf(),
            post.is_attached(),
            post.spec_len() == self.spec_len(),
            post@ == mid.flipped(a, c, b, d),
        ensures
            mid.aligned(a, c, b, d),
            forall|x: int, y: int|
                0 <= x < self.spec_len() && 0 <= y < self.spec_len() ==> #[trigger] post.has_edge(
                    x,
                    y,
                ) == self.has_edge(x, y),
    {
        self.lemma_recut(mid, a, b, c, d);
        assert forall|x: int, y: int|
            0 <= x < self.spec_len() && 0 <= y < self.spec_len() implies #[trigger] post.has_edge(
            x,
            y,
        ) == self.has_edge(x, y) by {
            self.lemma_flip_edges(mid, a, b, c, d, x, y);
            mid.lemma_flip_edges(post, a, c, b, d, x, y);
            self.lemma_vertex(x);
            self.lemma_vertex(a);
            self.lemma_vertex(b);
            self.lemma_vertex(c);
            self.lemma_vertex(d);
        }
    }

    /// After a flip of `(a, b)` and `(c, d)` the new edges `(a, c)` and
    /// `(b, d)` can be flipped in turn.
    pub proof fn lemma_recut(&self, mid: TwoLevelTree, a: int, b: int, c: int, d: int)
        requires
            self.wf(),
            self.is_attached(),
            self.aligned(a, b, c, d),
            mid.wf(),
            mid.is_attached(),
            mid.spec_len() == self.spec_len(),
            mid@ == self.flipped(a, b, c, d),
        ensures
            mid.aligned(a, c, b, d),
    {
        self.lemma_flip_ends(a, b, c, d);
        self.lemma_flip_neighbours(mid, a, b, c, d, a);
        self.lemma_flip_neighbours(mid, a, b, c, d, b);
        self.lemma_vertex(a);
        self.lemma_vertex(b);
        self.lemma_vertex(c);
        self.lemma_vertex(d);
    }

    /// Two edges that can be flipped run the same way once the second is
    /// read as `turned` gives it.
    pub proof fn lemma_turned(&self, a: int, b: int, c: int, d: int)
        requires
            self.wf(),
            self.is_attached(),
            self.flippable(a, b, c, d),
        ensures
            self.aligned(a, b, self.turned(a, b, c, d).0, self.turned(a, b, c, d).1),
            is_pair(self.turned(a, b, c, d).0, self.turned(a, b, c, d).1, c, d),
    {
        self.lemma_vertex(a);
        self.lemma_vertex(b);
        self.lemma_vertex(c);
        self.lemma_vertex(d);
    }

    /// What `flip_at` does to the edges of the tour: the edges `(a, b)` and
    /// `(c, d)` leave it, `a` is joined to the one end of the second edge and
    /// `b` to the other, as `turned` says, and every other edge stays.
    pub proof fn lemma_flip_at_edges(
        &self,
        post: TwoLevelTree,
        a: int,
        b: int,
        c: int,
        d: int,
        x: int,
        y: int,
    )
        requires
            self.wf(),
            self.is_attached(),
            self.flippable(a, b, c, d),
            post.wf(),
            post.is_attached(),
            post.spec_len() == self.spec_len(),
            post@ == self.flipped(a, b, self.turned(a, b, c, d).0, self.turned(a, b, c, d).1),
            0 <= x < self.spec_len(),
            0 <= y < self.spec_len(),
        ensures
            post.has_edge(x, y) == ((self.has_edge(x, y) && !is_pair(x, y, a, b) && !is_pair(
                x,
                y,
                c,
                d,
            )) || is_pair(x, y, a, self.turned(a, b, c, d).0) || is_pair(
                x,
                y,
                b,
                self.turned(a, b, c, d).1,
            )),
    {
        let (c2, d2) = self.turned(a, b, c, d);
        self.lemma_turned(a, b, c, d);
        self.lemma_flip_edges(post, a, b, c2, d2, x, y);
    }

    /// Flipping two edges with `flip_at` and then the two edges that took
    /// their place gives back the tour: the second flip is allowed, and
    /// after it the tour has the edges that it had at first.
    pub proof fn lemma_flip_at_inverse(
        &self,
        mid: TwoLevelTree,
        post: TwoLevelTree,
        a: int,
        b: int,
        c: int,
        d: int,
    )
        requires
            self.wf(),
            self.is_attached(),
            self.flippable(a, b, c, d),
            mid.wf(),
            mid.is_attached(),
            mid.spec_len() == self.spec_len(),
            mid@ == self.flipped(a, b, self.turned(a, b, c, d).0, self.turned(a, b, c, d).1),
            post.wf(),
            post.is_attached(),
            post.spec_len() == self.spec_len(),
            post@ == mid.flipped(
                a,
                self.turned(a, b, c, d).0,
                mid.turned(a, self.turned(a, b, c, d).0, b, self.turned(a, b, c, d).1).0,
                mid.turned(a, self.turned(a, b, c, d).0, b, self.turned(a, b, c, d).1).1,
            ),
        ensures
            mid.flippable(a, self.turned(a, b, c, d).0, b, self.turned(a, b, c, d).1),
            forall|x: int, y: int|
                0 <= x < self.spec_len() && 0 <= y < self.spec_len() ==> #[trigger] post.has_edge(
                    x,
                    y,
                ) == self.has_edge(x, y),
    {
        let (c2, d2) = self.turned(a, b, c, d);
        self.lemma_turned(a, b, c, d);
        self.lemma_recut(mid, a, b, c2, d2);
        assert(mid.turned(a, c2, b, d2) == (b, d2));
        self.lemma_flip_inverse(mid, post, a, b, c2, d2);
    }
}

} // verus!
