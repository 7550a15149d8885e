//! Reversal of a run of whole segments.

use vstd::prelude::*;
use crate::cyclic::{
    after, before, lemma_reverse_all_neighbours, lemma_reverse_block_neighbours, mirror,
    reverse_block,
};
use crate::parent::ParentVertex;
use crate::tree::TwoLevelTree;
use crate::vertex::TltVertex;

verus! {

impl TwoLevelTree {
    /// Whether segment `s` lies in the run of the ring that leads from
    /// segment `s1` to segment `s2`.
    pub(crate) open spec fn in_run(&self, s: int, s1: int, s2: int) -> bool {
        self.parents@[s1].id <= self.parents@[s].id <= self.parents@[s2].id
    }

    /// First position of the listing that the run from `s1` to `s2` covers.
    pub(crate) open spec fn run_lo(&self, s1: int) -> int {
        self.base@[s1]
    }

    /// Last position of the listing that the run from `s1` to `s2` covers.
    pub(crate) open spec fn run_hi(&self, s2: int) -> int {
        self.base@[s2] + self.parents@[s2].size - 1
    }

    /// Whether the run covers fewer segments than the ring has.
    pub(crate) open spec fn run_partial(&self, s1: int, s2: int) -> bool {
        self.parents@[s2].id - self.parents@[s1].id + 1 < self.m()
    }

    /// The record of segment `s` after the run from `s1` to `s2` has been
    /// reversed.
    pub(crate) open spec fn run_parent(&self, s: int, s1: int, s2: int) -> ParentVertex {
        let g = self.parents@[s];
        let k1 = self.parents@[s1].id as int;
        let k2 = self.parents@[s2].id as int;
        let before_run = self.parents@[s1].prev;
        let behind_run = self.parents@[s2].next;
        let partial = self.run_partial(s1, s2);
        if self.in_run(s, s1, s2) {
            ParentVertex {
                id: (k1 + k2 - g.id) as usize,
                reverse: !g.reverse,
                prev: if s == s2 && partial {
                    before_run
                } else {
                    g.next
                },
                next: if s == s1 && partial {
                    behind_run
                } else {
                    g.prev
                },
                ..g
            }
        } else {
            ParentVertex {
                next: if s == before_run && partial {
                    s2 as usize
                } else {
                    g.next
                },
                prev: if s == behind_run && partial {
                    s1 as usize
                } else {
                    g.prev
                },
                ..g
            }
        }
    }

    /// The vertex records after the block `lo..=hi` of the listing, which
    /// begins with the head of `s1` and ends with the tail of `s2`, has
    /// been turned round: the four links across the two cuts are rewired.
    pub(crate) open spec fn run_vertices(&self, s1: int, s2: int) -> Seq<TltVertex> {
        let r1 = self.parents@[s1].reverse;
        let r2 = self.parents@[s2].reverse;
        let u = self.parents@[s1].spec_head();
        let w = self.parents@[s2].spec_tail();
        let x = self.vertices@[u as int].bwd(r1);
        let y = self.vertices@[w as int].fwd(r2);
        let rx = self.parents@[self.vertices@[x as int].parent as int].reverse;
        let ry = self.parents@[self.vertices@[y as int].parent as int].reverse;
        if x == w {
            self.vertices@
        } else {
            let v1 = self.vertices@.update(w as int, self.vertices@[w as int].with_fwd(r2, x));
            let v2 = v1.update(u as int, v1[u as int].with_bwd(r1, y));
            let v3 = v2.update(x as int, v2[x as int].with_fwd(rx, w));
            v3.update(y as int, v3[y as int].with_bwd(ry, u))
        }
    }

    /// What the reversal of the run from `s1` to `s2` makes of `self`.
    pub(crate) open spec fn run_reversed(&self, post: TwoLevelTree, s1: int, s2: int) -> bool {
        let k1 = self.parents@[s1].id as int;
        let k2 = self.parents@[s2].id as int;
        let lo = self.run_lo(s1);
        let hi = self.run_hi(s2);
        &&& post.attached
        &&& post.listing@ == reverse_block(self.listing@, lo, hi)
        &&& post.rank@ == Seq::new(self.rank@.len(), |v: int| mirror(lo, hi, self.rank@[v]))
        &&& post.ring@ == Seq::new(self.ring@.len(), |k: int| self.ring@[mirror(k1, k2, k)])
        &&& post.base@ == Seq::new(
            self.base@.len(),
            |s: int|
                if self.in_run(s, s1, s2) {
                    lo + hi + 1 - self.base@[s] - self.parents@[s].size
                } else {
                    self.base@[s]
                },
        )
        &&& post.parents@ == Seq::new(
            self.parents@.len(),
            |s: int| self.run_parent(s, s1, s2),
        )
        &&& post.vertices@ == self.run_vertices(s1, s2)
    }

    /// What a caller of the reversal must provide: a loaded tree and a run
    /// that begins and ends with a segment that has members.
    pub(crate) open spec fn run_given(&self, s1: int, s2: int) -> bool {
        &&& self.wf()
        &&& self.attached
        &&& 0 <= s1 < self.m()
        &&& 0 <= s2 < self.m()
        &&& self.parents@[s1].id <= self.parents@[s2].id
        &&& self.parents@[s1].size > 0
        &&& self.parents@[s2].size > 0
    }

    /// Where the run lies in the listing, and which vertices stand at and
    /// next to its two ends.
    pub(crate) proof fn lemma_run_ends(&self, s1: int, s2: int)
        requires
            self.run_given(s1, s2),
        ensures
            0 <= self.run_lo(s1) <= self.run_hi(s2) < self.n(),
            self.parents@[s1].spec_head() == self.listing@[self.run_lo(s1)],
            self.parents@[s2].spec_tail() == self.listing@[self.run_hi(s2)],
            self.parents@[s1].spec_head() < self.n(),
            self.parents@[s2].spec_tail() < self.n(),
            self.vertices@[self.parents@[s1].spec_head() as int].parent == s1,
            self.vertices@[self.parents@[s2].spec_tail() as int].parent == s2,
            self.vertices@[self.parents@[s1].spec_head() as int].bwd(self.parents@[s1].reverse)
                == before(self.listing@, self.run_lo(s1)),
            self.vertices@[self.parents@[s2].spec_tail() as int].fwd(self.parents@[s2].reverse)
                == after(self.listing@, self.run_hi(s2)),
            before(self.listing@, self.run_lo(s1)) < self.n(),
            after(self.listing@, self.run_hi(s2)) < self.n(),
            self.vertices@[before(self.listing@, self.run_lo(s1)) as int].parent < self.m(),
            self.vertices@[after(self.listing@, self.run_hi(s2)) as int].parent < self.m(),
            self.rank@[self.parents@[s1].spec_head() as int] == self.run_lo(s1),
            self.rank@[self.parents@[s2].spec_tail() as int] == self.run_hi(s2),
    {
        assert(self.parent_ok(s1));
        assert(self.parent_ok(s2));
        if s1 != s2 {
            self.lemma_apart(s1, s2);
        }
        let lo = self.run_lo(s1);
        let hi = self.run_hi(s2);
        self.lemma_owner(lo, s1);
        self.lemma_owner(hi, s2);
        let u = self.listing@[lo] as int;
        let w = self.listing@[hi] as int;
        assert(self.vertex_ok(u));
        assert(self.vertex_ok(w));
        let x = before(self.listing@, lo) as int;
        let y = after(self.listing@, hi) as int;
        assert(self.vertex_ok(x));
        assert(self.vertex_ok(y));
    }

    /// A segment of the run lies inside the block, any other outside it.
    pub(crate) proof fn lemma_run_cover(&self, s: int, s1: int, s2: int)
        requires
            self.run_given(s1, s2),
            0 <= s < self.m(),
        ensures
            self.in_run(s, s1, s2) ==> self.run_lo(s1) <= self.base@[s] && self.base@[s]
                + self.parents@[s].size <= self.run_hi(s2) + 1,
            self.parents@[s].id < self.parents@[s1].id ==> self.base@[s] + self.parents@[s].size
                <= self.run_lo(s1),
            self.parents@[s].id > self.parents@[s2].id ==> self.run_hi(s2) + 1 <= self.base@[s],
    {
        assert(self.parent_ok(s));
        assert(self.parent_ok(s1));
        assert(self.parent_ok(s2));
        if s != s1 {
            self.lemma_apart(s, s1);
        }
        if s != s2 {
            self.lemma_apart(s, s2);
        }
    }

    /// A vertex stands inside the block exactly if its segment is part of
    /// the run.
    pub(crate) proof fn lemma_block_member(&self, v: int, s1: int, s2: int)
        requires
            self.run_given(s1, s2),
            0 <= v < self.n(),
        ensures
            self.vertices@[v].parent < self.m(),
            self.in_run(self.vertices@[v].parent as int, s1, s2) <==> self.run_lo(s1)
                <= self.rank@[v] <= self.run_hi(s2),
    {
        assert(self.vertex_ok(v));
        self.lemma_run_cover(self.vertices@[v].parent as int, s1, s2);
        self.lemma_run_ends(s1, s2);
    }

    /// The listing with the block reversed is a listing of all nodes, and
    /// the records keep what does not depend on the tour.
    proof fn lemma_run_common(&self, post: TwoLevelTree, s1: int, s2: int)
        requires
            self.run_given(s1, s2),
            self.run_reversed(post, s1, s2),
        ensures
            post.common_ok(),
            post.n() == self.n(),
            post.m() == self.m(),
            post.listing_ok(),
            forall|v: int|
                0 <= v < self.n() ==> (#[trigger] post.vertices@[v]).parent
                    == self.vertices@[v].parent && post.vertices@[v].seq_id
                    == self.vertices@[v].seq_id && post.vertices@[v].visited
                    == self.vertices@[v].visited,
    {
        self.lemma_run_ends(s1, s2);
        let lo = self.run_lo(s1);
        let hi = self.run_hi(s2);
        assert forall|v: int| 0 <= v < self.n() implies (#[trigger] post.vertices@[v]).index == v
            && post.vertices@[v].parent == self.vertices@[v].parent && post.vertices@[v].seq_id
            == self.vertices@[v].seq_id && post.vertices@[v].visited
            == self.vertices@[v].visited by {
            assert(self.vertices@[v].index == v);
        }
        assert forall|s: int| 0 <= s < post.m() implies (#[trigger] post.parents@[s]).max_size
            == post.parents@[0].max_size by {
            assert(self.parents@[s].max_size == self.parents@[0].max_size);
        }
        assert forall|v: int| 0 <= v < post.n() implies 0 <= (#[trigger] post.rank@[v]) < post.n()
            && post.listing@[post.rank@[v]] == v by {
            assert(0 <= self.rank@[v] < self.n());
        }
        assert forall|p: int| 0 <= p < post.n() implies (#[trigger] post.listing@[p]) < post.n()
            && post.rank@[post.listing@[p] as int] == p by {
            let q = mirror(lo, hi, p);
            assert(self.listing@[q] < self.n());
        }
    }

    /// The ring links of segment `s` after the run has been reversed lead
    /// to its new neighbours.
    proof fn lemma_run_link(&self, post: TwoLevelTree, s1: int, s2: int, s: int)
        requires
            self.run_given(s1, s2),
            post.parents@.len() == self.m(),
            post.ring@.len() == self.m(),
            forall|k: int|
                0 <= k < self.m() ==> #[trigger] post.ring@[k] == self.ring@[mirror(
                    self.parents@[s1].id as int,
                    self.parents@[s2].id as int,
                    k,
                )],
            0 <= s < self.m(),
            post.parents@[s] == self.run_parent(s, s1, s2),
        ensures
            post.link_ok(s),
    {
        let k1 = self.parents@[s1].id as int;
        let k2 = self.parents@[s2].id as int;
        let m = self.m();
        let g = self.parents@[s];
        let k = g.id as int;
        let h = post.parents@[s];
        let kk = h.id as int;
        assert(self.link_ok(s1));
        assert(self.link_ok(s2));
        assert(self.link_ok(s));
        assert(self.ring@[k] == s);
        assert(self.ring@[k1] == s1);
        assert(self.ring@[k2] == s2);
        let partial = self.run_partial(s1, s2);
        let nk = post.ring_next(kk);
        let pk = post.ring_prev(kk);
        assert(post.ring@[nk] == self.ring@[mirror(k1, k2, nk)]);
        assert(post.ring@[pk] == self.ring@[mirror(k1, k2, pk)]);
        if k1 <= k <= k2 {
            assert(kk == k1 + k2 - k);
            if s == s1 {
                assert(k == k1);
                if partial {
                    assert(h.next == self.parents@[s2].next);
                    assert(mirror(k1, k2, nk) == self.ring_next(k2));
                } else {
                    assert(k1 == 0 && k2 == m - 1);
                    assert(nk == 0);
                    assert(mirror(k1, k2, nk) == m - 1);
                    assert(self.ring_prev(k) == m - 1);
                }
            } else {
                assert(k > k1);
                assert(nk == kk + 1);
                assert(mirror(k1, k2, nk) == k - 1);
                assert(self.ring_prev(k) == k - 1);
            }
            if s == s2 {
                assert(k == k2);
                if partial {
                    assert(h.prev == self.parents@[s1].prev);
                    assert(mirror(k1, k2, pk) == self.ring_prev(k1));
                } else {
                    assert(k1 == 0 && k2 == m - 1);
                    assert(pk == m - 1);
                    assert(mirror(k1, k2, pk) == 0);
                    assert(self.ring_next(k) == 0);
                }
            } else {
                assert(k < k2);
                assert(pk == kk - 1);
                assert(mirror(k1, k2, pk) == k + 1);
                assert(self.ring_next(k) == k + 1);
            }
        } else {
            assert(kk == k);
            assert(partial);
            let before_run = self.parents@[s1].prev as int;
            let behind_run = self.parents@[s2].next as int;
            assert(before_run == self.ring@[self.ring_prev(k1)]);
            assert(behind_run == self.ring@[self.ring_next(k2)]);
            assert(self.parents@[before_run].id == self.ring_prev(k1));
            assert(self.parents@[behind_run].id == self.ring_next(k2));
            if s == before_run {
                assert(k == self.ring_prev(k1));
                assert(nk == k1);
                assert(mirror(k1, k2, nk) == k2);
            } else {
                assert(k != self.ring_prev(k1));
                assert(!(k1 <= nk <= k2));
                assert(mirror(k1, k2, nk) == nk);
            }
            if s == behind_run {
                assert(k == self.ring_next(k2));
                assert(pk == k2);
                assert(mirror(k1, k2, pk) == k1);
            } else {
                assert(k != self.ring_next(k2));
                assert(!(k1 <= pk <= k2));
                assert(mirror(k1, k2, pk) == pk);
            }
        }
    }

    /// The segments form a ring in which the run stands the other way round.
    proof fn lemma_run_ring(&self, post: TwoLevelTree, s1: int, s2: int)
        requires
            self.run_given(s1, s2),
            self.run_reversed(post, s1, s2),
        ensures
            post.ring_ok(),
    {
        let k1 = self.parents@[s1].id as int;
        let k2 = self.parents@[s2].id as int;
        let m = self.m();
        assert forall|k: int| 0 <= k < m implies (#[trigger] post.ring@[k]) < m
            && post.parents@[post.ring@[k] as int].id == k by {
            let q = mirror(k1, k2, k);
            assert(self.ring@[q] < m);
        }
        assert forall|s: int| 0 <= s < m implies (#[trigger] post.parents@[s]).id < m
            && post.ring@[post.parents@[s].id as int] == s by {
            assert(self.parents@[s].id < m);
        }
        assert forall|s: int| 0 <= s < m implies #[trigger] post.link_ok(s) by {
            self.lemma_run_link(post, s1, s2, s);
        }
    }

    /// Every segment covers its part of the listing with the block reversed.
    #[verifier::rlimit(25)]
    proof fn lemma_run_parents(&self, post: TwoLevelTree, s1: int, s2: int)
        requires
            self.run_given(s1, s2),
            self.run_reversed(post, s1, s2),
        ensures
            post.base@.len() == post.m(),
            forall|s: int| 0 <= s < post.m() ==> #[trigger] post.parent_ok(s),
    {
        let k1 = self.parents@[s1].id as int;
        let k2 = self.parents@[s2].id as int;
        let m = self.m();
        let lo = self.run_lo(s1);
        let hi = self.run_hi(s2);
        self.lemma_run_ends(s1, s2);
        assert(self.parent_ok(s1));
        assert(self.parent_ok(s2));
        assert forall|s: int| 0 <= s < m implies #[trigger] post.parent_ok(s) by {
            assert(self.parent_ok(s));
            self.lemma_run_cover(s, s1, s2);
            let g = self.parents@[s];
            let k = g.id as int;
            let kk = post.parents@[s].id as int;
            if kk > 0 {
                let q = post.ring@[kk - 1] as int;
                let j = mirror(k1, k2, kk - 1);
                assert(q == self.ring@[j]);
                assert(self.parents@[q].id == j);
                assert(self.parent_ok(q));
                self.lemma_run_cover(q, s1, s2);
                if self.in_run(s, s1, s2) {
                    if k < k2 {
                        let nx = self.ring@[k + 1] as int;
                        assert(self.parents@[nx].id == k + 1);
                        assert(self.parent_ok(nx));
                        assert(q == nx);
                    } else {
                        assert(kk == k1);
                        assert(j == k1 - 1);
                        assert(self.ring@[k1] == s1);
                    }
                } else {
                    if k == k2 + 1 {
                        assert(j == k1);
                        assert(q == s1);
                        assert(self.ring@[k2] == s2);
                    } else {
                        assert(j == k - 1);
                    }
                }
            } else {
                if self.in_run(s, s1, s2) {
                    assert(k == k2);
                    assert(k1 == 0);
                    assert(self.ring@[k2] == s2);
                    assert(self.ring@[k1] == s1);
                }
            }
            if kk == m - 1 {
                if self.in_run(s, s1, s2) {
                    assert(k == k1);
                    assert(k2 == m - 1);
                    assert(self.ring@[k1] == s1);
                    assert(self.ring@[k2] == s2);
                }
            }
            if g.size > 0 {
                if self.in_run(s, s1, s2) {
                    let a = self.base@[s];
                    let b = a + g.size - 1;
                    assert(mirror(lo, hi, lo + hi - a) == a);
                    assert(mirror(lo, hi, lo + hi - b) == b);
                } else {
                    let a = self.base@[s];
                    let b = a + g.size - 1;
                    assert(mirror(lo, hi, a) == a);
                    assert(mirror(lo, hi, b) == b);
                }
            }
        }
    }

    /// The record of vertex `v` after the run has been reversed, told apart
    /// by the place of `v` at the two cuts.
    pub(crate) open spec fn run_record(&self, v: int, s1: int, s2: int) -> TltVertex {
        let r1 = self.parents@[s1].reverse;
        let r2 = self.parents@[s2].reverse;
        let u = self.parents@[s1].spec_head();
        let w = self.parents@[s2].spec_tail();
        let x = self.vertices@[u as int].bwd(r1);
        let y = self.vertices@[w as int].fwd(r2);
        let rx = self.parents@[self.vertices@[x as int].parent as int].reverse;
        let ry = self.parents@[self.vertices@[y as int].parent as int].reverse;
        let a = self.vertices@[v];
        if x == w {
            a
        } else {
            let a1 = if v == w {
                a.with_fwd(r2, x)
            } else {
                a
            };
            let a2 = if v == u {
                a1.with_bwd(r1, y)
            } else {
                a1
            };
            let a3 = if v == x {
                a2.with_fwd(rx, w)
            } else {
                a2
            };
            if v == y {
                a3.with_bwd(ry, u)
            } else {
                a3
            }
        }
    }

    /// The rewired records, vertex by vertex.
    proof fn lemma_run_record(&self, post: TwoLevelTree, s1: int, s2: int, v: int)
        requires
            self.run_given(s1, s2),
            post.vertices@ == self.run_vertices(s1, s2),
            0 <= v < self.n(),
        ensures
            post.vertices@[v] == self.run_record(v, s1, s2),
    {
        self.lemma_run_ends(s1, s2);
    }

    /// What the reversal does to the place of vertex `v`: its position is
    /// mirrored inside the block, and its segment keeps it.
    proof fn lemma_run_place(&self, post: TwoLevelTree, s1: int, s2: int, v: int)
        requires
            self.run_given(s1, s2),
            self.run_reversed(post, s1, s2),
            0 <= v < self.n(),
        ensures
            post.rank@[v] == mirror(self.run_lo(s1), self.run_hi(s2), self.rank@[v]),
            post.vertices@[v] == self.run_record(v, s1, s2),
            post.vertices@[v].parent == self.vertices@[v].parent,
            post.vertices@[v].seq_id == self.vertices@[v].seq_id,
            self.vertices@[v].parent < self.m(),
            post.parents@[self.vertices@[v].parent as int] == self.run_parent(
                self.vertices@[v].parent as int,
                s1,
                s2,
            ),
            post.base@[self.vertices@[v].parent as int] == (if self.in_run(
                self.vertices@[v].parent as int,
                s1,
                s2,
            ) {
                self.run_lo(s1) + self.run_hi(s2) + 1 - self.base@[self.vertices@[v].parent as int]
                    - self.parents@[self.vertices@[v].parent as int].size
            } else {
                self.base@[self.vertices@[v].parent as int]
            }),
    {
        self.lemma_run_ends(s1, s2);
        self.lemma_run_record(post, s1, s2, v);
        assert(self.vertex_ok(v));
    }

    /// Which of the four vertices at the cuts `v` is, read off its position.
    proof fn lemma_run_who(&self, s1: int, s2: int, v: int)
        requires
            self.run_given(s1, s2),
            0 <= v < self.n(),
        ensures
            ({
                let lo = self.run_lo(s1);
                let hi = self.run_hi(s2);
                let n = self.n();
                let p = self.rank@[v];
                let u = self.parents@[s1].spec_head() as int;
                let w = self.parents@[s2].spec_tail() as int;
                let x = self.vertices@[u].bwd(self.parents@[s1].reverse) as int;
                let y = self.vertices@[w].fwd(self.parents@[s2].reverse) as int;
                &&& 0 <= lo <= hi < n
                &&& 0 <= p < n
                &&& self.listing@[p] == v
                &&& (v == u <==> p == lo)
                &&& (v == w <==> p == hi)
                &&& (v == x <==> p == (if lo > 0 {
                    lo - 1
                } else {
                    n - 1
                }))
                &&& (v == y <==> p == (if hi + 1 < n {
                    hi + 1
                } else {
                    0
                }))
                &&& x == before(self.listing@, lo)
                &&& y == after(self.listing@, hi)
                &&& u == self.listing@[lo]
                &&& w == self.listing@[hi]
                &&& (lo <= p <= hi <==> self.in_run(self.vertices@[v].parent as int, s1, s2))
                &&& (v == u ==> self.vertices@[v].parent == s1)
                &&& (v == w ==> self.vertices@[v].parent == s2)
                &&& self.vertices@[x].parent < self.m()
                &&& self.vertices@[y].parent < self.m()
                &&& !self.in_run(self.vertices@[x].parent as int, s1, s2) || (lo == 0 && hi == n
                    - 1)
                &&& !self.in_run(self.vertices@[y].parent as int, s1, s2) || (lo == 0 && hi == n
                    - 1)
            }),
    {
        self.lemma_run_ends(s1, s2);
        self.lemma_block_member(v, s1, s2);
        let lo = self.run_lo(s1);
        let hi = self.run_hi(s2);
        let x = before(self.listing@, lo) as int;
        let y = after(self.listing@, hi) as int;
        self.lemma_block_member(x, s1, s2);
        self.lemma_block_member(y, s1, s2);
        assert(self.vertex_ok(v));
    }

    /// Vertex `v` agrees with the listing with the block reversed.
    proof fn lemma_run_vertex(&self, post: TwoLevelTree, s1: int, s2: int, v: int)
        requires
            self.run_given(s1, s2),
            self.run_reversed(post, s1, s2),
            0 <= v < self.n(),
        ensures
            post.vertex_ok(v),
    {
        let lo = self.run_lo(s1);
        let hi = self.run_hi(s2);
        let n = self.n();
        self.lemma_run_place(post, s1, s2, v);
        self.lemma_run_who(s1, s2, v);
        let p = self.rank@[v];
        let s = self.vertices@[v].parent as int;
        let g = self.parents@[s];
        let h = post.parents@[s];
        let a = self.vertices@[v];
        let b = post.vertices@[v];
        let pp = mirror(lo, hi, p);
        assert(self.place_ok(v) && self.seq_ok(v)) by {
            assert(self.vertex_ok(v));
        }
        assert(post.listing@ == reverse_block(self.listing@, lo, hi));
        if lo == 0 && hi == n - 1 {
            lemma_reverse_all_neighbours(self.listing@, p);
        } else {
            lemma_reverse_block_neighbours(self.listing@, lo, hi, p);
        }
        assert(post.seq_ok(v));
        assert(b.fwd(h.reverse) == after(post.listing@, pp));
        assert(b.bwd(h.reverse) == before(post.listing@, pp));
        assert(post.place_ok(v));
    }

    /// Reversing a run of whole segments leaves a well-formed tree.
    pub(crate) proof fn lemma_run_reversed(&self, post: TwoLevelTree, s1: int, s2: int)
        requires
            self.run_given(s1, s2),
            self.run_reversed(post, s1, s2),
        ensures
            post.wf(),
            post.n() == self.n(),
            post.m() == self.m(),
    {
        self.lemma_run_common(post, s1, s2);
        self.lemma_run_ring(post, s1, s2);
        self.lemma_run_parents(post, s1, s2);
        assert forall|v: int| 0 <= v < post.n() implies #[trigger] post.vertex_ok(v) by {
            self.lemma_run_vertex(post, s1, s2, v);
        }
    }

    /// The record of segment `s` while the ring is being turned: segments
    /// whose place lies above `upto` have been turned already.
    pub(crate) open spec fn run_turning(&self, s: int, s1: int, s2: int, upto: int) -> ParentVertex {
        let g = self.parents@[s];
        let k1 = self.parents@[s1].id as int;
        let k2 = self.parents@[s2].id as int;
        if upto < g.id <= k2 {
            ParentVertex {
                id: (k1 + k2 - g.id) as usize,
                reverse: !g.reverse,
                prev: g.next,
                next: g.prev,
                ..g
            }
        } else {
            g
        }
    }

    /// Reverses the part of the tour that the run of segments from `s1` to
    /// `s2` covers: the order of the segments in the ring is reversed, each
    /// of them is flagged the other way round, and the four links across the
    /// two cuts are rewired.
    #[verifier::rlimit(25)]
    pub(crate) fn reverse_run(&mut self, s1: usize, s2: usize)
        requires
            old(self).run_given(s1 as int, s2 as int),
        ensures
            final(self).wf(),
            old(self).run_reversed(*final(self), s1 as int, s2 as int),
            final(self).n() == old(self).n(),
            final(self).m() == old(self).m(),
            final(self).same_marks(*old(self)),
            final(self).parents@[0].max_size == old(self).parents@[0].max_size,
            final(self).frame() == old(self).frame().run_turned(s1 as int, s2 as int),
    {
        let ghost pre = *self;
        let m = self.parents.len();
        let k1 = self.parents[s1].id;
        let k2 = self.parents[s2].id;
        let len = k2 - k1 + 1;
        let r1 = self.parents[s1].reverse;
        let r2 = self.parents[s2].reverse;
        let u = self.parents[s1].head();
        let w = self.parents[s2].tail();
        proof {
            pre.lemma_run_ends(s1 as int, s2 as int);
            assert(pre.link_ok(s1 as int));
            assert(pre.link_ok(s2 as int));
            assert(pre.ring@[pre.ring_prev(k1 as int)] < m);
            assert(pre.ring@[pre.ring_next(k2 as int)] < m);
        }
        let x = self.vertices[u].backward(r1);
        let y = self.vertices[w].forward(r2);
        let rx = self.parents[self.vertices[x].parent].reverse;
        let ry = self.parents[self.vertices[y].parent].reverse;
        let before_run = self.parents[s1].prev;
        let behind_run = self.parents[s2].next;
        let mut cur = s2;
        let mut t: usize = 0;
        while t < len
            invariant
                t <= len,
                len == k2 - k1 + 1,
                k1 == pre.parents@[s1 as int].id,
                k2 == pre.parents@[s2 as int].id,
                k2 < m,
                m == pre.parents@.len(),
                pre.wf(),
                pre.attached,
                self.vertices == pre.vertices,
                self.listing == pre.listing,
                self.rank == pre.rank,
                self.ring == pre.ring,
                self.base == pre.base,
                self.attached == pre.attached,
                self.parents@.len() == m,
                t < len ==> cur == pre.ring@[k2 - t],
                forall|s: int|
                    0 <= s < m ==> (#[trigger] self.parents@[s]) == pre.run_turning(
                        s,
                        s1 as int,
                        s2 as int,
                        k2 - t,
                    ),
            decreases len - t,
        {
            proof {
                assert(pre.ring@[k2 - t] < m);
                assert(pre.link_ok(cur as int));
                assert(pre.ring@[pre.ring_prev(k2 - t)] < m);
            }
            let g = self.parents[cur];
            self.parents.set(
                cur,
                ParentVertex { id: k1 + t, reverse: !g.reverse, prev: g.next, next: g.prev, ..g },
            );
            proof {
                assert forall|s: int| 0 <= s < m implies (#[trigger] self.parents@[s])
                    == pre.run_turning(s, s1 as int, s2 as int, k2 - t - 1) by {
                    assert(pre.parents@[s].id < m);
                    assert(pre.ring@[pre.parents@[s].id as int] == s);
                }
            }
            cur = g.prev;
            t += 1;
        }
        if len < m {
            self.parents[s2].prev = before_run;
            self.parents[s1].next = behind_run;
            self.parents[before_run].next = s2;
            self.parents[behind_run].prev = s1;
        }
        if x != w {
            self.vertices[w].set_forward(r2, x);
            self.vertices[u].set_backward(r1, y);
            self.vertices[x].set_forward(rx, w);
            self.vertices[y].set_backward(ry, u);
        }
        proof {
            let lo = pre.run_lo(s1 as int);
            let hi = pre.run_hi(s2 as int);
            self.listing@ = reverse_block(pre.listing@, lo, hi);
            self.rank@ = Seq::new(pre.rank@.len(), |v: int| mirror(lo, hi, pre.rank@[v]));
            self.ring@ = Seq::new(pre.ring@.len(), |k: int| pre.ring@[mirror(k1 as int, k2 as int, k)]);
            self.base@ = Seq::new(
                pre.base@.len(),
                |s: int|
                    if pre.in_run(s, s1 as int, s2 as int) {
                        lo + hi + 1 - pre.base@[s] - pre.parents@[s].size
                    } else {
                        pre.base@[s]
                    },
            );
            assert(self.vertices@ =~= pre.run_vertices(s1 as int, s2 as int));
            assert forall|s: int| 0 <= s < m implies (#[trigger] self.parents@[s]) == pre.run_parent(
                s,
                s1 as int,
                s2 as int,
            ) by {
                assert(pre.parents@[s].id < m);
                assert(pre.ring@[pre.parents@[s].id as int] == s);
                assert(pre.ring@[k1 as int] == s1);
                assert(pre.ring@[k2 as int] == s2);
                assert(pre.parents@[before_run as int].id == pre.ring_prev(k1 as int));
                assert(pre.parents@[behind_run as int].id == pre.ring_next(k2 as int));
            }
            assert(self.parents@ =~= Seq::new(
                pre.parents@.len(),
                |s: int| pre.run_parent(s, s1 as int, s2 as int),
            ));
            pre.lemma_run_reversed(*self, s1 as int, s2 as int);
            pre.lemma_run_common(*self, s1 as int, s2 as int);
            pre.lemma_frame_run(*self, s1 as int, s2 as int);
        }
    }

    /// Reverses the part of the tour that segment `parent_idx` holds, by
    /// toggling the segment's flag and rewiring the links at its two ends.
    /// On an empty segment only the flag changes.
    pub fn reverse(&mut self, parent_idx: usize)
        requires
            old(self).wf(),
            old(self).is_attached(),
            parent_idx < old(self).parents_view().len(),
        ensures
            final(self).wf(),
            final(self).is_attached(),
            final(self).spec_len() == old(self).spec_len(),
            final(self).parents_view().len() == old(self).parents_view().len(),
            final(self)@ == reverse_block(
                old(self)@,
                old(self).spec_start(parent_idx as int),
                old(self).spec_start(parent_idx as int) + old(
                    self,
                ).parents_view()[parent_idx as int].size - 1,
            ),
            forall|v: int|
                0 <= v < old(self).spec_len() ==> final(self).rank(v) == mirror(
                    old(self).spec_start(parent_idx as int),
                    old(self).spec_start(parent_idx as int) + old(
                        self,
                    ).parents_view()[parent_idx as int].size - 1,
                    old(self).rank(v),
                ),
            final(self).parents_view() == old(self).parents_view().update(
                parent_idx as int,
                ParentVertex {
                    reverse: !old(self).parents_view()[parent_idx as int].reverse,
                    ..old(self).parents_view()[parent_idx as int]
                },
            ),
            forall|s: int|
                0 <= s < old(self).parents_view().len() ==> final(self).spec_start(s) == old(
                    self,
                ).spec_start(s),
            forall|k: int|
                0 <= k < old(self).parents_view().len() ==> final(self).spec_ring(k) == old(
                    self,
                ).spec_ring(k),
            final(self).same_marks(*old(self)),
            final(self).same_membership(*old(self)),
    {
        let ghost pre = *self;
        if self.parents[parent_idx].size == 0 {
            let flag = self.parents[parent_idx].reverse;
            self.parents[parent_idx].reverse = !flag;
            proof {
                assert(self.parents@ =~= pre.parents@.update(
                    parent_idx as int,
                    ParentVertex { reverse: !flag, ..pre.parents@[parent_idx as int] },
                ));
                let lo = pre.base@[parent_idx as int];
                assert(self.listing@ =~= reverse_block(pre.listing@, lo, lo - 1));
                assert forall|s: int| 0 <= s < self.m() implies (#[trigger] self.parents@[s]).max_size
                    == self.parents@[0].max_size by {
                    assert(pre.parents@[s].max_size == pre.parents@[0].max_size);
                }
                assert forall|s: int| 0 <= s < self.m() implies #[trigger] self.parent_ok(s) by {
                    assert(pre.parent_ok(s));
                    if pre.parents@[s].id > 0 {
                        assert(pre.ring@[pre.parents@[s].id - 1] < self.m());
                    }
                }
                assert forall|s: int| 0 <= s < self.m() implies #[trigger] self.link_ok(s) by {
                    assert(pre.link_ok(s));
                }
                assert forall|k: int| 0 <= k < self.m() implies (#[trigger] self.ring@[k])
                    < self.m() && self.parents@[self.ring@[k] as int].id == k by {
                    assert(pre.ring@[k] < self.m());
                }
                assert forall|v: int| 0 <= v < self.n() implies #[trigger] self.vertex_ok(v) by {
                    assert(pre.vertex_ok(v));
                    assert(pre.parent_ok(pre.vertices@[v].parent as int));
                }
            }
        } else {
            self.reverse_run(parent_idx, parent_idx);
            proof {
                let s = parent_idx as int;
                pre.lemma_run_common(*self, s, s);
                assert(pre.parent_ok(s));
                assert(pre.link_ok(s));
                assert forall|q: int| 0 <= q < pre.m() implies #[trigger] self.parents@[q]
                    == pre.parents@.update(
                    s,
                    ParentVertex { reverse: !pre.parents@[s].reverse, ..pre.parents@[s] },
                )[q] by {
                    assert(self.parents@[q] == pre.run_parent(q, s, s));
                    assert(pre.link_ok(q));
                    assert(pre.parents@[q].id < pre.m());
                    assert(pre.ring@[pre.parents@[q].id as int] == q);
                    assert(pre.ring@[pre.parents@[s].id as int] == s);
                    assert(pre.ring@[pre.ring_prev(pre.parents@[s].id as int)] < pre.m());
                    assert(pre.ring@[pre.ring_next(pre.parents@[s].id as int)] < pre.m());
                }
                assert(self.parents@ =~= pre.parents@.update(
                    s,
                    ParentVertex { reverse: !pre.parents@[s].reverse, ..pre.parents@[s] },
                ));
            }
        }
    }

    /// The four nodes at the two ends of segment `parent_idx`, in tour
    /// order: the node before the segment, the first and the last node of
    /// the segment, and the node behind it. Reversing the segment takes the
    /// edge from the first to the second and the edge from the third to the
    /// fourth out of the tour, and puts the edge from the first to the third
    /// and the edge from the second to the fourth in their place. There are
    /// no such nodes where the segment has no member or has every node, for
    /// then the reversal changes no edge.
    pub fn reverse_cuts(&self, parent_idx: usize) -> (r: Option<(usize, usize, usize, usize)>)
        requires
            self.wf(),
            self.is_attached(),
            parent_idx < self.parents_view().len(),
        ensures
            r.is_some() <==> 0 < self.parents_view()[parent_idx as int].size < self.spec_len(),
            r.is_some() ==> {
                let (before, head, tail, behind) = r.unwrap();
                &&& head == self@[self.spec_start(parent_idx as int)]
                &&& tail == self@[self.spec_start(parent_idx as int)
                    + self.parents_view()[parent_idx as int].size - 1]
                &&& before == self.pred(head as int)
                &&& behind == self.succ(tail as int)
                &&& before < self.spec_len()
                &&& head < self.spec_len()
                &&& tail < self.spec_len()
                &&& behind < self.spec_len()
            },
    {
        let g = self.parents[parent_idx];
        if g.size == 0 || g.size == self.vertices.len() {
            proof {
                assert(self.parent_ok(parent_idx as int));
            }
            return None;
        }
        proof {
            self.lemma_run_ends(parent_idx as int, parent_idx as int);
            assert(self.parent_ok(parent_idx as int));
        }
        let head = g.head();
        let tail = g.tail();
        let before = self.vertices[head].backward(g.reverse);
        let behind = self.vertices[tail].forward(g.reverse);
        Some((before, head, tail, behind))
    }

    /// The layout after the reversal of a run.
    pub(crate) proof fn lemma_frame_run(&self, post: TwoLevelTree, s1: int, s2: int)
        requires
            self.run_given(s1, s2),
            self.run_reversed(post, s1, s2),
        ensures
            post.frame() == self.frame().run_turned(s1, s2),
    {
        let a = post.frame();
        let b = self.frame().run_turned(s1, s2);
        assert forall|q: int| 0 <= q < self.m() implies a.ids[q] == b.ids[q] && a.sizes[q]
            == b.sizes[q] && a.flags[q] == b.flags[q] && a.starts[q] == b.starts[q] && a.ring[q]
            == b.ring[q] by {
            assert(post.parents@[q] == self.run_parent(q, s1, s2));
            assert(self.parents@[q].id < self.m());
            assert(self.parents@[s1].id < self.m());
            assert(self.parents@[s2].id < self.m());
        }
        crate::frame::lemma_frame_eq(a, b);
    }
}

} // verus!
