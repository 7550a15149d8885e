//! The layout of the segments: which place each segment has in the ring,
//! how many vertices it owns, which way round it is flagged and where in
//! the listing it begins. Together with the listing the layout fixes every
//! record of a loaded tree.

use vstd::prelude::*;
use crate::cyclic::{after, before, mirror, next_place, prev_place, shifted, unshifted};
use crate::parent::ParentVertex;
use crate::relocate::seq_at;
use crate::tree::TwoLevelTree;
use crate::vertex::{TltVertex, DETACHED};

verus! {

/// The layout of the segments of a tree.
pub struct Frame {
    /// For every segment its place in the ring.
    pub ids: Seq<int>,
    /// For every segment the number of vertices that it owns.
    pub sizes: Seq<int>,
    /// For every segment its reversal flag.
    pub flags: Seq<bool>,
    /// For every segment the position of the listing at which it begins.
    pub starts: Seq<int>,
    /// For every place of the ring the segment that has it.
    pub ring: Seq<int>,
}

impl Frame {
    /// Number of segments.
    pub open spec fn len(self) -> int {
        self.ids.len() as int
    }

    /// The layout after the places of the ring have been counted from
    /// segment `s0` on, in a tree of `n` nodes.
    pub open spec fn anchored(self, s0: int, n: int) -> Frame {
        let k0 = self.ids[s0];
        let r = self.starts[s0];
        Frame {
            ids: Seq::new(self.ids.len(), |s: int| shifted(k0, self.len(), self.ids[s])),
            starts: Seq::new(
                self.starts.len(),
                |s: int|
                    if self.ids[s] >= k0 {
                        self.starts[s] - r
                    } else {
                        self.starts[s] - r + n
                    },
            ),
            ring: Seq::new(self.ring.len(), |k: int| self.ring[unshifted(k0, self.len(), k)]),
            ..self
        }
    }

    /// The segment next to segment `s` in the ring: the one behind it where
    /// `dir` is set, the one before it otherwise.
    pub open spec fn beside(self, s: int, dir: bool) -> int {
        if dir {
            self.ring[self.ids[s] + 1]
        } else {
            self.ring[self.ids[s] - 1]
        }
    }

    /// The layout after `cnt` vertices have moved from segment `s` into the
    /// segment beside it: from its tail into the next segment where `dir` is
    /// set, from its head into the previous segment otherwise.
    pub open spec fn moved(self, s: int, cnt: int, dir: bool) -> Frame {
        let t = self.beside(s, dir);
        Frame {
            sizes: Seq::new(
                self.sizes.len(),
                |q: int|
                    if q == s {
                        self.sizes[s] - cnt
                    } else if q == t {
                        self.sizes[q] + cnt
                    } else {
                        self.sizes[q]
                    },
            ),
            starts: Seq::new(
                self.starts.len(),
                |q: int|
                    if q == s && !dir {
                        self.starts[s] + cnt
                    } else if q == t && dir {
                        self.starts[q] - cnt
                    } else {
                        self.starts[q]
                    },
            ),
            ..self
        }
    }

    /// The layout after position `i`, which lies in segment `s`, has become
    /// the beginning of a segment, and the segment that then begins there.
    ///
    /// Where `i` is not the beginning of `s` already, the smaller side of
    /// `s` moves away: the vertices before `i` into the previous segment
    /// where they are no more than the others and `s` is not the first
    /// segment of the ring, the vertices from `i` on into the next segment
    /// otherwise.
    pub open spec fn head_aligned(self, s: int, i: int) -> (Frame, int) {
        let d1 = i - self.starts[s];
        let d2 = self.sizes[s] - d1;
        if d1 == 0 {
            (self, s)
        } else if d1 <= d2 && self.ids[s] > 0 {
            (self.moved(s, d1, false), s)
        } else {
            (self.moved(s, d2, true), self.beside(s, true))
        }
    }

    /// The layout after position `j`, which lies in segment `s`, has become
    /// the end of a segment, and the segment that then ends there.
    ///
    /// Where `j` is not the end of `s` already, the smaller side of `s`
    /// moves away: the vertices up to `j` into the previous segment where
    /// they are no more than the others or `s` is the last segment of the
    /// ring, the vertices behind `j` into the next segment otherwise.
    pub open spec fn tail_aligned(self, s: int, j: int) -> (Frame, int) {
        let d1 = j - self.starts[s] + 1;
        let d2 = self.sizes[s] - d1;
        if d2 == 0 {
            (self, s)
        } else if d1 <= d2 || self.ids[s] + 1 == self.len() {
            (self.moved(s, d1, false), self.beside(s, false))
        } else {
            (self.moved(s, d2, true), s)
        }
    }

    /// The layout after the run of segments from `s1` to `s2` has been
    /// reversed: the segments of the run change places in the ring, each of
    /// them is flagged the other way round, and each begins as far from the
    /// end of the run as it ended from its beginning.
    pub open spec fn run_turned(self, s1: int, s2: int) -> Frame {
        let k1 = self.ids[s1];
        let k2 = self.ids[s2];
        let lo = self.starts[s1];
        let hi = self.starts[s2] + self.sizes[s2] - 1;
        Frame {
            ids: Seq::new(
                self.ids.len(),
                |s: int|
                    if k1 <= self.ids[s] <= k2 {
                        k1 + k2 - self.ids[s]
                    } else {
                        self.ids[s]
                    },
            ),
            flags: Seq::new(
                self.flags.len(),
                |s: int|
                    if k1 <= self.ids[s] <= k2 {
                        !self.flags[s]
                    } else {
                        self.flags[s]
                    },
            ),
            starts: Seq::new(
                self.starts.len(),
                |s: int|
                    if k1 <= self.ids[s] <= k2 {
                        lo + hi + 1 - self.starts[s] - self.sizes[s]
                    } else {
                        self.starts[s]
                    },
            ),
            ring: Seq::new(self.ring.len(), |k: int| self.ring[mirror(k1, k2, k)]),
            ..self
        }
    }

    /// The layout after the block `i..=j` inside segment `s` has been
    /// reversed: where the block is the whole segment its flag is toggled,
    /// otherwise nothing of the layout changes.
    pub open spec fn inside_turned(self, s: int, i: int, j: int) -> Frame {
        if i == self.starts[s] && j == self.starts[s] + self.sizes[s] - 1 {
            self.run_turned(s, s)
        } else {
            self
        }
    }

    /// The layout after the block `i..=j` of the listing, which begins in
    /// segment `su` and ends in segment `sw`, has been reversed.
    ///
    /// A block inside one segment is reversed there. Otherwise the segment
    /// in which the block begins is split at its beginning; where the block
    /// then lies inside one segment it is reversed there; otherwise the
    /// segment in which it ends is split at its end, and the run of segments
    /// that the block then fills is reversed.
    pub open spec fn path_turned(self, su: int, sw: int, i: int, j: int) -> Frame {
        if su == sw {
            self.inside_turned(su, i, j)
        } else {
            let (f1, o1) = self.head_aligned(su, i);
            if o1 == sw {
                f1.inside_turned(o1, i, j)
            } else {
                let (f2, o2) = f1.tail_aligned(sw, j);
                f2.run_turned(o1, o2)
            }
        }
    }

    /// The record of segment `s` in a tree with this layout and the given
    /// listing.
    pub open spec fn parent_record(self, listing: Seq<usize>, max_size: usize, s: int) -> ParentVertex {
        let head = if self.sizes[s] == 0 {
            DETACHED
        } else {
            listing[self.starts[s]]
        };
        let tail = if self.sizes[s] == 0 {
            DETACHED
        } else {
            listing[self.starts[s] + self.sizes[s] - 1]
        };
        ParentVertex {
            id: self.ids[s] as usize,
            size: self.sizes[s] as usize,
            max_size,
            reverse: self.flags[s],
            prev: self.ring[prev_place(self.ids[s], self.len())] as usize,
            next: self.ring[next_place(self.ids[s], self.len())] as usize,
            first: if self.flags[s] {
                tail
            } else {
                head
            },
            last: if self.flags[s] {
                head
            } else {
                tail
            },
        }
    }

    /// The record of node `v`, which stands at position `p` of the listing
    /// and carries the traversal mark `visited`, where segment `s` owns it.
    pub open spec fn vertex_record(
        self,
        listing: Seq<usize>,
        p: int,
        visited: bool,
        v: int,
        s: int,
    ) -> TltVertex {
        TltVertex {
            index: v as usize,
            seq_id: seq_at(self.flags[s], self.starts[s], self.sizes[s], p) as usize,
            visited,
            prev: if self.flags[s] {
                after(listing, p)
            } else {
                before(listing, p)
            },
            next: if self.flags[s] {
                before(listing, p)
            } else {
                after(listing, p)
            },
            parent: s as usize,
        }
    }
}

/// Two layouts that agree entry by entry are the same layout.
pub proof fn lemma_frame_eq(a: Frame, b: Frame)
    requires
        a.ids =~= b.ids,
        a.sizes =~= b.sizes,
        a.flags =~= b.flags,
        a.starts =~= b.starts,
        a.ring =~= b.ring,
    ensures
        a == b,
{
}

impl TwoLevelTree {
    /// The segment that has place `k` of the ring.
    pub open(crate) spec fn spec_ring(&self, k: int) -> int {
        self.ring@[k] as int
    }

    /// The layout of the segments.
    pub open spec fn frame(&self) -> Frame {
        Frame {
            ids: Seq::new(self.parents_view().len(), |s: int| self.parents_view()[s].id as int),
            sizes: Seq::new(self.parents_view().len(), |s: int| self.parents_view()[s].size as int),
            flags: Seq::new(self.parents_view().len(), |s: int| self.parents_view()[s].reverse),
            starts: Seq::new(self.parents_view().len(), |s: int| self.spec_start(s)),
            ring: Seq::new(self.parents_view().len(), |k: int| self.spec_ring(k)),
        }
    }

    /// Whether the record of segment `s` is what the layout and the listing
    /// make it.
    pub open spec fn laid_parent(&self, s: int) -> bool {
        self.parents_view()[s] == self.frame().parent_record(
            self@,
            self.parents_view()[s].max_size,
            s,
        )
    }

    /// Whether the record of node `v` is what the layout and the listing
    /// make it where `v` stands inside the range of segment `s`.
    pub open spec fn laid_vertex(&self, v: int, s: int) -> bool {
        self.spec_start(s) <= self.rank(v) < self.spec_start(s) + self.parents_view()[s].size
            ==> self.vertices_view()[v] == self.frame().vertex_record(
            self@,
            self.rank(v),
            self.vertices_view()[v].visited,
            v,
            s,
        )
    }

    /// In a loaded tree the layout and the listing fix every record.
    pub proof fn lemma_laid_out(&self)
        requires
            self.wf(),
            self.is_attached(),
        ensures
            forall|s: int| 0 <= s < self.parents_view().len() ==> #[trigger] self.laid_parent(s),
            forall|v: int, s: int|
                0 <= v < self.spec_len() && 0 <= s < self.parents_view().len()
                    ==> #[trigger] self.laid_vertex(v, s),
    {
        assert forall|s: int| 0 <= s < self.parents_view().len() implies #[trigger] self.laid_parent(
            s,
        ) by {
            assert(self.parent_ok(s));
            assert(self.link_ok(s));
            let k = self.parents@[s].id as int;
            assert(self.ring@[self.ring_next(k)] < self.m());
            assert(self.ring@[self.ring_prev(k)] < self.m());
        }
        assert forall|v: int, s: int|
            0 <= v < self.spec_len() && 0 <= s < self.parents_view().len()
                implies #[trigger] self.laid_vertex(v, s) by {
            if self.spec_start(s) <= self.rank(v) < self.spec_start(s) + self.parents_view()[s].size {
                assert(self.vertex_ok(v));
                assert(self.vertices@[v].index == v);
                self.lemma_owner(self.rank@[v], s);
                assert(self.parent_ok(s));
            }
        }
    }
}

} // verus!
