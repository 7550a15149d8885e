//! The two-level list itself: its records, its model and its invariant.

use vstd::prelude::*;
use crate::cyclic::{after, before, spec_between};
use crate::parent::ParentVertex;
use crate::vertex::{TltVertex, DETACHED};

verus! {

/// A tour over the nodes `0..n`, kept as a ring of reversible segments.
///
/// The model of a loaded tree is its listing `self@`: the nodes in tour
/// order, beginning with the segment whose `id` is zero. The listing is
/// cyclic, its last entry is followed by its first.
pub struct TwoLevelTree {
    pub(crate) vertices: Vec<TltVertex>,
    pub(crate) parents: Vec<ParentVertex>,
    /// The nodes in tour order.
    pub(crate) listing: Ghost<Seq<usize>>,
    /// For every node its position in `listing`.
    pub(crate) rank: Ghost<Seq<int>>,
    /// The segments in ring order; a segment's `id` is its position here.
    pub(crate) ring: Ghost<Seq<usize>>,
    /// For every segment the position in `listing` at which it begins.
    pub(crate) base: Ghost<Seq<int>>,
    /// Whether a tour has been loaded.
    pub(crate) attached: bool,
}

impl View for TwoLevelTree {
    type V = Seq<usize>;

    /// The listing: the nodes in tour order.
    open(crate) spec fn view(&self) -> Seq<usize> {
        self.listing@
    }
}

impl TwoLevelTree {
    /// Number of nodes.
    pub open(crate) spec fn spec_len(&self) -> nat {
        self.vertices@.len()
    }

    /// The vertex records, indexed by node.
    pub open(crate) spec fn vertices_view(&self) -> Seq<TltVertex> {
        self.vertices@
    }

    /// The segment records, indexed by segment.
    pub open(crate) spec fn parents_view(&self) -> Seq<ParentVertex> {
        self.parents@
    }

    /// Whether a tour has been loaded, so that the vertices are linked.
    pub open(crate) spec fn is_attached(&self) -> bool {
        self.attached
    }

    /// Position of node `v` in the listing.
    pub open(crate) spec fn rank(&self, v: int) -> int {
        self.rank@[v]
    }

    /// The node that follows `v` on the tour.
    pub open spec fn succ(&self, v: int) -> usize {
        after(self@, self.rank(v))
    }

    /// The node that precedes `v` on the tour.
    pub open spec fn pred(&self, v: int) -> usize {
        before(self@, self.rank(v))
    }

    /// Whether a walk along the tour that starts at `a` meets `b` strictly
    /// before `c`. The walk begins at `a` itself: it meets `a` first of all,
    /// and it meets nothing before `a`.
    pub open spec fn is_between(&self, a: int, b: int, c: int) -> bool {
        spec_between(self.rank(a), self.rank(b), self.rank(c))
    }

    /// Whether `v` is the record that this tree keeps for its node.
    pub open spec fn owns(&self, v: TltVertex) -> bool {
        v.index < self.spec_len() && self.vertices_view()[v.index as int] == v
    }

    /// The position of the listing at which segment `s` begins.
    pub open(crate) spec fn spec_start(&self, s: int) -> int {
        self.base@[s]
    }

    /// Whether two trees carry the same traversal marks.
    pub open spec fn same_marks(&self, other: TwoLevelTree) -> bool {
        forall|v: int|
            0 <= v < self.spec_len() ==> (#[trigger] self.vertices_view()[v]).visited
                == other.vertices_view()[v].visited
    }

    /// Whether every vertex has the segment and the sequence number that it
    /// has in `other`.
    pub open spec fn same_membership(&self, other: TwoLevelTree) -> bool {
        forall|v: int|
            0 <= v < self.spec_len() ==> (#[trigger] self.vertices_view()[v]).parent
                == other.vertices_view()[v].parent && self.vertices_view()[v].seq_id
                == other.vertices_view()[v].seq_id
    }

    /// Whether two trees describe the same tour: the same listing with the
    /// same positions, loaded or not loaded alike.
    pub open spec fn same_tour(&self, other: TwoLevelTree) -> bool {
        &&& self@ == other@
        &&& self.spec_len() == other.spec_len()
        &&& self.is_attached() == other.is_attached()
        &&& forall|v: int| 0 <= v < self.spec_len() ==> self.rank(v) == other.rank(v)
    }

    /// Number of nodes, as an integer.
    pub(crate) open spec fn n(&self) -> int {
        self.vertices@.len() as int
    }

    /// Number of segments, as an integer.
    pub(crate) open spec fn m(&self) -> int {
        self.parents@.len() as int
    }

    /// What holds of the records whether or not a tour is loaded.
    pub(crate) open spec fn common_ok(&self) -> bool {
        &&& self.m() >= 1
        &&& self.parents@[0].max_size > 0
        &&& self.m() == self.n() / (self.parents@[0].max_size as int) + 1
        &&& forall|s: int|
            0 <= s < self.m() ==> (#[trigger] self.parents@[s]).max_size
                == self.parents@[0].max_size
        &&& forall|v: int| 0 <= v < self.n() ==> (#[trigger] self.vertices@[v]).index == v
    }

    /// No vertex is linked and no segment has members.
    pub(crate) open spec fn detached_ok(&self) -> bool {
        &&& forall|v: int|
            0 <= v < self.n() ==> {
                &&& (#[trigger] self.vertices@[v]).parent == DETACHED
                &&& self.vertices@[v].seq_id == DETACHED
                &&& self.vertices@[v].prev == DETACHED
                &&& self.vertices@[v].next == DETACHED
            }
        &&& forall|s: int|
            0 <= s < self.m() ==> {
                &&& (#[trigger] self.parents@[s]).size == 0
                &&& self.parents@[s].first == DETACHED
                &&& self.parents@[s].last == DETACHED
            }
    }

    /// `listing` and `rank` are inverse to each other.
    pub(crate) open spec fn listing_ok(&self) -> bool {
        &&& self.listing@.len() == self.n()
        &&& self.rank@.len() == self.n()
        &&& forall|v: int|
            0 <= v < self.n() ==> 0 <= (#[trigger] self.rank@[v]) < self.n()
                && self.listing@[self.rank@[v]] == v
        &&& forall|p: int|
            0 <= p < self.n() ==> (#[trigger] self.listing@[p]) < self.n()
                && self.rank@[self.listing@[p] as int] == p
    }

    /// The place that follows place `k` of the ring.
    pub(crate) open spec fn ring_next(&self, k: int) -> int {
        if k + 1 < self.m() {
            k + 1
        } else {
            0
        }
    }

    /// The place that precedes place `k` of the ring.
    pub(crate) open spec fn ring_prev(&self, k: int) -> int {
        if k > 0 {
            k - 1
        } else {
            self.m() - 1
        }
    }

    /// The segments form a ring in which `id` counts the places.
    pub(crate) open spec fn ring_ok(&self) -> bool {
        &&& self.ring@.len() == self.m()
        &&& forall|k: int|
            0 <= k < self.m() ==> (#[trigger] self.ring@[k]) < self.m()
                && self.parents@[self.ring@[k] as int].id == k
        &&& forall|s: int|
            0 <= s < self.m() ==> {
                &&& (#[trigger] self.parents@[s]).id < self.m()
                &&& self.ring@[self.parents@[s].id as int] == s
            }
        &&& forall|s: int| 0 <= s < self.m() ==> #[trigger] self.link_ok(s)
    }

    /// The ring links of segment `s` lead to its neighbours in the ring.
    pub(crate) open spec fn link_ok(&self, s: int) -> bool {
        let g = self.parents@[s];
        &&& g.next == self.ring@[self.ring_next(g.id as int)]
        &&& g.prev == self.ring@[self.ring_prev(g.id as int)]
    }

    /// Segment `s` covers the positions `base[s] .. base[s] + size` of the
    /// listing, directly behind the segment before it in the ring.
    pub(crate) open spec fn parent_ok(&self, s: int) -> bool {
        let g = self.parents@[s];
        let lo = self.base@[s];
        &&& 0 <= lo
        &&& lo + g.size <= self.n()
        &&& if g.id == 0 {
            lo == 0
        } else {
            let q = self.ring@[g.id - 1] as int;
            lo == self.base@[q] + self.parents@[q].size
        }
        &&& g.id == self.m() - 1 ==> lo + g.size == self.n()
        &&& if g.size == 0 {
            g.first == DETACHED && g.last == DETACHED
        } else {
            g.spec_head() == self.listing@[lo] && g.spec_tail() == self.listing@[lo + g.size - 1]
        }
    }

    /// Vertex `v` lies in the range of its segment, and its links, read
    /// through the segment's flag, lead to its neighbours in the listing.
    pub(crate) open spec fn place_ok(&self, v: int) -> bool {
        let x = self.vertices@[v];
        let p = self.rank@[v];
        let g = self.parents@[x.parent as int];
        let lo = self.base@[x.parent as int];
        &&& x.parent < self.m()
        &&& lo <= p < lo + g.size
        &&& x.fwd(g.reverse) == after(self.listing@, p)
        &&& x.bwd(g.reverse) == before(self.listing@, p)
    }

    /// The sequence number of vertex `v` is its distance from the stored
    /// first member of its segment.
    pub(crate) open spec fn seq_ok(&self, v: int) -> bool {
        let x = self.vertices@[v];
        let p = self.rank@[v];
        let g = self.parents@[x.parent as int];
        let lo = self.base@[x.parent as int];
        x.seq_id == (if g.reverse {
            lo + g.size - 1 - p
        } else {
            p - lo
        })
    }

    /// The stored fields of vertex `v` agree with the listing.
    pub(crate) open spec fn vertex_ok(&self, v: int) -> bool {
        self.place_ok(v) && self.seq_ok(v)
    }

    /// The records describe the tour `listing`.
    pub(crate) open spec fn attached_ok(&self) -> bool {
        &&& self.listing_ok()
        &&& self.ring_ok()
        &&& self.base@.len() == self.m()
        &&& forall|s: int| 0 <= s < self.m() ==> #[trigger] self.parent_ok(s)
        &&& forall|v: int| 0 <= v < self.n() ==> #[trigger] self.vertex_ok(v)
    }

    /// The invariant of the tree: every vertex belongs to exactly one
    /// segment, the segments cover the listing one after the other, and the
    /// stored links, read through the reversal flags, trace the listing as
    /// one cycle.
    pub open(crate) spec fn wf(&self) -> bool {
        &&& self.common_ok()
        &&& if self.attached {
            self.attached_ok()
        } else {
            self.detached_ok()
        }
    }

    /// A tree over `n_nodes` nodes whose segments take `max_groupsize`
    /// vertices each when a tour is loaded. No tour is loaded yet.
    pub fn new(n_nodes: usize, max_groupsize: usize) -> (t: TwoLevelTree)
        requires
            max_groupsize > 0,
            n_nodes / max_groupsize < usize::MAX,
        ensures
            t.wf(),
            !t.is_attached(),
            t.spec_len() == n_nodes,
            t.parents_view().len() == n_nodes / max_groupsize + 1,
            forall|v: int|
                0 <= v < n_nodes ==> {
                    &&& (#[trigger] t.vertices_view()[v]).index == v
                    &&& t.vertices_view()[v].is_detached()
                    &&& !t.vertices_view()[v].visited
                },
            forall|s: int|
                0 <= s < t.parents_view().len() ==> {
                    &&& (#[trigger] t.parents_view()[s]).id == s
                    &&& t.parents_view()[s].size == 0
                    &&& t.parents_view()[s].max_size == max_groupsize
                    &&& !t.parents_view()[s].reverse
                },
    {
        let n_parents = n_nodes / max_groupsize + 1;
        let mut vertices: Vec<TltVertex> = Vec::new();
        let mut i: usize = 0;
        while i < n_nodes
            invariant
                i <= n_nodes,
                vertices@.len() == i,
                forall|v: int| 0 <= v < i ==> (#[trigger] vertices@[v]) == (TltVertex {
                        index: v as usize,
                        seq_id: DETACHED,
                        visited: false,
                        prev: DETACHED,
                        next: DETACHED,
                        parent: DETACHED,
                    }),
            decreases n_nodes - i,
        {
            vertices.push(TltVertex::new(i));
            i += 1;
        }
        let mut parents: Vec<ParentVertex> = Vec::new();
        let mut id: usize = 0;
        while id < n_parents
            invariant
                id <= n_parents,
                parents@.len() == id,
                forall|s: int| 0 <= s < id ==> (#[trigger] parents@[s]) == (ParentVertex {
                        id: s as usize,
                        size: 0,
                        max_size: max_groupsize,
                        reverse: false,
                        prev: DETACHED,
                        next: DETACHED,
                        first: DETACHED,
                        last: DETACHED,
                    }),
            decreases n_parents - id,
        {
            parents.push(ParentVertex::new(id, max_groupsize));
            id += 1;
        }
        TwoLevelTree {
            vertices,
            parents,
            listing: Ghost(Seq::empty()),
            rank: Ghost(Seq::empty()),
            ring: Ghost(Seq::empty()),
            base: Ghost(Seq::empty()),
            attached: false,
        }
    }

    /// Number of nodes.
    pub fn size(&self) -> (n: usize)
        ensures
            n == self.spec_len(),
    {
        self.vertices.len()
    }

    /// Number of nodes.
    pub fn len(&self) -> (n: usize)
        ensures
            n == self.spec_len(),
    {
        self.vertices.len()
    }

    /// Whether a tour has been loaded.
    pub fn is_loaded(&self) -> (b: bool)
        ensures
            b == self.is_attached(),
    {
        self.attached
    }

    /// The vertex records, indexed by node.
    pub fn vertices(&self) -> (v: &Vec<TltVertex>)
        ensures
            v@ == self.vertices_view(),
    {
        &self.vertices
    }

    /// The segment records, indexed by segment.
    pub fn parents(&self) -> (p: &Vec<ParentVertex>)
        ensures
            p@ == self.parents_view(),
    {
        &self.parents
    }

    /// The record of node `node_idx`, or nothing where there is no such
    /// node.
    pub fn get(&self, node_idx: usize) -> (r: Option<&TltVertex>)
        ensures
            node_idx < self.spec_len() ==> r == Some(&self.vertices_view()[node_idx as int]),
            node_idx >= self.spec_len() ==> r.is_none(),
    {
        if node_idx < self.vertices.len() {
            Some(&self.vertices[node_idx])
        } else {
            None
        }
    }

    /// A segment that comes earlier in the ring ends before a later one
    /// begins.
    pub(crate) proof fn lemma_base_monotone(&self, s: int, t: int)
        requires
            self.attached_ok(),
            0 <= s < self.m(),
            0 <= t < self.m(),
            self.parents@[s].id < self.parents@[t].id,
        ensures
            self.base@[s] + self.parents@[s].size <= self.base@[t],
        decreases self.parents@[t].id,
    {
        assert(self.parent_ok(t));
        assert(self.parent_ok(s));
        let q = self.ring@[self.parents@[t].id - 1] as int;
        assert(self.parents@[q].id == self.parents@[t].id - 1);
        if q != s {
            assert(self.parent_ok(q));
            self.lemma_base_monotone(s, q);
        }
    }

    /// The vertex at a position inside the range of a segment belongs to
    /// that segment.
    pub(crate) proof fn lemma_owner(&self, p: int, s: int)
        requires
            self.attached_ok(),
            0 <= s < self.m(),
            self.base@[s] <= p < self.base@[s] + self.parents@[s].size,
        ensures
            0 <= p < self.n(),
            self.vertices@[self.listing@[p] as int].parent == s,
    {
        assert(self.parent_ok(s));
        let v = self.listing@[p] as int;
        assert(self.vertex_ok(v));
        let t = self.vertices@[v].parent as int;
        if t != s {
            if self.parents@[s].id < self.parents@[t].id {
                self.lemma_base_monotone(s, t);
            } else {
                assert(self.parents@[s].id != self.parents@[t].id);
                self.lemma_base_monotone(t, s);
            }
        }
    }

    /// Two different segments have different places, and the one with the
    /// smaller place ends before the other begins.
    pub(crate) proof fn lemma_apart(&self, s: int, t: int)
        requires
            self.attached_ok(),
            0 <= s < self.m(),
            0 <= t < self.m(),
            s != t,
        ensures
            self.parents@[s].id != self.parents@[t].id,
            self.parents@[s].id < self.parents@[t].id ==> self.base@[s] + self.parents@[s].size
                <= self.base@[t],
            self.parents@[t].id < self.parents@[s].id ==> self.base@[t] + self.parents@[t].size
                <= self.base@[s],
    {
        if self.parents@[s].id < self.parents@[t].id {
            self.lemma_base_monotone(s, t);
        } else if self.parents@[t].id < self.parents@[s].id {
            self.lemma_base_monotone(t, s);
        }
    }
}

} // verus!
