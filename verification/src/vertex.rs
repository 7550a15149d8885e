//! The per-node record of a tour.

use vstd::prelude::*;

verus! {

/// The value of a link or of a sequence number that points nowhere.
pub const DETACHED: usize = usize::MAX;

/// What a second vertex is to a first one in a tour.
#[derive(Clone, Copy, Debug, PartialEq, Eq, Structural)]
pub enum NodeRel {
    /// The second vertex comes directly before the first.
    Predecessor,
    /// The second vertex comes directly after the first.
    Successor,
    /// The two vertices are not neighbours in this direction or the other.
    Neither,
}

/// One node of a tour together with its place in the two-level list.
///
/// The links are stored as they were written, not as they are read: whether
/// `next` leads forwards or backwards along the tour depends on the reversal
/// flag of the segment that owns the vertex. A tree hands out shared
/// references to its records only.
#[derive(Clone, Copy, Debug)]
pub struct TltVertex {
    /// Index of the node that this record stands for.
    pub index: usize,
    /// Offset of the vertex inside its segment, counted from the segment's
    /// stored first vertex; `DETACHED` while the vertex is in no segment.
    pub seq_id: usize,
    /// Traversal mark, owned by the caller.
    pub visited: bool,
    /// Stored link to one neighbour.
    pub prev: usize,
    /// Stored link to the other neighbour.
    pub next: usize,
    /// Index of the owning segment; `DETACHED` while there is none.
    pub parent: usize,
}

impl TltVertex {
    /// A vertex for node `index` that belongs to no segment yet.
    pub fn new(index: usize) -> (v: TltVertex)
        ensures
            v.index == index,
            v.is_detached(),
            !v.visited,
            v.seq_id == DETACHED,
            v.prev == DETACHED,
            v.next == DETACHED,
    {
        TltVertex {
            index,
            seq_id: DETACHED,
            visited: false,
            prev: DETACHED,
            next: DETACHED,
            parent: DETACHED,
        }
    }

    /// A vertex is detached while no segment owns it.
    pub open spec fn is_detached(&self) -> bool {
        self.parent == DETACHED
    }

    /// The link that leads forwards along the tour, given the reversal
    /// flag of the owning segment.
    pub open spec fn fwd(&self, rev: bool) -> usize {
        if rev {
            self.prev
        } else {
            self.next
        }
    }

    /// The link that leads backwards along the tour, given the reversal
    /// flag of the owning segment.
    pub open spec fn bwd(&self, rev: bool) -> usize {
        if rev {
            self.next
        } else {
            self.prev
        }
    }

    /// This record with its forward link set to `t`.
    pub open spec fn with_fwd(&self, rev: bool, t: usize) -> TltVertex {
        if rev {
            TltVertex { prev: t, ..*self }
        } else {
            TltVertex { next: t, ..*self }
        }
    }

    /// This record with its backward link set to `t`.
    pub open spec fn with_bwd(&self, rev: bool, t: usize) -> TltVertex {
        if rev {
            TltVertex { next: t, ..*self }
        } else {
            TltVertex { prev: t, ..*self }
        }
    }

    /// This record with its two links exchanged.
    pub open spec fn turned(&self) -> TltVertex {
        TltVertex { prev: self.next, next: self.prev, ..*self }
    }

    /// Reads the forward link.
    pub fn forward(&self, rev: bool) -> (t: usize)
        ensures
            t == self.fwd(rev),
    {
        if rev {
            self.prev
        } else {
            self.next
        }
    }

    /// Reads the backward link.
    pub fn backward(&self, rev: bool) -> (t: usize)
        ensures
            t == self.bwd(rev),
    {
        if rev {
            self.next
        } else {
            self.prev
        }
    }

    /// Writes the forward link.
    pub fn set_forward(&mut self, rev: bool, t: usize)
        ensures
            *final(self) == old(self).with_fwd(rev, t),
    {
        if rev {
            self.prev = t;
        } else {
            self.next = t;
        }
    }

    /// Writes the backward link.
    pub fn set_backward(&mut self, rev: bool, t: usize)
        ensures
            *final(self) == old(self).with_bwd(rev, t),
    {
        if rev {
            self.next = t;
        } else {
            self.prev = t;
        }
    }

    /// Index of the node behind this vertex.
    pub fn index(&self) -> (i: usize)
        ensures
            i == self.index,
    {
        self.index
    }

    /// Whether the traversal mark is set.
    pub fn is_visited(&self) -> (b: bool)
        ensures
            b == self.visited,
    {
        self.visited
    }

    /// Sets or clears the traversal mark and leaves everything else alone.
    pub fn visited(&mut self, flag: bool)
        ensures
            *final(self) == (TltVertex { visited: flag, ..*old(self) }),
    {
        self.visited = flag;
    }
}

impl PartialEq for TltVertex {
    /// Two records are equal when they stand for the same node and carry
    /// the same traversal mark; the links are not compared.
    fn eq(&self, other: &Self) -> (r: bool) {
        self.index == other.index && self.visited == other.visited
    }
}

impl vstd::std_specs::cmp::PartialEqSpecImpl for TltVertex {
    open spec fn obeys_eq_spec() -> bool {
        true
    }

    open spec fn eq_spec(&self, other: &Self) -> bool {
        self.index == other.index && self.visited == other.visited
    }
}

} // verus!
