//! The per-segment record of a tour.

use vstd::prelude::*;
use crate::vertex::DETACHED;

verus! {

/// A segment: a run of consecutive tour vertices that can be reversed as a
/// whole by toggling one flag.
///
/// `first` and `last` bound the run in stored order. While `reverse` is set
/// the tour passes through the segment from `last` to `first`.
#[derive(Clone, Copy, Debug)]
pub struct ParentVertex {
    /// Place of the segment in the ring of segments, counted from zero.
    pub id: usize,
    /// Number of vertices that the segment owns at present.
    pub size: usize,
    /// Number of vertices that the segment receives when a tour is loaded.
    pub max_size: usize,
    /// Whether the stored links of the members read backwards.
    pub reverse: bool,
    /// Index of the segment before this one in the ring.
    pub prev: usize,
    /// Index of the segment after this one in the ring.
    pub next: usize,
    /// Stored first member; `DETACHED` while the segment is empty.
    pub first: usize,
    /// Stored last member; `DETACHED` while the segment is empty.
    pub last: usize,
}

impl ParentVertex {
    /// An empty, unlinked segment with the given place and capacity.
    pub fn new(id: usize, max_size: usize) -> (p: ParentVertex)
        ensures
            p == (ParentVertex {
                id,
                size: 0,
                max_size,
                reverse: false,
                prev: DETACHED,
                next: DETACHED,
                first: DETACHED,
                last: DETACHED,
            }),
    {
        ParentVertex {
            id,
            size: 0,
            max_size,
            reverse: false,
            prev: DETACHED,
            next: DETACHED,
            first: DETACHED,
            last: DETACHED,
        }
    }

    /// The member at which the tour enters the segment.
    pub open spec fn spec_head(&self) -> usize {
        if self.reverse {
            self.last
        } else {
            self.first
        }
    }

    /// The member at which the tour leaves the segment.
    pub open spec fn spec_tail(&self) -> usize {
        if self.reverse {
            self.first
        } else {
            self.last
        }
    }

    /// The member at which the tour enters the segment.
    pub fn head(&self) -> (v: usize)
        ensures
            v == self.spec_head(),
    {
        if self.reverse {
            self.last
        } else {
            self.first
        }
    }

    /// The member at which the tour leaves the segment.
    pub fn tail(&self) -> (v: usize)
        ensures
            v == self.spec_tail(),
    {
        if self.reverse {
            self.first
        } else {
            self.last
        }
    }
}

impl PartialEq for ParentVertex {
    /// Two segments are equal when place, size and capacity agree.
    fn eq(&self, other: &Self) -> (r: bool) {
        self.id == other.id && self.size == other.size && self.max_size == other.max_size
    }
}

impl vstd::std_specs::cmp::PartialEqSpecImpl for ParentVertex {
    open spec fn obeys_eq_spec() -> bool {
        true
    }

    open spec fn eq_spec(&self, other: &Self) -> bool {
        self.id == other.id && self.size == other.size && self.max_size == other.max_size
    }
}

} // verus!
