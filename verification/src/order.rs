//! Explicit tour orders.

use vstd::prelude::*;
use vstd::set_lib::{lemma_int_range, lemma_subset_equality, set_int_range};

verus! {

/// Whether `s` lists every index below its length exactly once.
pub open spec fn is_permutation(s: Seq<usize>) -> bool {
    &&& forall|i: int| 0 <= i < s.len() ==> (#[trigger] s[i]) < s.len()
    &&& forall|i: int, j: int| 0 <= i < j < s.len() ==> s[i] != s[j]
}

/// Whether `v` stands somewhere in `s`.
pub open spec fn occurs(s: Seq<usize>, v: int) -> bool {
    exists|i: int| 0 <= i < s.len() && #[trigger] s[i] == v
}

/// A sequence that lists no index twice and none outside `0..len` lists
/// every index below its length.
pub proof fn lemma_permutation_onto(s: Seq<usize>)
    requires
        is_permutation(s),
    ensures
        forall|v: int| 0 <= v < s.len() ==> #[trigger] occurs(s, v),
{
    let n = s.len() as int;
    let t = Seq::new(s.len(), |i: int| s[i] as int);
    assert(t.no_duplicates());
    t.unique_seq_to_set();
    lemma_int_range(0, n);
    assert(t.to_set().subset_of(set_int_range(0, n))) by {
        assert forall|x: int| t.to_set().contains(x) implies set_int_range(0, n).contains(x) by {
            let i = choose|i: int| 0 <= i < t.len() && t[i] == x;
            assert(s[i] < n);
        }
    }
    t.lemma_cardinality_of_set();
    lemma_subset_equality(t.to_set(), set_int_range(0, n));
    assert forall|v: int| 0 <= v < n implies #[trigger] occurs(s, v) by {
        assert(set_int_range(0, n).contains(v));
        assert(t.to_set().contains(v));
        let i = choose|i: int| 0 <= i < t.len() && t[i] == v;
        assert(s[i] == v);
    }
}

/// A tour written out as the sequence of its nodes.
#[derive(Debug)]
pub struct TourOrder {
    order: Vec<usize>,
}

impl View for TourOrder {
    type V = Seq<usize>;

    /// The nodes in the order in which the tour visits them.
    closed spec fn view(&self) -> Seq<usize> {
        self.order@
    }
}

impl TourOrder {
    /// Wraps a sequence of nodes without inspecting it.
    pub fn new(order: Vec<usize>) -> (t: TourOrder)
        ensures
            t@ == order@,
    {
        TourOrder { order }
    }

    /// Wraps a sequence of nodes without inspecting it.
    pub fn with_ord(order: Vec<usize>) -> (t: TourOrder)
        ensures
            t@ == order@,
    {
        TourOrder { order }
    }

    /// The natural order `0, 1, .., len - 1`.
    pub fn with_nat_ord(len: usize) -> (t: TourOrder)
        ensures
            t@.len() == len,
            forall|i: int| 0 <= i < len ==> t@[i] == i,
            is_permutation(t@),
    {
        let mut order: Vec<usize> = Vec::new();
        let mut i: usize = 0;
        while i < len
            invariant
                i <= len,
                order@.len() == i,
                forall|j: int| 0 <= j < i ==> order@[j] == j,
            decreases len - i,
        {
            order.push(i);
            i += 1;
        }
        TourOrder { order }
    }

    /// The nodes in tour order.
    pub fn order(&self) -> (v: &Vec<usize>)
        ensures
            v@ == self@,
    {
        &self.order
    }

    /// Number of nodes in the order.
    pub fn len(&self) -> (n: usize)
        ensures
            n == self@.len(),
    {
        self.order.len()
    }

    /// Whether the order has no node at all.
    pub fn is_empty(&self) -> (b: bool)
        ensures
            b == (self@.len() == 0),
    {
        self.order.len() == 0
    }

    /// Decides whether the order visits every node below its length exactly
    /// once, which is what a tree demands of an order before loading it.
    pub fn is_valid(&self) -> (b: bool)
        ensures
            b == is_permutation(self@),
    {
        let n = self.order.len();
        let mut seen: Vec<bool> = Vec::new();
        let mut k: usize = 0;
        while k < n
            invariant
                k <= n,
                seen@.len() == k,
                forall|j: int| 0 <= j < k ==> !seen@[j],
            decreases n - k,
        {
            seen.push(false);
            k += 1;
        }
        let mut i: usize = 0;
        while i < n
            invariant
                i <= n,
                n == self.order@.len(),
                seen@.len() == n,
                forall|j: int| 0 <= j < i ==> (#[trigger] self.order@[j]) < n,
                forall|j: int, l: int| 0 <= j < l < i ==> self.order@[j] != self.order@[l],
                forall|x: int|
                    0 <= x < n ==> (#[trigger] seen@[x] <==> exists|j: int|
                        0 <= j < i && self.order@[j] == x),
            decreases n - i,
        {
            let x = self.order[i];
            if x >= n {
                return false;
            }
            if seen[x] {
                proof {
                    let j = choose|j: int| 0 <= j < i && self.order@[j] == x;
                    assert(self.order@[j] == self.order@[i as int]);
                }
                return false;
            }
            let ghost before = seen@;
            seen.set(x, true);
            proof {
                assert forall|y: int| 0 <= y < n implies (#[trigger] seen@[y] <==> exists|j: int|
                    0 <= j < i + 1 && self.order@[j] == y) by {
                    if y == x {
                        assert(self.order@[i as int] == y);
                    } else {
                        if before[y] {
                            let j = choose|j: int| 0 <= j < i && self.order@[j] == y;
                            assert(0 <= j < i + 1 && self.order@[j] == y);
                        }
                        if exists|j: int| 0 <= j < i + 1 && self.order@[j] == y {
                            let j = choose|j: int| 0 <= j < i + 1 && self.order@[j] == y;
                            assert(j != i);
                            assert(0 <= j < i && self.order@[j] == y);
                        }
                    }
                }
                assert forall|j: int, l: int| 0 <= j < l < i + 1 implies self.order@[j]
                    != self.order@[l] by {
                    if l == i && self.order@[j] == x {
                        assert(0 <= j < i && self.order@[j] == x);
                        assert(before[x as int]);
                    }
                }
            }
            i += 1;
        }
        true
    }
}

} // verus!
