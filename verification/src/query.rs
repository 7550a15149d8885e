//! Neighbour, relation and betweenness queries.

use vstd::prelude::*;
use crate::cyclic::{between, between_down};
use crate::tree::TwoLevelTree;
use crate::vertex::{NodeRel, TltVertex};

verus! {

impl TwoLevelTree {
    /// Whether the record `node`, which need not be one of this tree, names
    /// a segment of this tree and has a link to one of its nodes: forwards
    /// where `ahead` is set, backwards otherwise.
    pub open spec fn leads(&self, node: TltVertex, ahead: bool) -> bool {
        &&& node.parent < self.parents_view().len()
        &&& (if ahead {
            node.fwd(self.parents_view()[node.parent as int].reverse)
        } else {
            node.bwd(self.parents_view()[node.parent as int].reverse)
        }) < self.spec_len()
    }

    /// The vertex that follows `node` on the tour. There is none while
    /// `node` is detached.
    pub fn successor(&self, node: &TltVertex) -> (r: Option<&TltVertex>)
        requires
            self.wf(),
        ensures
            self.is_attached() && self.owns(*node) ==> r == Some(
                &self.vertices_view()[self.succ(node.index as int) as int],
            ) && self.succ(node.index as int) < self.spec_len(),
            node.is_detached() ==> r.is_none(),
            r.is_some() <==> self.leads(*node, true),
            r.is_some() ==> r.unwrap() == self.vertices_view()[node.fwd(
                self.parents_view()[node.parent as int].reverse,
            ) as int],
    {
        proof {
            if self.is_attached() && self.owns(*node) {
                assert(self.vertex_ok(node.index as int));
            }
        }
        if node.parent >= self.parents.len() {
            return None;
        }
        let kin = if self.parents[node.parent].reverse {
            node.prev
        } else {
            node.next
        };
        if kin < self.vertices.len() {
            Some(&self.vertices[kin])
        } else {
            None
        }
    }

    /// The vertex that precedes `node` on the tour. There is none while
    /// `node` is detached.
    pub fn predecessor(&self, node: &TltVertex) -> (r: Option<&TltVertex>)
        requires
            self.wf(),
        ensures
            self.is_attached() && self.owns(*node) ==> r == Some(
                &self.vertices_view()[self.pred(node.index as int) as int],
            ) && self.pred(node.index as int) < self.spec_len(),
            node.is_detached() ==> r.is_none(),
            r.is_some() <==> self.leads(*node, false),
            r.is_some() ==> r.unwrap() == self.vertices_view()[node.bwd(
                self.parents_view()[node.parent as int].reverse,
            ) as int],
    {
        proof {
            if self.is_attached() && self.owns(*node) {
                assert(self.vertex_ok(node.index as int));
            }
        }
        if node.parent >= self.parents.len() {
            return None;
        }
        let kin = if self.parents[node.parent].reverse {
            node.next
        } else {
            node.prev
        };
        if kin < self.vertices.len() {
            Some(&self.vertices[kin])
        } else {
            None
        }
    }

    /// The vertex that follows node `node_idx` on the tour. There is none
    /// where the index names no node or no tour is loaded.
    pub fn next_at(&self, node_idx: usize) -> (r: Option<&TltVertex>)
        requires
            self.wf(),
        ensures
            self.is_attached() && node_idx < self.spec_len() ==> r == Some(
                &self.vertices_view()[self.succ(node_idx as int) as int],
            ) && self.succ(node_idx as int) < self.spec_len(),
            !self.is_attached() || node_idx >= self.spec_len() ==> r.is_none(),
    {
        if node_idx < self.vertices.len() {
            self.successor(&self.vertices[node_idx])
        } else {
            None
        }
    }

    /// The vertex that precedes node `node_idx` on the tour. There is none
    /// where the index names no node or no tour is loaded.
    pub fn prev_at(&self, node_idx: usize) -> (r: Option<&TltVertex>)
        requires
            self.wf(),
        ensures
            self.is_attached() && node_idx < self.spec_len() ==> r == Some(
                &self.vertices_view()[self.pred(node_idx as int) as int],
            ) && self.pred(node_idx as int) < self.spec_len(),
            !self.is_attached() || node_idx >= self.spec_len() ==> r.is_none(),
    {
        if node_idx < self.vertices.len() {
            self.predecessor(&self.vertices[node_idx])
        } else {
            None
        }
    }

    /// What `targ` is to `base`: its successor where `targ` follows `base`
    /// directly, its predecessor where `targ` precedes `base` directly, and
    /// neither otherwise. On a tour of two nodes each is the other's
    /// successor.
    pub fn relation(&self, base: &TltVertex, targ: &TltVertex) -> (r: NodeRel)
        requires
            self.wf(),
        ensures
            self.is_attached() && self.owns(*base) && self.owns(*targ) ==> r == (if self.succ(
                base.index as int,
            ) == targ.index {
                NodeRel::Successor
            } else if self.pred(base.index as int) == targ.index {
                NodeRel::Predecessor
            } else {
                NodeRel::Neither
            }),
            base.parent >= self.parents_view().len() ==> r == NodeRel::Neither,
    {
        proof {
            if self.is_attached() && self.owns(*base) {
                assert(self.vertex_ok(base.index as int));
            }
        }
        match self.successor(base) {
            Some(s) => {
                if *s == *targ {
                    return NodeRel::Successor;
                }
            },
            None => {},
        }
        match self.predecessor(base) {
            Some(p) => {
                if *p == *targ {
                    return NodeRel::Predecessor;
                }
            },
            None => {},
        }
        NodeRel::Neither
    }

    /// Whether a walk along the tour that starts at `from` meets `mid`
    /// strictly before `to`. The answer is `false` where one of the records
    /// names no segment of this tree, as a detached vertex does.
    ///
    /// Three vertices of one segment are compared by their sequence
    /// numbers, read backwards where the segment is reversed. Where exactly
    /// two share a segment, the order of those two decides. Three vertices
    /// of three segments are compared by the places of their segments in
    /// the ring. Segments are named by index, so "same segment" is an
    /// equality of integers and cannot fail to be transitive.
    pub fn between(&self, from: &TltVertex, mid: &TltVertex, to: &TltVertex) -> (r: bool)
        requires
            self.wf(),
        ensures
            self.is_attached() && self.owns(*from) && self.owns(*mid) && self.owns(*to) ==> r
                == self.is_between(from.index as int, mid.index as int, to.index as int),
            from.parent >= self.parents_view().len() || mid.parent >= self.parents_view().len()
                || to.parent >= self.parents_view().len() ==> !r,
    {
        let m = self.parents.len();
        let (fp, mp, tp) = (from.parent, mid.parent, to.parent);
        proof {
            if self.is_attached() && self.owns(*from) && self.owns(*mid) && self.owns(*to) {
                assert(self.vertex_ok(from.index as int));
                assert(self.vertex_ok(mid.index as int));
                assert(self.vertex_ok(to.index as int));
            }
        }
        if fp >= m || mp >= m || tp >= m {
            return false;
        }
        proof {
            if self.is_attached() && self.owns(*from) && self.owns(*mid) && self.owns(*to) {
                assert(self.parent_ok(fp as int));
                assert(self.parent_ok(mp as int));
                assert(self.parent_ok(tp as int));
                if fp != mp {
                    self.lemma_apart(fp as int, mp as int);
                }
                if mp != tp {
                    self.lemma_apart(mp as int, tp as int);
                }
                if tp != fp {
                    self.lemma_apart(tp as int, fp as int);
                }
            }
        }
        if fp == mp && mp == tp {
            if self.parents[fp].reverse {
                between_down(from.seq_id, mid.seq_id, to.seq_id)
            } else {
                between(from.seq_id, mid.seq_id, to.seq_id)
            }
        } else if fp == mp {
            if self.parents[fp].reverse {
                mid.seq_id <= from.seq_id
            } else {
                from.seq_id <= mid.seq_id
            }
        } else if mp == tp {
            if self.parents[mp].reverse {
                to.seq_id < mid.seq_id
            } else {
                mid.seq_id < to.seq_id
            }
        } else if tp == fp {
            if self.parents[tp].reverse {
                from.seq_id < to.seq_id
            } else {
                to.seq_id < from.seq_id
            }
        } else {
            between(self.parents[fp].id, self.parents[mp].id, self.parents[tp].id)
        }
    }

    /// Whether a walk along the tour that starts at node `from_idx` meets
    /// node `mid_idx` strictly before node `to_idx`. There is no answer where
    /// an index names no node; the answer is `false` while no tour is
    /// loaded.
    pub fn between_at(&self, from_idx: usize, mid_idx: usize, to_idx: usize) -> (r: Option<bool>)
        requires
            self.wf(),
        ensures
            from_idx >= self.spec_len() || mid_idx >= self.spec_len() || to_idx >= self.spec_len()
                ==> r.is_none(),
            from_idx < self.spec_len() && mid_idx < self.spec_len() && to_idx < self.spec_len()
                ==> r == Some(
                self.is_attached() && self.is_between(
                    from_idx as int,
                    mid_idx as int,
                    to_idx as int,
                ),
            ),
    {
        let n = self.vertices.len();
        let m = self.parents.len();
        if from_idx < n && mid_idx < n && to_idx < n {
            proof {
                if !self.is_attached() {
                    assert(self.vertices@[from_idx as int].parent >= m);
                }
            }
            Some(
                self.between(
                    &self.vertices[from_idx],
                    &self.vertices[mid_idx],
                    &self.vertices[to_idx],
                ),
            )
        } else {
            None
        }
    }

    /// Clears the traversal mark of every vertex.
    pub fn reset(&mut self)
        requires
            old(self).wf(),
        ensures
            final(self).wf(),
            final(self).same_tour(*old(self)),
            final(self).parents_view() == old(self).parents_view(),
            forall|v: int|
                0 <= v < old(self).spec_len() ==> (#[trigger] final(self).vertices_view()[v])
                    == (TltVertex { visited: false, ..old(self).vertices_view()[v] }),
    {
        let n = self.vertices.len();
        let mut i: usize = 0;
        while i < n
            invariant
                i <= n,
                n == old(self).vertices@.len(),
                self.vertices@.len() == n,
                self.parents == old(self).parents,
                self.listing == old(self).listing,
                self.rank == old(self).rank,
                self.ring == old(self).ring,
                self.base == old(self).base,
                self.attached == old(self).attached,
                forall|v: int|
                    0 <= v < i ==> (#[trigger] self.vertices@[v]) == (TltVertex {
                        visited: false,
                        ..old(self).vertices@[v]
                    }),
                forall|v: int| i <= v < n ==> (#[trigger] self.vertices@[v]) == old(self).vertices@[v],
            decreases n - i,
        {
            self.vertices[i].visited(false);
            i += 1;
        }
        proof {
            self.lemma_marks_only(*old(self));
        }
    }

    /// Sets or clears the traversal mark of node `kin_index`.
    pub fn visited_at(&mut self, kin_index: usize, flag: bool)
        requires
            old(self).wf(),
            kin_index < old(self).spec_len(),
        ensures
            final(self).wf(),
            final(self).same_tour(*old(self)),
            final(self).parents_view() == old(self).parents_view(),
            final(self).vertices_view() == old(self).vertices_view().update(
                kin_index as int,
                TltVertex { visited: flag, ..old(self).vertices_view()[kin_index as int] },
            ),
    {
        self.vertices[kin_index].visited(flag);
        proof {
            self.lemma_marks_only(*old(self));
        }
    }

    /// A tree that differs from a well-formed one in traversal marks alone
    /// is well-formed.
    pub(crate) proof fn lemma_marks_only(&self, pre: TwoLevelTree)
        requires
            pre.wf(),
            self.parents == pre.parents,
            self.listing == pre.listing,
            self.rank == pre.rank,
            self.ring == pre.ring,
            self.base == pre.base,
            self.attached == pre.attached,
            self.vertices@.len() == pre.vertices@.len(),
            forall|v: int|
                0 <= v < pre.vertices@.len() ==> (#[trigger] self.vertices@[v]) == (TltVertex {
                    visited: self.vertices@[v].visited,
                    ..pre.vertices@[v]
                }),
        ensures
            self.wf(),
            self.same_tour(pre),
    {
        if self.attached {
            assert forall|s: int| 0 <= s < self.m() implies #[trigger] self.parent_ok(s) by {
                assert(pre.parent_ok(s));
            }
            assert forall|s: int| 0 <= s < self.m() implies #[trigger] self.link_ok(s) by {
                assert(pre.link_ok(s));
            }
            assert forall|v: int| 0 <= v < self.n() implies #[trigger] self.vertex_ok(v) by {
                assert(pre.vertex_ok(v));
            }
        }
        assert forall|v: int| 0 <= v < self.n() implies (#[trigger] self.vertices@[v]).index
            == v by {
            assert(pre.vertices@[v].index == v);
        }
    }

    /// In ring order, every segment before the first one that has members
    /// begins at the beginning of the listing, and so does that one.
    proof fn lemma_leading_empty(&self, k: int)
        requires
            self.attached_ok(),
            0 <= k < self.m(),
            forall|j: int| 0 <= j < k ==> self.parents@[#[trigger] self.ring@[j] as int].size == 0,
        ensures
            self.base@[self.ring@[k] as int] == 0,
        decreases k,
    {
        let s = self.ring@[k] as int;
        assert(self.parent_ok(s));
        if k > 0 {
            self.lemma_leading_empty(k - 1);
            let q = self.ring@[k - 1] as int;
            assert(self.parents@[q].size == 0);
        }
    }

    /// The node with which the listing begins. The tree must have a node.
    fn first_node(&self) -> (v: usize)
        requires
            self.wf(),
            self.attached,
            self.n() > 0,
        ensures
            v == self.listing@[0],
            v < self.n(),
    {
        let m = self.parents.len();
        let mut s: usize = 0;
        while self.parents[s].id != 0
            invariant
                s < m,
                m == self.m(),
                self.wf(),
                self.attached,
                self.ring@[0] >= s,
            decreases m - s,
        {
            proof {
                assert(self.ring@[0] < m);
                assert(self.parents@[self.ring@[0] as int].id == 0);
            }
            s += 1;
        }
        proof {
            assert(self.parents@[s as int].id < m);
            assert(self.ring@[self.parents@[s as int].id as int] == s);
        }
        let mut k: usize = 0;
        while self.parents[s].size == 0
            invariant
                k < m,
                s < m,
                m == self.m(),
                self.wf(),
                self.attached,
                self.n() > 0,
                s == self.ring@[k as int],
                forall|j: int|
                    0 <= j < k ==> self.parents@[#[trigger] self.ring@[j] as int].size == 0,
            decreases m - k,
        {
            proof {
                assert(self.link_ok(s as int));
                assert(self.parents@[s as int].id == k);
                if k + 1 == m {
                    self.lemma_leading_empty(k as int);
                    assert(self.parent_ok(s as int));
                }
                assert(self.ring@[k + 1] < m);
            }
            s = self.parents[s].next;
            k += 1;
        }
        proof {
            self.lemma_leading_empty(k as int);
            assert(self.parent_ok(s as int));
            assert(self.listing@[0] < self.n());
        }
        self.parents[s].head()
    }

    /// The tour written out as the sequence of its nodes: the listing of
    /// the tree. The order is empty while no tour is loaded.
    pub fn to_order(&self) -> (order: Vec<usize>)
        requires
            self.wf(),
        ensures
            self.is_attached() ==> order@ == self@,
            !self.is_attached() ==> order@.len() == 0,
    {
        let mut out: Vec<usize> = Vec::new();
        let n = self.vertices.len();
        if !self.attached || n == 0 {
            proof {
                if self.attached {
                    assert(self.listing@ =~= out@);
                }
            }
            return out;
        }
        let mut cur = self.first_node();
        let mut t: usize = 0;
        while t < n
            invariant
                t <= n,
                n == self.n(),
                n > 0,
                self.wf(),
                self.attached,
                out@.len() == t,
                forall|i: int| 0 <= i < t ==> out@[i] == self.listing@[i],
                t < n ==> cur == self.listing@[t as int],
                cur < n,
            decreases n - t,
        {
            out.push(cur);
            proof {
                assert(self.vertex_ok(cur as int));
                assert(self.rank@[self.listing@[t as int] as int] == t);
                if t + 1 < n {
                    assert(self.listing@[t + 1] < n);
                } else {
                    assert(self.listing@[0] < n);
                }
            }
            let v = self.vertices[cur];
            cur = v.forward(self.parents[v.parent].reverse);
            t += 1;
        }
        proof {
            assert(out@ =~= self.listing@);
        }
        out
    }
}

} // verus!
