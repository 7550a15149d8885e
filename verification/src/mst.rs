//! A minimum spanning tree over the nodes, built by Prim's algorithm.
//!
//! The weights are given as a square table of unsigned integers. An entry
//! of zero means that the two nodes are not joined by an edge. The entries
//! are only compared with each other, never added, so any encoding of costs
//! that keeps their order will do.

use vstd::prelude::*;

verus! {

/// The weight of the edge from `u` to `x`; zero where there is none.
pub open spec fn weight(costs: Seq<Vec<u64>>, u: int, x: int) -> u64 {
    costs[u]@[x]
}

/// Whether the table has as many columns in every row as it has rows.
pub open spec fn is_square(costs: Seq<Vec<u64>>) -> bool {
    forall|i: int| 0 <= i < costs.len() ==> (#[trigger] costs[i])@.len() == costs.len()
}

/// Whether node `x` is one of the nodes of `tree`.
pub open spec fn joined(tree: Seq<usize>, x: int) -> bool {
    exists|i: int| 0 <= i < tree.len() && #[trigger] tree[i] == x
}

/// Whether no edge that leaves `tree` is lighter than `w`, and no edge of
/// weight `w` that leaves it reaches a node with a lower index than `v`.
pub open spec fn none_lighter(costs: Seq<Vec<u64>>, tree: Seq<usize>, w: u64, v: int) -> bool {
    forall|u: int, x: int|
        #![trigger joined(tree, u), joined(tree, x)]
        joined(tree, u) && 0 <= x < costs.len() && !joined(tree, x) && weight(costs, u, x) > 0
            ==> w <= weight(costs, u, x) && (weight(costs, u, x) == w ==> v <= x)
}

/// Whether no node that joined `tree` before `p` reaches `x` at weight
/// `w`.
pub open spec fn none_earlier(costs: Seq<Vec<u64>>, tree: Seq<usize>, w: u64, p: int, x: int) -> bool {
    forall|i: int, j: int|
        0 <= i < j < tree.len() && #[trigger] tree[j] == p ==> weight(
            costs,
            #[trigger] tree[i] as int,
            x,
        ) != w
}

/// Whether the edge from `p` to node `v` is what Prim's algorithm adds to
/// `tree`: `p` is in the tree and `v` is not, no edge that leaves the tree
/// is lighter, among the nodes that an edge of this weight reaches `v` has
/// the lowest index, and among the tree nodes that reach `v` at this weight
/// `p` joined first.
pub open spec fn is_lightest(costs: Seq<Vec<u64>>, tree: Seq<usize>, p: int, v: int) -> bool {
    &&& joined(tree, p)
    &&& !joined(tree, v)
    &&& weight(costs, p, v) > 0
    &&& none_lighter(costs, tree, weight(costs, p, v), v)
    &&& none_earlier(costs, tree, weight(costs, p, v), p, v)
}

/// Whether node `x` cannot be reached from `tree` over one edge.
pub open spec fn unreachable(costs: Seq<Vec<u64>>, tree: Seq<usize>, x: int) -> bool {
    forall|u: int| joined(tree, u) ==> weight(costs, u, x) == 0
}

/// Whether `order` and `parents` are the run of Prim's algorithm on
/// `costs` from node zero: the nodes joined in this order, each over the
/// lightest edge that left the tree at that moment, and the nodes that never
/// joined cannot be reached from the tree.
pub open spec fn is_prim_run(
    costs: Seq<Vec<u64>>,
    order: Seq<usize>,
    parents: Seq<Option<usize>>,
) -> bool {
    let n = costs.len() as int;
    &&& parents.len() == n
    &&& order.len() <= n
    &&& n > 0 ==> order.len() > 0 && order[0] == 0 && parents[0].is_none()
    &&& forall|i: int| 0 <= i < order.len() ==> (#[trigger] order[i]) < n
    &&& forall|i: int, j: int| 0 <= i < j < order.len() ==> order[i] != order[j]
    &&& forall|k: int|
        1 <= k < order.len() ==> (#[trigger] parents[order[k] as int]).is_some() && is_lightest(
            costs,
            order.subrange(0, k),
            parents[order[k] as int].unwrap() as int,
            order[k] as int,
        )
    &&& forall|x: int|
        0 <= x < n && !joined(order, x) ==> (#[trigger] parents[x]).is_none() && unreachable(
            costs,
            order,
            x,
        )
}

/// A spanning tree: for every node the node through which it joined the
/// tree, and the order in which the nodes joined.
#[derive(Debug)]
pub struct SpanningTree {
    parents: Vec<Option<usize>>,
    order: Vec<usize>,
}

impl SpanningTree {
    /// For every node its parent in the tree; the root and the nodes that
    /// cannot be reached have none.
    pub closed spec fn parents_view(&self) -> Seq<Option<usize>> {
        self.parents@
    }

    /// The nodes of the tree in the order in which they joined it.
    pub closed spec fn order_view(&self) -> Seq<usize> {
        self.order@
    }

    /// Number of nodes of the graph.
    pub fn len(&self) -> (n: usize)
        ensures
            n == self.parents_view().len(),
    {
        self.parents.len()
    }

    /// The parent of `node`, or nothing for the root, for a node that
    /// cannot be reached, and for an index that names no node.
    pub fn parent(&self, node: usize) -> (p: Option<usize>)
        ensures
            node < self.parents_view().len() ==> p == self.parents_view()[node as int],
            node >= self.parents_view().len() ==> p.is_none(),
    {
        if node < self.parents.len() {
            self.parents[node]
        } else {
            None
        }
    }

    /// The nodes of the tree in the order in which they joined it.
    pub fn order(&self) -> (o: &Vec<usize>)
        ensures
            o@ == self.order_view(),
    {
        &self.order
    }
}

/// What is known of a node outside the tree while the algorithm runs: its
/// key is the weight of the lightest edge from the tree to it, and its
/// tentative parent is the tree node that joined first among those at the
/// other end of such an edge.
pub open spec fn frontier_ok(
    costs: Seq<Vec<u64>>,
    tree: Seq<usize>,
    key: u64,
    parent: Option<usize>,
    x: int,
) -> bool {
    if key == 0 {
        parent.is_none() && unreachable(costs, tree, x)
    } else {
        &&& parent.is_some()
        &&& joined(tree, parent.unwrap() as int)
        &&& weight(costs, parent.unwrap() as int, x) == key
        &&& forall|u: int|
            joined(tree, u) && weight(costs, u, x) > 0 ==> key <= weight(costs, u, x)
        &&& none_earlier(costs, tree, key, parent.unwrap() as int, x)
    }
}

/// The nodes of a tree that has grown by one node are the nodes that it
/// had and the new one.
pub proof fn lemma_joined_push(tree: Seq<usize>, b: usize, x: int)
    ensures
        joined(tree.push(b), x) <==> (joined(tree, x) || b == x),
{
    let t = tree.push(b);
    if joined(t, x) {
        let i = choose|i: int| 0 <= i < t.len() && #[trigger] t[i] == x;
        if i < tree.len() {
            assert(tree[i] == x);
        }
    }
    if joined(tree, x) {
        let i = choose|i: int| 0 <= i < tree.len() && #[trigger] tree[i] == x;
        assert(t[i] == x);
    }
    if b == x {
        assert(t[tree.len() as int] == x);
    }
}

/// The first keys: what the root alone reaches.
fn first_keys(costs: &Vec<Vec<u64>>) -> (r: (Vec<u64>, Vec<Option<usize>>))
    requires
        is_square(costs@),
        costs@.len() > 0,
    ensures
        r.0@.len() == costs@.len(),
        r.1@.len() == costs@.len(),
        r.1@[0].is_none(),
        forall|x: int|
            1 <= x < costs@.len() ==> frontier_ok(costs@, seq![0usize], #[trigger] r.0@[x], r.1@[x], x),
{
    let n = costs.len();
    let mut key: Vec<u64> = Vec::new();
    let mut parents: Vec<Option<usize>> = Vec::new();
    key.push(0);
    parents.push(None);
    let ghost tree = seq![0usize];
    let mut x: usize = 1;
    while x < n
        invariant
            1 <= x <= n,
            n == costs@.len(),
            is_square(costs@),
            tree == seq![0usize],
            key@.len() == x,
            parents@.len() == x,
            parents@[0].is_none(),
            forall|y: int| 1 <= y < x ==> frontier_ok(costs@, tree, #[trigger] key@[y], parents@[y], y),
        decreases n - x,
    {
        assert(costs@[0]@.len() == n);
        let w = costs[0][x];
        key.push(w);
        if w > 0 {
            parents.push(Some(0));
        } else {
            parents.push(None);
        }
        proof {
            assert(tree[0] == 0);
            assert(joined(tree, 0));
            assert forall|u: int| joined(tree, u) implies u == 0 by {
                let i = choose|i: int| 0 <= i < tree.len() && #[trigger] tree[i] == u;
            }
            assert(frontier_ok(costs@, tree, key@[x as int], parents@[x as int], x as int));
        }
        x += 1;
    }
    (key, parents)
}

/// Finds the node outside the tree with the smallest key that is not zero,
/// the one with the lowest index among several; the number of nodes where
/// there is none.
fn pick_lightest(key: &Vec<u64>, in_tree: &Vec<bool>) -> (best: usize)
    requires
        key@.len() == in_tree@.len(),
    ensures
        best <= key@.len(),
        best == key@.len() ==> forall|x: int|
            0 <= x < key@.len() && !in_tree@[x] ==> #[trigger] key@[x] == 0,
        best < key@.len() ==> !in_tree@[best as int] && key@[best as int] > 0 && forall|x: int|
            0 <= x < key@.len() && !in_tree@[x] && #[trigger] key@[x] > 0 ==> key@[best as int]
                <= key@[x] && (key@[x] == key@[best as int] ==> best <= x),
{
    let n = key.len();
    let mut best: usize = n;
    let mut x: usize = 0;
    while x < n
        invariant
            x <= n,
            n == key@.len(),
            n == in_tree@.len(),
            best <= n,
            best < n ==> best < x,
            best == n ==> forall|y: int| 0 <= y < x && !in_tree@[y] ==> #[trigger] key@[y] == 0,
            best < n ==> !in_tree@[best as int] && key@[best as int] > 0 && forall|y: int|
                0 <= y < x && !in_tree@[y] && #[trigger] key@[y] > 0 ==> key@[best as int]
                    <= key@[y] && (key@[y] == key@[best as int] ==> best <= y),
        decreases n - x,
    {
        if !in_tree[x] && key[x] > 0 && (best == n || key[x] < key[best]) {
            best = x;
        }
        x += 1;
    }
    best
}

/// Lowers the keys of the nodes outside the tree that `v`, which has just
/// joined, reaches over a lighter edge than the tree did before.
fn relax(
    costs: &Vec<Vec<u64>>,
    v: usize,
    in_tree: &Vec<bool>,
    key: &mut Vec<u64>,
    parents: &mut Vec<Option<usize>>,
)
    requires
        is_square(costs@),
        v < costs@.len(),
        in_tree@.len() == costs@.len(),
        old(key)@.len() == costs@.len(),
        old(parents)@.len() == costs@.len(),
    ensures
        final(key)@.len() == costs@.len(),
        final(parents)@.len() == costs@.len(),
        forall|x: int|
            0 <= x < costs@.len() ==> (#[trigger] final(key)@[x], final(parents)@[x]) == (if lowers(
                costs@,
                v as int,
                in_tree@[x],
                old(key)@[x],
                x,
            ) {
                (weight(costs@, v as int, x), Some(v))
            } else {
                (old(key)@[x], old(parents)@[x])
            }),
{
    let n = costs.len();
    let mut x: usize = 0;
    while x < n
        invariant
            x <= n,
            n == costs@.len(),
            is_square(costs@),
            v < n,
            in_tree@.len() == n,
            key@.len() == n,
            parents@.len() == n,
            forall|y: int|
                0 <= y < n ==> (#[trigger] key@[y], parents@[y]) == (if y < x && lowers(
                    costs@,
                    v as int,
                    in_tree@[y],
                    old(key)@[y],
                    y,
                ) {
                    (weight(costs@, v as int, y), Some(v))
                } else {
                    (old(key)@[y], old(parents)@[y])
                }),
        decreases n - x,
    {
        assert(costs@[v as int]@.len() == n);
        if !in_tree[x] {
            let w = costs[v][x];
            if w > 0 && (key[x] == 0 || w < key[x]) {
                key.set(x, w);
                parents.set(x, Some(v));
            }
        }
        x += 1;
    }
}

/// Whether the edge from `v` to `x` is lighter than every edge by which
/// the tree reached `x` before `v` joined.
pub open spec fn lowers(costs: Seq<Vec<u64>>, v: int, inside: bool, key: u64, x: int) -> bool {
    !inside && weight(costs, v, x) > 0 && (key == 0 || weight(costs, v, x) < key)
}

/// What holds between two rounds of the algorithm: the nodes of `order`
/// form the tree, each of them but the root joined over the lightest edge
/// that left the tree before it, and of every other node the lightest edge
/// from the tree to it is known.
pub open spec fn prim_state(
    costs: Seq<Vec<u64>>,
    order: Seq<usize>,
    in_tree: Seq<bool>,
    key: Seq<u64>,
    parents: Seq<Option<usize>>,
) -> bool {
    let n = costs.len() as int;
    &&& in_tree.len() == n
    &&& key.len() == n
    &&& parents.len() == n
    &&& 0 < order.len() <= n
    &&& order[0] == 0
    &&& parents[0].is_none()
    &&& forall|i: int| 0 <= i < order.len() ==> (#[trigger] order[i]) < n
    &&& forall|i: int, j: int| 0 <= i < j < order.len() ==> order[i] != order[j]
    &&& forall|x: int| 0 <= x < n ==> (#[trigger] in_tree[x] <==> joined(order, x))
    &&& forall|k: int|
        1 <= k < order.len() ==> (#[trigger] parents[order[k] as int]).is_some() && is_lightest(
            costs,
            order.subrange(0, k),
            parents[order[k] as int].unwrap() as int,
            order[k] as int,
        )
    &&& forall|x: int|
        0 <= x < n && !in_tree[x] ==> frontier_ok(costs, order, #[trigger] key[x], parents[x], x)
}

/// The node with the smallest key joins over the lightest edge that leaves
/// the tree.
proof fn lemma_pick(
    costs: Seq<Vec<u64>>,
    order: Seq<usize>,
    in_tree: Seq<bool>,
    key: Seq<u64>,
    parents: Seq<Option<usize>>,
    best: int,
)
    requires
        prim_state(costs, order, in_tree, key, parents),
        0 <= best < costs.len(),
        !in_tree[best],
        key[best] > 0,
        forall|x: int|
            0 <= x < key.len() && !in_tree[x] && #[trigger] key[x] > 0 ==> key[best] <= key[x] && (
            key[x] == key[best] ==> best <= x),
    ensures
        parents[best].is_some(),
        is_lightest(costs, order, parents[best].unwrap() as int, best),
{
    assert(frontier_ok(costs, order, key[best], parents[best], best));
    let w = key[best];
    assert forall|u: int, x: int|
        #![trigger joined(order, u), joined(order, x)]
        joined(order, u) && 0 <= x < costs.len() && !joined(order, x) && weight(costs, u, x)
            > 0 implies w <= weight(costs, u, x) && (weight(costs, u, x) == w ==> best <= x) by {
        assert(!in_tree[x]);
        assert(frontier_ok(costs, order, key[x], parents[x], x));
    }
}

/// After the keys have been lowered for the node that joined, they are
/// the keys of the grown tree.
proof fn lemma_relaxed(
    costs: Seq<Vec<u64>>,
    order: Seq<usize>,
    best: usize,
    key: u64,
    parent: Option<usize>,
    x: int,
)
    requires
        !joined(order, best as int),
        !joined(order, x),
        x != best,
        frontier_ok(costs, order, key, parent, x),
    ensures
        frontier_ok(
            costs,
            order.push(best),
            if lowers(costs, best as int, false, key, x) {
                weight(costs, best as int, x)
            } else {
                key
            },
            if lowers(costs, best as int, false, key, x) {
                Some(best)
            } else {
                parent
            },
            x,
        ),
{
    let grown = order.push(best);
    let w = weight(costs, best as int, x);
    assert forall|u: int| joined(grown, u) implies joined(order, u) || u == best by {
        lemma_joined_push(order, best, u);
    }
    lemma_joined_push(order, best, best as int);
    if lowers(costs, best as int, false, key, x) {
        assert forall|i: int, j: int|
            0 <= i < j < grown.len() && #[trigger] grown[j] == best implies weight(
            costs,
            #[trigger] grown[i] as int,
            x,
        ) != w by {
            if j < order.len() {
                assert(order[j] == best);
            } else {
                assert(grown[i] == order[i]);
                assert(joined(order, order[i] as int));
            }
        }
    } else {
        if key == 0 {
        } else {
            let p = parent.unwrap();
            lemma_joined_push(order, best, p as int);
            assert forall|i: int, j: int|
                0 <= i < j < grown.len() && #[trigger] grown[j] == p implies weight(
                costs,
                #[trigger] grown[i] as int,
                x,
            ) != key by {
                if j < order.len() {
                    assert(order[j] == p);
                    assert(grown[i] == order[i]);
                }
            }
        }
    }
}

/// One round of the algorithm keeps what holds between the rounds.
proof fn lemma_round(
    costs: Seq<Vec<u64>>,
    order: Seq<usize>,
    in_tree: Seq<bool>,
    key: Seq<u64>,
    parents: Seq<Option<usize>>,
    best: usize,
    key2: Seq<u64>,
    parents2: Seq<Option<usize>>,
)
    requires
        prim_state(costs, order, in_tree, key, parents),
        best < costs.len(),
        !in_tree[best as int],
        parents[best as int].is_some(),
        is_lightest(costs, order, parents[best as int].unwrap() as int, best as int),
        key2.len() == costs.len(),
        parents2.len() == costs.len(),
        forall|x: int|
            0 <= x < costs.len() ==> (#[trigger] key2[x], parents2[x]) == (if lowers(
                costs,
                best as int,
                in_tree.update(best as int, true)[x],
                key[x],
                x,
            ) {
                (weight(costs, best as int, x), Some(best))
            } else {
                (key[x], parents[x])
            }),
    ensures
        order.len() < costs.len(),
        prim_state(costs, order.push(best), in_tree.update(best as int, true), key2, parents2),
{
    let n = costs.len() as int;
    let grown = order.push(best);
    let inside = in_tree.update(best as int, true);
    assert(order.len() < n) by {
        lemma_tree_size(order, n, best);
    }
    assert forall|x: int| 0 <= x < n implies (#[trigger] inside[x] <==> joined(grown, x)) by {
        lemma_joined_push(order, best, x);
        assert(in_tree[x] <==> joined(order, x));
    }
    assert forall|i: int, j: int| 0 <= i < j < grown.len() implies grown[i] != grown[j] by {
        if j == order.len() {
            assert(grown[i] == order[i]);
            assert(joined(order, order[i] as int));
        }
    }
    assert((key2[0], parents2[0]) == (key[0], parents[0])) by {
        assert(joined(order, 0)) by {
            assert(order[0] == 0);
        }
        assert(in_tree[0]);
    }
    assert forall|k: int| 1 <= k < grown.len() implies (#[trigger] parents2[grown[k] as int]).is_some()
        && is_lightest(
        costs,
        grown.subrange(0, k),
        parents2[grown[k] as int].unwrap() as int,
        grown[k] as int,
    ) by {
        let v = grown[k] as int;
        assert(inside[v]) by {
            lemma_joined_push(order, best, v);
            if k < order.len() {
                assert(order[k] == v);
            }
        }
        assert((key2[v], parents2[v]) == (key[v], parents[v]));
        if k < order.len() {
            assert(grown.subrange(0, k) =~= order.subrange(0, k));
            assert(parents[order[k] as int].is_some());
        } else {
            assert(grown.subrange(0, k) =~= order);
        }
    }
    assert forall|x: int| 0 <= x < n && !inside[x] implies frontier_ok(
        costs,
        grown,
        #[trigger] key2[x],
        parents2[x],
        x,
    ) by {
        assert(!in_tree[x]);
        assert(frontier_ok(costs, order, key[x], parents[x], x));
        lemma_relaxed(costs, order, best, key[x], parents[x], x);
        assert((key2[x], parents2[x]) == (if lowers(costs, best as int, false, key[x], x) {
            (weight(costs, best as int, x), Some(best))
        } else {
            (key[x], parents[x])
        }));
    }
}

/// A tree of different nodes below `n` that leaves a node below `n` out
/// has fewer than `n` nodes.
proof fn lemma_tree_size(order: Seq<usize>, n: int, out: usize)
    requires
        forall|i: int| 0 <= i < order.len() ==> (#[trigger] order[i]) < n,
        forall|i: int, j: int| 0 <= i < j < order.len() ==> order[i] != order[j],
        out < n,
        !joined(order, out as int),
    ensures
        order.len() < n,
{
    // The nodes of the tree and the node left out are different nodes below `n`.
    let bigger = order.push(out);
    assert(bigger.no_duplicates()) by {
        assert forall|i: int, j: int| 0 <= i < j < bigger.len() implies bigger[i] != bigger[j] by {
            if j == order.len() {
                assert(bigger[i] == order[i]);
                assert(joined(order, order[i] as int));
            }
        }
    }
    let ints = Seq::new(bigger.len(), |i: int| bigger[i] as int);
    assert(ints.no_duplicates());
    ints.unique_seq_to_set();
    vstd::set_lib::lemma_int_range(0, n);
    assert(ints.to_set().subset_of(vstd::set_lib::set_int_range(0, n))) by {
        assert forall|x: int| ints.to_set().contains(x) implies vstd::set_lib::set_int_range(
            0,
            n,
        ).contains(x) by {
            let i = choose|i: int| 0 <= i < ints.len() && ints[i] == x;
            if i < order.len() {
                assert(bigger[i] == order[i]);
            }
        }
    }
    vstd::set_lib::lemma_len_subset(ints.to_set(), vstd::set_lib::set_int_range(0, n));
}

/// Builds a minimum spanning tree of the graph that `costs` describes, by
/// Prim's algorithm from node zero.
///
/// In every round the lightest edge that leaves the tree is added; among
/// several the one to the node with the lowest index, and among several
/// edges to that node the one from the node that joined the tree first.
/// Nodes that no path joins to node zero stay outside the tree.
pub fn build_mst(costs: &Vec<Vec<u64>>) -> (t: SpanningTree)
    requires
        is_square(costs@),
    ensures
        is_prim_run(costs@, t.order_view(), t.parents_view()),
{
    let n = costs.len();
    if n == 0 {
        return SpanningTree { parents: Vec::new(), order: Vec::new() };
    }
    let (mut key, mut parents) = first_keys(costs);
    let mut in_tree: Vec<bool> = Vec::new();
    let mut i: usize = 0;
    while i < n
        invariant
            i <= n,
            in_tree@.len() == i,
            forall|x: int| 0 <= x < i ==> #[trigger] in_tree@[x] == (x == 0),
        decreases n - i,
    {
        in_tree.push(i == 0);
        i += 1;
    }
    let mut order: Vec<usize> = Vec::new();
    order.push(0);
    proof {
        assert(order@ =~= seq![0usize]);
        assert forall|x: int| 0 <= x < n implies (#[trigger] in_tree@[x] <==> joined(order@, x)) by {
            if x == 0 {
                assert(order@[0] == 0);
            }
            if joined(order@, x) {
                let j = choose|j: int| 0 <= j < order@.len() && #[trigger] order@[j] == x;
            }
        }
    }
    loop
        invariant
            n == costs@.len(),
            n > 0,
            is_square(costs@),
            prim_state(costs@, order@, in_tree@, key@, parents@),
        ensures
            is_prim_run(costs@, order@, parents@),
        decreases n - order@.len(),
    {
        let best = pick_lightest(&key, &in_tree);
        if best == n {
            proof {
                assert forall|x: int| 0 <= x < n && !joined(order@, x) implies (#[trigger] parents@[x]).is_none()
                    && unreachable(costs@, order@, x) by {
                    assert(!in_tree@[x]);
                    assert(key@[x] == 0);
                    assert(frontier_ok(costs@, order@, key@[x], parents@[x], x));
                }
            }
            break ;
        }
        proof {
            lemma_pick(costs@, order@, in_tree@, key@, parents@, best as int);
        }
        let ghost before_key = key@;
        let ghost before_parents = parents@;
        let ghost before_tree = in_tree@;
        in_tree.set(best, true);
        relax(costs, best, &in_tree, &mut key, &mut parents);
        proof {
            lemma_round(
                costs@,
                order@,
                before_tree,
                before_key,
                before_parents,
                best,
                key@,
                parents@,
            );
        }
        order.push(best);
    }
    SpanningTree { parents, order }
}

} // verus!
