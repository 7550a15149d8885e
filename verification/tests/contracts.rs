use twolevel::cyclic::{between, between_down};
use twolevel::order::TourOrder;
use twolevel::parent::ParentVertex;
use twolevel::tree::TwoLevelTree;
use twolevel::vertex::{NodeRel, TltVertex, DETACHED};

fn natural(n: usize, group: usize) -> TwoLevelTree {
    let mut tree = TwoLevelTree::new(n, group);
    tree.apply(&TourOrder::with_nat_ord(n));
    tree
}

fn span(lo: usize, hi: usize) -> Vec<usize> {
    (lo..hi).collect()
}

fn back(lo: usize, hi: usize) -> Vec<usize> {
    (lo..hi).rev().collect()
}

#[test]
fn between_on_places_is_strict_towards_the_end() {
    // The walk begins at its start and meets it first of all.
    assert!(between(2, 2, 5));
    // Nothing is met strictly before itself, and nothing before the start.
    assert!(!between(2, 5, 5));
    assert!(!between(2, 2, 2));
    assert!(!between(2, 3, 2));
    assert!(between(7, 9, 1));
    assert!(between(7, 0, 1));
    assert!(!between(7, 3, 1));
    assert!(!between(7, 1, 1));
    assert!(between(7, 7, 1));
}

#[test]
fn between_on_places_counted_downwards() {
    // 5 -> 4 -> 3 -> 2 -> 1
    assert!(between_down(4, 3, 1));
    assert!(!between_down(4, 5, 1));
    assert!(between_down(1, 5, 3));
    assert!(!between_down(1, 3, 5));
    assert!(between_down(4, 4, 1));
    assert!(!between_down(4, 1, 1));
    assert!(!between_down(4, 2, 4));
}

#[test]
fn a_fresh_tree_is_not_loaded() {
    let tree = TwoLevelTree::new(5, 2);
    assert!(!tree.is_loaded());
    assert_eq!(5, tree.len());
    assert_eq!(5, tree.size());
    assert_eq!(3, tree.parents().len());
    for (i, v) in tree.vertices().iter().enumerate() {
        assert_eq!(i, v.index());
        assert!(!v.is_visited());
        assert_eq!(DETACHED, v.parent);
        assert_eq!(DETACHED, v.seq_id);
    }
    for (s, p) in tree.parents().iter().enumerate() {
        assert_eq!(s, p.id);
        assert_eq!(0, p.size);
        assert_eq!(2, p.max_size);
        assert!(!p.reverse);
    }
    assert!(tree.next_at(0).is_none());
    assert!(tree.prev_at(0).is_none());
    assert!(tree.successor(tree.get(0).unwrap()).is_none());
    assert!(tree.predecessor(tree.get(0).unwrap()).is_none());
    assert_eq!(Some(false), tree.between_at(0, 1, 2));
    assert_eq!(None, tree.between_at(0, 1, 5));
    assert!(!tree.is_flippable(0, 1, 2, 3));
    assert!(tree.to_order().is_empty());
    assert_eq!(
        NodeRel::Neither,
        tree.relation(tree.get(0).unwrap(), tree.get(1).unwrap())
    );
}

#[test]
fn new_vertices_and_segments_are_detached() {
    let v = TltVertex::new(7);
    assert_eq!(7, v.index());
    assert!(!v.is_visited());
    assert_eq!(DETACHED, v.seq_id);
    assert_eq!(DETACHED, v.prev);
    assert_eq!(DETACHED, v.next);
    assert_eq!(DETACHED, v.parent);

    let p = ParentVertex::new(3, 9);
    assert_eq!(3, p.id);
    assert_eq!(0, p.size);
    assert_eq!(9, p.max_size);
    assert!(!p.reverse);
    assert_eq!(DETACHED, p.first);
    assert_eq!(DETACHED, p.last);
    assert_eq!(DETACHED, p.head());
    assert_eq!(DETACHED, p.tail());
}

#[test]
fn records_compare_by_node_and_mark() {
    let mut a = TltVertex::new(1);
    let mut b = TltVertex::new(1);
    b.next = 5;
    assert!(a == b);
    a.visited(true);
    assert!(a != b);
    assert!(TltVertex::new(1) != TltVertex::new(2));

    let p = ParentVertex::new(1, 4);
    let mut q = ParentVertex::new(1, 4);
    q.reverse = true;
    assert!(p == q);
    q.size = 1;
    assert!(p != q);
}

#[test]
fn lookups_outside_the_nodes_find_nothing() {
    let tree = natural(10, 3);
    assert!(tree.get(10).is_none());
    assert!(tree.next_at(10).is_none());
    assert!(tree.prev_at(10).is_none());
    assert_eq!(None, tree.between_at(0, 1, 10));
    assert_eq!(None, tree.between_at(10, 1, 2));
    assert_eq!(None, tree.between_at(0, 10, 2));
    assert_eq!(None, tree.between_at(10, 11, 12));
    assert_eq!(Some(true), tree.between_at(0, 1, 9));
    assert_eq!(Some(false), tree.between_at(0, 9, 1));
    assert!(tree.get(9).is_some());
}

#[test]
fn apply_deals_the_nodes_out_in_groups() {
    let mut tree = TwoLevelTree::new(9, 3);
    let order = vec![4, 8, 1, 0, 3, 2, 7, 6, 5];
    tree.apply(&TourOrder::new(order.clone()));
    assert!(tree.is_loaded());
    assert_eq!(order, tree.to_order());
    assert_eq!(4, tree.parents().len());
    for (i, &v) in order.iter().enumerate() {
        let rec = tree.get(v).unwrap();
        assert_eq!(i / 3, rec.parent);
        assert_eq!(i % 3, rec.seq_id);
        assert_eq!(order[(i + 1) % 9], rec.next);
        assert_eq!(order[(i + 8) % 9], rec.prev);
        assert!(!rec.is_visited());
    }
    for s in 0..3 {
        let p = &tree.parents()[s];
        assert_eq!(s, p.id);
        assert_eq!(3, p.size);
        assert_eq!(order[3 * s], p.first);
        assert_eq!(order[3 * s + 2], p.last);
        assert_eq!((s + 1) % 4, p.next);
        assert_eq!((s + 3) % 4, p.prev);
        assert!(!p.reverse);
    }
    // The last segment gets no node.
    let p = &tree.parents()[3];
    assert_eq!(0, p.size);
    assert_eq!(DETACHED, p.first);
    assert_eq!(DETACHED, p.last);
}

#[test]
fn apply_clears_marks_and_flags() {
    let mut tree = natural(10, 3);
    tree.visited_at(4, true);
    tree.reverse(1);
    assert!(tree.parents()[1].reverse);
    tree.apply(&TourOrder::with_nat_ord(10));
    assert!(!tree.get(4).unwrap().is_visited());
    assert!(!tree.parents()[1].reverse);
    assert_eq!(span(0, 10), tree.to_order());
}

#[test]
fn tours_of_no_node_and_of_one_node() {
    let mut none = TwoLevelTree::new(0, 3);
    assert_eq!(1, none.parents().len());
    assert!(TourOrder::new(vec![]).is_valid());
    none.apply(&TourOrder::new(vec![]));
    assert!(none.is_loaded());
    assert!(none.to_order().is_empty());
    assert!(none.get(0).is_none());

    let mut one = TwoLevelTree::new(1, 3);
    one.apply(&TourOrder::with_nat_ord(1));
    assert_eq!(vec![0], one.to_order());
    assert_eq!(0, one.next_at(0).unwrap().index());
    assert_eq!(0, one.prev_at(0).unwrap().index());
    assert_eq!(Some(false), one.between_at(0, 0, 0));
    assert_eq!(None, one.between_at(0, 0, 1));
    one.reverse(0);
    assert_eq!(vec![0], one.to_order());
    assert!(!one.is_flippable(0, 0, 0, 0));
}

#[test]
fn on_two_nodes_each_is_the_others_successor() {
    let tree = natural(2, 1);
    let a = tree.get(0).unwrap();
    let b = tree.get(1).unwrap();
    assert_eq!(NodeRel::Successor, tree.relation(a, b));
    assert_eq!(NodeRel::Successor, tree.relation(b, a));
    assert_eq!(NodeRel::Neither, tree.relation(a, a));
}

#[test]
fn relation_names_what_the_second_node_is_to_the_first() {
    let tree = natural(10, 3);
    let v = |i: usize| tree.get(i).unwrap();
    assert_eq!(NodeRel::Successor, tree.relation(v(3), v(4)));
    assert_eq!(NodeRel::Predecessor, tree.relation(v(4), v(3)));
    assert_eq!(NodeRel::Neither, tree.relation(v(3), v(5)));
    assert_eq!(NodeRel::Successor, tree.relation(v(9), v(0)));
    assert_eq!(NodeRel::Predecessor, tree.relation(v(0), v(9)));
    assert_eq!(NodeRel::Neither, tree.relation(&TltVertex::new(3), v(4)));
}

#[test]
fn orders_are_checked() {
    assert!(TourOrder::new(vec![2, 0, 1]).is_valid());
    assert!(TourOrder::with_nat_ord(50).is_valid());
    assert!(!TourOrder::new(vec![0, 1, 1]).is_valid());
    assert!(!TourOrder::new(vec![0, 1, 3]).is_valid());
    assert!(!TourOrder::new(vec![1, 2, 3]).is_valid());
    let order = TourOrder::with_ord(vec![1, 0]);
    assert_eq!(2, order.len());
    assert!(!order.is_empty());
    assert_eq!(&vec![1, 0], order.order());
    assert!(TourOrder::new(vec![]).is_empty());
    assert_eq!(&span(0, 4), TourOrder::with_nat_ord(4).order());
}

#[test]
fn marks_are_set_and_cleared() {
    let mut tree = natural(6, 2);
    tree.visited_at(2, true);
    tree.visited_at(5, true);
    assert!(tree.get(2).unwrap().is_visited());
    assert!(tree.get(5).unwrap().is_visited());
    assert!(!tree.get(3).unwrap().is_visited());
    tree.visited_at(2, false);
    assert!(!tree.get(2).unwrap().is_visited());
    tree.reset();
    assert!(tree.vertices().iter().all(|v| !v.is_visited()));
    assert_eq!(span(0, 6), tree.to_order());
}

#[test]
fn a_flip_keeps_the_marks() {
    let mut tree = natural(30, 4);
    tree.visited_at(7, true);
    tree.visited_at(20, true);
    tree.flip_at(5, 6, 22, 23);
    for v in tree.vertices() {
        assert_eq!(v.index() == 7 || v.index() == 20, v.is_visited());
    }
}

#[test]
fn only_two_different_tour_edges_can_be_flipped() {
    let tree = natural(10, 3);
    assert!(tree.is_flippable(3, 4, 8, 9));
    assert!(tree.is_flippable(4, 3, 9, 8));
    assert!(tree.is_flippable(9, 0, 4, 5));
    assert!(tree.is_flippable(3, 4, 4, 5));
    // One edge with and one against the tour.
    assert!(tree.is_flippable(3, 4, 9, 8));
    assert!(tree.is_flippable(4, 3, 8, 9));
    // Two edges that meet in a node.
    assert!(tree.is_flippable(4, 5, 4, 3));
    assert!(tree.is_flippable(4, 5, 3, 4));
    // Not an edge.
    assert!(!tree.is_flippable(3, 5, 8, 9));
    // The same edge twice.
    assert!(!tree.is_flippable(3, 4, 3, 4));
    assert!(!tree.is_flippable(3, 4, 4, 3));
    // No such node.
    assert!(!tree.is_flippable(3, 4, 9, 10));
    // On two nodes the two edges join the same pair of nodes.
    let two = natural(2, 1);
    assert!(!two.is_flippable(0, 1, 1, 0));
    assert!(!two.is_flippable(1, 0, 0, 1));
    // On three nodes every two edges differ.
    let three = natural(3, 2);
    assert!(three.is_flippable(0, 1, 1, 2));
    assert!(three.is_flippable(0, 1, 2, 0));
}

#[test]
fn a_flip_inside_a_segment_reverses_that_block_of_the_listing() {
    let mut tree = natural(100, 10);
    tree.flip_at(3, 4, 8, 9);
    let mut want = span(0, 4);
    want.extend(back(4, 9));
    want.extend(span(9, 100));
    assert_eq!(want, tree.to_order());
    // The segment keeps its flag; links and numbers were rewritten.
    assert!(!tree.parents()[0].reverse);
    assert_eq!(4, tree.get(8).unwrap().seq_id);
    assert_eq!(8, tree.get(4).unwrap().seq_id);

    tree.flip_at(3, 8, 4, 9);
    assert_eq!(span(0, 100), tree.to_order());
}

#[test]
fn a_flip_of_a_whole_segment_toggles_its_flag() {
    let mut tree = natural(100, 10);
    tree.flip_at(9, 10, 19, 20);
    let mut want = span(0, 10);
    want.extend(back(10, 20));
    want.extend(span(20, 100));
    assert_eq!(want, tree.to_order());
    assert!(tree.parents()[1].reverse);
    assert_eq!(0, tree.get(10).unwrap().seq_id);
    assert_eq!(11, tree.get(10).unwrap().next);
}

#[test]
fn a_flip_of_a_short_inner_run_reverses_the_run() {
    let mut tree = natural(100, 10);
    tree.flip_at(9, 10, 39, 40);
    let mut want = span(0, 10);
    want.extend(back(10, 40));
    want.extend(span(40, 100));
    assert_eq!(want, tree.to_order());
    for s in 1..4 {
        assert!(tree.parents()[s].reverse);
    }
    assert_eq!(1, tree.parents()[3].id);
    assert_eq!(2, tree.parents()[2].id);
    assert_eq!(3, tree.parents()[1].id);
    assert_eq!(0, tree.parents()[0].id);
}

#[test]
fn a_flip_of_a_long_inner_run_reverses_the_outer_run_instead() {
    let mut tree = natural(100, 10);
    // The path from 10 to 89 fills eight segments; the rest of the cycle,
    // from 90 round to 9, two with members and one without.
    tree.flip_at(9, 10, 89, 90);
    // The listing is read from the segment in which the path ended.
    let mut want = span(80, 90);
    want.extend(back(0, 10));
    want.extend(back(90, 100));
    want.extend(span(10, 80));
    assert_eq!(want, tree.to_order());
    assert!(tree.parents()[0].reverse);
    assert!(tree.parents()[9].reverse);
    assert!(tree.parents()[10].reverse);
    for s in 1..9 {
        assert!(!tree.parents()[s].reverse);
    }
    assert_eq!(0, tree.parents()[8].id);
}

#[test]
fn a_cut_inside_a_segment_moves_the_smaller_side() {
    let mut tree = natural(100, 10);
    // The cut between 33 and 34 leaves four nodes before it and six behind
    // it: the four move to the segment before. The cut between 72 and 73
    // leaves three before it: they move to the segment before as well.
    tree.flip_at(33, 34, 72, 73);
    let mut want = span(0, 34);
    want.extend(back(34, 73));
    want.extend(span(73, 100));
    assert_eq!(want, tree.to_order());
    assert_eq!(14, tree.parents()[2].size);
    assert_eq!(6, tree.parents()[3].size);
    assert_eq!(13, tree.parents()[6].size);
    assert_eq!(7, tree.parents()[7].size);
    assert_eq!(2, tree.get(33).unwrap().parent);
    assert_eq!(13, tree.get(33).unwrap().seq_id);
    assert_eq!(6, tree.get(72).unwrap().parent);

    let mut tree = natural(100, 10);
    // Seven before the cut, three behind: the three move on.
    tree.flip_at(36, 37, 67, 68);
    assert_eq!(7, tree.parents()[3].size);
    assert_eq!(13, tree.parents()[4].size);
    assert_eq!(4, tree.get(37).unwrap().parent);
    let mut want = span(0, 37);
    want.extend(back(37, 68));
    want.extend(span(68, 100));
    assert_eq!(want, tree.to_order());
}

#[test]
fn edges_that_run_against_each_other_are_joined_crosswise() {
    // (3, 4) runs with the tour and (9, 8) against it: 3 is joined to 8 and
    // 4 to 9, as by a flip of (3, 4) and (8, 9).
    let mut tree = natural(100, 10);
    assert_eq!((8, 9), tree.flip_joins(3, 4, 9, 8));
    assert_eq!((8, 9), tree.flip_joins(3, 4, 8, 9));
    tree.flip_at(3, 4, 9, 8);
    let mut want = span(0, 4);
    want.extend(back(4, 9));
    want.extend(span(9, 100));
    assert_eq!(want, tree.to_order());

    let mut other = natural(100, 10);
    assert_eq!((9, 8), other.flip_joins(4, 3, 8, 9));
    other.flip_at(4, 3, 8, 9);
    assert_eq!(want, other.to_order());

    // Two edges that meet in node 4: the tour stays as it is.
    let mut third = natural(10, 3);
    assert_eq!((3, 4), third.flip_joins(4, 5, 4, 3));
    third.flip_at(4, 5, 4, 3);
    let edges: Vec<(usize, usize)> = (0..10).map(|v| (v, (v + 1) % 10)).collect();
    for (v, w) in edges {
        let next = third.next_at(v).unwrap().index();
        let prev = third.prev_at(v).unwrap().index();
        assert!(next == w || prev == w);
    }
}

#[test]
fn a_flip_of_neighbouring_edges_changes_nothing() {
    let mut tree = natural(10, 3);
    tree.flip_at(3, 4, 4, 5);
    assert_eq!(span(0, 10), tree.to_order());
    // All but one node lie between the edges: the single node is turned.
    tree.flip_at(4, 5, 3, 4);
    assert_eq!(span(0, 10), tree.to_order());
}

#[test]
fn flipping_the_new_edges_gives_the_tour_back() {
    let mut tree = natural(50, 7);
    let edges_before: Vec<(usize, usize)> =
        (0..50).map(|v| (v, tree.next_at(v).unwrap().index())).collect();
    tree.flip_at(11, 12, 40, 41);
    let beside_11 = [tree.next_at(11).unwrap().index(), tree.prev_at(11).unwrap().index()];
    assert!(beside_11.contains(&40));
    assert!(!beside_11.contains(&12));
    assert!(tree.is_flippable(11, 40, 12, 41));
    tree.flip_at(11, 40, 12, 41);
    for (v, w) in edges_before {
        let next = tree.next_at(v).unwrap().index();
        let prev = tree.prev_at(v).unwrap().index();
        assert!(next == w || prev == w);
    }
}

#[test]
fn a_walk_passes_every_node_once_and_comes_back() {
    let mut tree = TwoLevelTree::new(23, 4);
    let order = vec![
        5, 17, 2, 9, 0, 21, 13, 8, 1, 19, 4, 11, 22, 6, 15, 3, 10, 20, 7, 14, 18, 12, 16,
    ];
    tree.apply(&TourOrder::new(order.clone()));
    tree.flip_at(17, 2, 6, 15);
    tree.flip_at(0, 21, 10, 20);
    for start in 0..23 {
        let mut seen = vec![false; 23];
        let mut cur = start;
        for _ in 0..23 {
            assert!(!seen[cur]);
            seen[cur] = true;
            let next = tree.next_at(cur).unwrap().index();
            assert_eq!(cur, tree.prev_at(next).unwrap().index());
            cur = next;
        }
        assert_eq!(start, cur);
    }
}

#[test]
fn after_apply_a_walk_reads_the_order() {
    let mut tree = TwoLevelTree::new(10, 3);
    let order = vec![9, 1, 2, 4, 6, 3, 5, 8, 0, 7];
    tree.apply(&TourOrder::new(order.clone()));
    for i in 0..10 {
        let mut cur = order[i];
        let mut back = order[i];
        for k in 1..=10 {
            cur = tree.next_at(cur).unwrap().index();
            back = tree.prev_at(back).unwrap().index();
            assert_eq!(order[(i + k) % 10], cur);
            assert_eq!(order[(i + 10 - k) % 10], back);
        }
    }
}

#[test]
fn betweenness_is_the_same_from_each_of_three_nodes() {
    let mut tree = natural(30, 4);
    tree.flip_at(5, 6, 22, 23);
    tree.flip_at(2, 3, 14, 13);
    for a in 0..30 {
        for b in 0..30 {
            for c in 0..30 {
                if a == b || b == c || c == a {
                    continue;
                }
                let abc = tree.between_at(a, b, c).unwrap();
                assert_eq!(abc, tree.between_at(b, c, a).unwrap());
                assert_eq!(abc, tree.between_at(c, a, b).unwrap());
                assert_eq!(abc, !tree.between_at(a, c, b).unwrap());
            }
        }
    }
}

#[test]
fn betweenness_is_strict_towards_the_end() {
    let mut tree = natural(10, 3);
    tree.reverse(1);
    for a in 0..10 {
        for c in 0..10 {
            // The walk from `a` meets `a` first of all.
            assert_eq!(a != c, tree.between_at(a, a, c).unwrap());
            // Nothing is met strictly before itself, and nothing before `a`.
            assert!(!tree.between_at(a, c, c).unwrap());
            assert!(!tree.between_at(a, c, a).unwrap());
        }
    }
}

#[test]
fn betweenness_agrees_with_the_walk() {
    let mut tree = natural(17, 3);
    tree.flip_at(2, 3, 11, 12);
    tree.reverse(4);
    for a in 0..17 {
        let mut steps = vec![0usize; 17];
        let mut cur = a;
        for k in 0..17 {
            steps[cur] = k;
            cur = tree.next_at(cur).unwrap().index();
        }
        for b in 0..17 {
            for c in 0..17 {
                assert_eq!(Some(steps[b] < steps[c]), tree.between_at(a, b, c));
            }
        }
    }
}

#[test]
fn reversing_an_empty_segment_changes_its_flag_only() {
    let mut tree = natural(9, 3);
    tree.reverse(3);
    assert!(tree.parents()[3].reverse);
    assert_eq!(0, tree.parents()[3].size);
    assert_eq!(span(0, 9), tree.to_order());
}

#[test]
fn reversing_the_only_segment_with_members_turns_the_tour_round() {
    let mut tree = natural(5, 8);
    assert_eq!(1, tree.parents().len());
    tree.reverse(0);
    assert_eq!(back(0, 5), tree.to_order());
    assert_eq!(3, tree.next_at(4).unwrap().index());
    assert_eq!(0, tree.prev_at(4).unwrap().index());
}

#[test]
fn the_cuts_of_a_segment_are_its_ends_and_their_neighbours() {
    let mut tree = natural(10, 3);
    assert_eq!(Some((2, 3, 5, 6)), tree.reverse_cuts(1));
    assert_eq!(Some((9, 0, 2, 3)), tree.reverse_cuts(0));
    assert_eq!(Some((8, 9, 9, 0)), tree.reverse_cuts(3));
    tree.reverse(1);
    // The tour now passes 2, 5, 4, 3, 6.
    assert_eq!(Some((2, 5, 3, 6)), tree.reverse_cuts(1));
    // No edge changes where the segment has no member or has them all.
    let empty = natural(9, 3);
    assert_eq!(None, empty.reverse_cuts(3));
    let whole = natural(5, 8);
    assert_eq!(None, whole.reverse_cuts(0));
}
