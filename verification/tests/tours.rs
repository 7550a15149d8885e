use twolevel::cyclic::between;
use twolevel::order::TourOrder;
use twolevel::tree::TwoLevelTree;
use twolevel::vertex::NodeRel;

fn check_tour(tree: &TwoLevelTree, expected: &TourOrder) {
    let expected = expected.order();
    let len = expected.len();
    assert_eq!(tree.len(), len);
    for ii in 0..len {
        let base = tree.get(expected[ii]);
        assert!(base.is_some());
        let base = base.unwrap();
        let pred = tree.predecessor(base);
        let succ = tree.successor(base);
        let targ1 = tree.get(expected[(len + ii - 1) % len]);
        let targ2 = tree.get(expected[(ii + 1) % len]);
        assert!(pred.is_some());
        assert!(pred == targ1 || pred == targ2, "predecessor at index {}", ii);
        assert_eq!(NodeRel::Predecessor, tree.relation(base, pred.unwrap()));
        assert!(succ.is_some());
        assert!(succ == targ1 || succ == targ2, "successor at index {}", ii);
        assert_eq!(NodeRel::Successor, tree.relation(base, succ.unwrap()));
    }
}

/// Concatenates the ranges `lo..hi`, each read backwards where its flag is
/// set.
fn pieces(parts: &[(usize, usize, bool)]) -> TourOrder {
    let mut order = Vec::new();
    for &(lo, hi, rev) in parts {
        if rev {
            order.extend((lo..hi).rev());
        } else {
            order.extend(lo..hi);
        }
    }
    TourOrder::with_ord(order)
}

fn flip_1(tour: &mut TwoLevelTree) {
    let n_nodes = 100;
    assert_eq!(n_nodes, tour.len());
    tour.apply(&pieces(&[(0, n_nodes, false)]));

    tour.flip_at(3, 4, 8, 9);
    check_tour(tour, &pieces(&[(0, 4, false), (4, 9, true), (9, n_nodes, false)]));

    tour.flip_at(3, 8, 4, 9);
    check_tour(tour, &pieces(&[(0, n_nodes, false)]));

    tour.flip_at(8, 9, 3, 4);
    check_tour(tour, &pieces(&[(0, 4, false), (4, 9, true), (9, n_nodes, false)]));

    tour.flip_at(4, 9, 3, 8);
    check_tour(tour, &TourOrder::with_nat_ord(n_nodes));

    // Reverses the entire segment.
    tour.flip_at(9, 10, 19, 20);
    check_tour(tour, &pieces(&[(0, 10, false), (10, 20, true), (20, n_nodes, false)]));

    tour.flip_at(10, 20, 9, 19);
    check_tour(tour, &TourOrder::with_nat_ord(n_nodes));
}

fn flip_2(tour: &mut TwoLevelTree) {
    let n_nodes = 100;
    assert_eq!(n_nodes, tour.len());
    tour.apply(&TourOrder::with_nat_ord(n_nodes));

    tour.flip_at(9, 10, 39, 40);
    check_tour(tour, &pieces(&[(0, 10, false), (10, 40, true), (40, n_nodes, false)]));

    tour.flip_at(10, 40, 9, 39);
    check_tour(tour, &TourOrder::with_nat_ord(n_nodes));

    tour.flip_at(29, 30, 9, 10);
    check_tour(tour, &pieces(&[(0, 10, false), (10, 30, true), (30, n_nodes, false)]));

    tour.flip_at(9, 29, 10, 30);
    check_tour(tour, &TourOrder::with_nat_ord(n_nodes));
}

fn flip_3(tour: &mut TwoLevelTree) {
    let n_nodes = 100;
    assert_eq!(n_nodes, tour.len());
    tour.apply(&TourOrder::with_nat_ord(n_nodes));

    tour.flip_at(9, 10, 89, 90);
    check_tour(tour, &pieces(&[(90, n_nodes, true), (10, 90, false), (0, 10, true)]));

    tour.flip_at(90, 10, 89, 9);
    check_tour(tour, &TourOrder::with_nat_ord(n_nodes));

    tour.flip_at(89, 90, 9, 10);
    check_tour(tour, &pieces(&[(90, n_nodes, true), (10, 90, false), (0, 10, true)]));

    tour.flip_at(89, 9, 90, 10);
    check_tour(tour, &TourOrder::with_nat_ord(n_nodes));

    tour.flip_at(79, 80, 89, 90);
    tour.flip_at(9, 10, 79, 89);

    check_tour(
        tour,
        &pieces(&[(80, 90, false), (10, 80, false), (0, 10, true), (90, n_nodes, true)]),
    );
}

fn flip_4_d1_forward_move_back(tour: &mut TwoLevelTree) {
    tour.apply(&TourOrder::with_nat_ord(tour.len()));
    check_tour(tour, &TourOrder::with_nat_ord(tour.len()));

    // Reverse prev of to-side.
    tour.flip_at(59, 60, 69, 70);

    tour.flip_at(33, 34, 72, 73);
    check_tour(
        tour,
        &pieces(&[
            (0, 34, false),
            (70, 73, true),
            (60, 70, false),
            (34, 60, true),
            (73, tour.len(), false),
        ]),
    );
}

fn flip_4_d1_reverse_move_front(tour: &mut TwoLevelTree) {
    tour.apply(&TourOrder::with_nat_ord(tour.len()));
    check_tour(tour, &TourOrder::with_nat_ord(tour.len()));

    // Reverse from- and to-side.
    tour.flip_at(29, 30, 39, 40);
    tour.flip_at(59, 60, 69, 70);

    // Reverse next of to-side.
    tour.flip_at(60, 70, 79, 80);

    // Flip operation.
    tour.flip_at(34, 33, 63, 62);
    check_tour(
        tour,
        &pieces(&[
            (0, 30, false),
            (34, 40, true),
            (63, 70, false),
            (40, 60, true),
            (30, 34, false),
            (60, 63, true),
            (70, 80, true),
            (80, tour.len(), false),
        ]),
    );
}

fn flip_4_d2_forward_move_front(tour: &mut TwoLevelTree) {
    tour.apply(&TourOrder::with_nat_ord(tour.len()));
    check_tour(tour, &TourOrder::with_nat_ord(tour.len()));

    // Reverse next of to-side.
    tour.flip_at(69, 70, 79, 80);

    tour.flip_at(36, 37, 67, 68);
    check_tour(
        tour,
        &pieces(&[
            (0, 37, false),
            (37, 68, true),
            (68, 70, false),
            (70, 80, true),
            (80, tour.len(), false),
        ]),
    );
}

fn flip_4_d2_reverse_move_back(tour: &mut TwoLevelTree) {
    tour.apply(&TourOrder::with_nat_ord(tour.len()));
    check_tour(tour, &TourOrder::with_nat_ord(tour.len()));

    // Reverse from- and to-side.
    tour.flip_at(29, 30, 39, 40);
    tour.flip_at(69, 70, 79, 80);

    // Reverse prev of to-side.
    tour.flip_at(59, 60, 69, 79);

    // Flip operation.
    tour.flip_at(37, 36, 68, 67);

    check_tour(
        tour,
        &pieces(&[
            (0, 30, false),
            (37, 40, true),
            (68, 70, false),
            (40, 60, true),
            (30, 37, false),
            (60, 68, true),
            (70, 80, true),
            (80, tour.len(), false),
        ]),
    );
}

fn flip_4(tour: &mut TwoLevelTree) {
    let n_nodes = 100;
    assert_eq!(n_nodes, tour.len());

    flip_4_d1_forward_move_back(tour);
    flip_4_d1_reverse_move_front(tour);
    flip_4_d2_forward_move_front(tour);
    flip_4_d2_reverse_move_back(tour);
}

#[test]
fn tests_test_flip_cases() {
    let mut tour = TwoLevelTree::new(100, 10);
    flip_1(&mut tour);
    flip_2(&mut tour);
    flip_3(&mut tour);
    flip_4(&mut tour);
}

#[test]
fn tests_test_apply() {
    let mut tour = TwoLevelTree::new(10, 4);
    let expected = TourOrder::with_ord(vec![3, 0, 4, 1, 6, 8, 7, 9, 5, 2]);
    tour.apply(&expected);
    check_tour(&tour, &expected);
}

#[test]
fn tests_test_between() {
    let mut tour = TwoLevelTree::new(10, 3);
    assert_eq!(10, tour.len());
    tour.apply(&TourOrder::with_ord((0..10).collect()));

    //  0 -> 1 -> 2 -> 3 -> 4 -> 5 -> 6 -> 7 -> 8 -> 9

    // All vertices reside under the same parent node.
    assert!(tour.between_at(0, 1, 2).unwrap());
    assert!(!tour.between_at(0, 2, 1).unwrap());
    assert!(!tour.between_at(2, 1, 0).unwrap());
    assert!(tour.between_at(2, 0, 1).unwrap());

    // All vertices reside under distinct parent node.
    assert!(tour.between_at(2, 3, 7).unwrap());
    assert!(!tour.between_at(2, 7, 3).unwrap());
    assert!(!tour.between_at(7, 3, 2).unwrap());
    assert!(tour.between_at(7, 2, 3).unwrap());

    // Two out of three vertices reside under the same parent node.
    assert!(tour.between_at(3, 5, 8).unwrap());
    assert!(!tour.between_at(3, 8, 5).unwrap());
    assert!(!tour.between_at(8, 5, 3).unwrap());
    assert!(tour.between_at(8, 3, 5).unwrap());

    // Reverse [3 4 5]
    assert!(tour.between_at(3, 4, 5).unwrap());
    assert!(!tour.between_at(5, 4, 3).unwrap());

    tour.flip_at(2, 3, 5, 6);

    assert!(!tour.between_at(3, 4, 5).unwrap());
    assert!(tour.between_at(5, 4, 3).unwrap());

    assert!(!tour.between_at(3, 5, 8).unwrap());
    assert!(tour.between_at(3, 8, 5).unwrap());
    assert!(tour.between_at(8, 5, 3).unwrap());
    assert!(!tour.between_at(8, 3, 5).unwrap());
}

#[test]
fn test_between() {
    // 1 -> 2 -> 3 -> 4 -> 5
    assert!(between(1, 3, 4));
    assert!(!between(1, 5, 4));
    assert!(between(5, 1, 3));
    assert!(!between(5, 3, 1));
}

#[test]
fn twoleveltree_test_apply() {
    let n_nodes = 10;
    let mut tree = TwoLevelTree::new(n_nodes, 3);
    tree.apply(&TourOrder::new((0..n_nodes).collect()));

    assert_eq!(4, tree.parents().len());
    assert_eq!(n_nodes, tree.vertices().len());

    // First parent group
    let first_p = &tree.parents()[0];
    assert_eq!(3, first_p.size);
    assert!(tree.get(first_p.first).is_some());
    assert!(tree.get(first_p.last).is_some());

    assert_eq!(0, first_p.first);
    assert_eq!(2, first_p.last);

    // Last parent group
    let last_p = tree.parents().last().unwrap();
    assert_eq!(1, last_p.size);
    assert!(tree.get(last_p.first).is_some());
    assert!(tree.get(last_p.last).is_some());
    assert_eq!(n_nodes - 1, last_p.first);
    assert_eq!(n_nodes - 1, last_p.last);

    assert_eq!(tree.parents().len() - 1, tree.parents().first().unwrap().prev);
    assert_eq!(0, tree.parents().last().unwrap().next);
}

#[test]
fn test_next_and_prev() {
    let n_nodes = 10;
    let mut tree = TwoLevelTree::new(n_nodes, 3);
    let expected = TourOrder::new((0..n_nodes).collect());
    tree.apply(&expected);
    check_tour(&tree, &expected);

    let expected = TourOrder::new(vec![9, 1, 2, 4, 6, 3, 5, 8, 0, 7]);
    tree.apply(&expected);
    check_tour(&tree, &expected);
}

#[test]
fn test_between_forward() {
    let n_nodes = 10;
    let mut tree = TwoLevelTree::new(n_nodes, 3);
    tree.apply(&TourOrder::new((0..n_nodes).collect()));

    //  0 -> 1 -> 2 -> 3 -> 4 -> 5 -> 6 -> 7 -> 8 -> 9

    // All vertices reside under the same parent node.
    assert!(tree.between_at(0, 1, 2).unwrap());
    assert!(!tree.between_at(0, 2, 1).unwrap());
    assert!(!tree.between_at(2, 1, 0).unwrap());
    assert!(tree.between_at(2, 0, 1).unwrap());

    // All vertices reside under distinct parent node.
    assert!(tree.between_at(2, 3, 7).unwrap());
    assert!(!tree.between_at(2, 7, 3).unwrap());
    assert!(!tree.between_at(7, 3, 2).unwrap());
    assert!(tree.between_at(7, 2, 3).unwrap());

    // Two out of three vertices reside under the same parent node.
    assert!(tree.between_at(3, 5, 8).unwrap());
    assert!(!tree.between_at(3, 8, 5).unwrap());
    assert!(!tree.between_at(8, 5, 3).unwrap());
    assert!(tree.between_at(8, 3, 5).unwrap());
}

#[test]
fn test_parent_reverse() {
    let n_nodes = 10;
    let mut tree = TwoLevelTree::new(n_nodes, 3);

    tree.apply(&TourOrder::new((0..n_nodes).collect()));

    // 0 -> 1 -> 2 -> 5 -> 4 -> 3 -> 6 -> 7 -> 8 -> 9
    tree.reverse(1);
    check_tour(&tree, &TourOrder::new(vec![0, 1, 2, 5, 4, 3, 6, 7, 8, 9]));

    // 0 -> 1 -> 2 -> 5 -> 4 -> 3 -> 8 -> 7 -> 6 -> 9
    tree.reverse(2);
    let order = TourOrder::new(vec![0, 1, 2, 5, 4, 3, 8, 7, 6, 9]);
    check_tour(&tree, &order);

    tree.reverse(3);
    check_tour(&tree, &order);

    // 0 -> 1 -> 2 -> 3 -> 4 -> 5 -> 6 -> 7 -> 8 -> 9
    tree.reverse(1);
    tree.reverse(2);
    check_tour(&tree, &TourOrder::new((0..10).collect()));
}
