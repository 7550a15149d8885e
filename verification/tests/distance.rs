use tspf::WeightKind;
use twolevel::order::TourOrder;
use twolevel::tree::TwoLevelTree;

/// The place of node `i`: the nodes lie on the diagonal, one step apart.
fn place(i: usize) -> [f64; 3] {
    [i as f64, i as f64, i as f64]
}

fn distance(a: usize, b: usize) -> f64 {
    WeightKind::Euc2d.cost(&place(a), &place(b))
}

/// The length of the tour, summed up edge by edge from node `start` on.
fn tour_length(tree: &TwoLevelTree, start: usize) -> f64 {
    let mut total = 0.;
    let mut cur = start;
    for _ in 0..tree.len() {
        let next = tree.next_at(cur).unwrap().index();
        total += distance(cur, next);
        cur = next;
    }
    assert_eq!(start, cur);
    total
}

#[test]
fn twoleveltree_test_total_dist() {
    let n_nodes = 4;
    let mut tree = TwoLevelTree::new(n_nodes, 3);

    tree.apply(&TourOrder::new(vec![0, 1, 2, 3]));
    assert_eq!(6. * (2. as f64).sqrt(), tour_length(&tree, 0));

    tree.apply(&TourOrder::new(vec![1, 3, 0, 2]));
    assert_eq!(8. * (2. as f64).sqrt(), tour_length(&tree, 1));
}

#[test]
fn tests_test_total_dist() {
    let mut tour = TwoLevelTree::new(4, 3);
    assert_eq!(4, tour.len());
    tour.apply(&TourOrder::with_ord(vec![0, 1, 2, 3]));
    assert_eq!(6. * (2. as f64).sqrt(), tour_length(&tour, 0));

    tour.apply(&TourOrder::with_ord(vec![1, 3, 0, 2]));
    assert_eq!(8. * (2. as f64).sqrt(), tour_length(&tour, 1));
}

#[test]
fn a_flip_changes_the_length_by_the_four_edges() {
    let mut tree = TwoLevelTree::new(10, 3);
    tree.apply(&TourOrder::with_nat_ord(10));
    let before = tour_length(&tree, 0);
    // (2, 3) and (6, 7) give way to (2, 6) and (3, 7).
    tree.flip_at(2, 3, 6, 7);
    let delta = distance(2, 6) + distance(3, 7) - distance(2, 3) - distance(6, 7);
    let after = tour_length(&tree, 0);
    assert!((after - (before + delta)).abs() < 1e-9);
}
