use std::collections::HashMap;

use twolevel::mst::build_mst;

/// Fills a square table from the rows of its upper triangle.
fn from_upper(rows: &[Vec<u64>]) -> Vec<Vec<u64>> {
    let n = rows.len();
    let mut costs = vec![vec![0u64; n]; n];
    for (i, row) in rows.iter().enumerate() {
        for (k, &w) in row.iter().enumerate() {
            costs[i][i + k] = w;
            costs[i + k][i] = w;
        }
    }
    costs
}

fn wikipedia_graph() -> Vec<Vec<u64>> {
    from_upper(&[
        vec![0, 1, 0, 4, 3, 0],
        vec![0, 0, 4, 2, 0],
        vec![0, 0, 4, 5],
        vec![0, 4, 0],
        vec![0, 7],
        vec![0],
    ])
}

#[test]
fn test_build_mst() {
    // Data is taken from Wikipedia article for MST.
    // https://en.wikipedia.org/wiki/Minimum_spanning_tree
    let costs = wikipedia_graph();
    let tree = build_mst(&costs);

    let mut result = HashMap::new();
    for idx in 0..tree.len() {
        if idx == 0 {
            result.insert(idx, None);
        } else {
            let parent = tree.parent(idx);
            assert!(parent.is_some());
            result.insert(idx, parent);
        }
    }

    // There are many possiblities of MST for a given graph.
    // Here we use the second MST output shown in the Wikipedia article.
    let expected: HashMap<usize, Option<usize>> = [
        (0, None),
        (1, Some(0)),
        (4, Some(1)),
        (3, Some(0)),
        (2, Some(4)),
        (5, Some(2)),
    ]
    .iter()
    .cloned()
    .collect();

    assert_eq!(expected, result);
}

#[test]
fn mst_weight_is_the_known_minimum() {
    let costs = wikipedia_graph();
    let tree = build_mst(&costs);
    let mut total = 0;
    for v in 1..tree.len() {
        total += costs[tree.parent(v).unwrap()][v];
    }
    assert_eq!(16, total);
}

#[test]
fn mst_joins_nodes_in_order_of_lightest_edges() {
    let tree = build_mst(&wikipedia_graph());
    assert_eq!(&vec![0, 1, 4, 2, 3, 5], tree.order());
}

#[test]
fn mst_prefers_the_lowest_node_among_equal_edges() {
    // Every edge weighs the same: the nodes join in index order, all from
    // the root, which joined first.
    let costs = vec![
        vec![0, 5, 5, 5],
        vec![5, 0, 5, 5],
        vec![5, 5, 0, 5],
        vec![5, 5, 5, 0],
    ];
    let tree = build_mst(&costs);
    assert_eq!(&vec![0, 1, 2, 3], tree.order());
    assert_eq!(None, tree.parent(0));
    assert_eq!(Some(0), tree.parent(1));
    assert_eq!(Some(0), tree.parent(2));
    assert_eq!(Some(0), tree.parent(3));
}

#[test]
fn mst_leaves_unreachable_nodes_out() {
    let costs = vec![
        vec![0, 2, 0, 0],
        vec![2, 0, 0, 0],
        vec![0, 0, 0, 9],
        vec![0, 0, 9, 0],
    ];
    let tree = build_mst(&costs);
    assert_eq!(&vec![0, 1], tree.order());
    assert_eq!(Some(0), tree.parent(1));
    assert_eq!(None, tree.parent(2));
    assert_eq!(None, tree.parent(3));
}

#[test]
fn mst_of_no_node_and_of_one_node() {
    let none: Vec<Vec<u64>> = Vec::new();
    let tree = build_mst(&none);
    assert_eq!(0, tree.len());
    assert!(tree.order().is_empty());
    assert_eq!(None, tree.parent(0));

    let one = vec![vec![0u64]];
    let tree = build_mst(&one);
    assert_eq!(1, tree.len());
    assert_eq!(&vec![0], tree.order());
    assert_eq!(None, tree.parent(0));
    assert_eq!(None, tree.parent(7));
}

#[test]
fn mst_takes_the_lighter_of_two_ways_to_a_node() {
    // 0 -3- 1, 0 -9- 2, 1 -4- 2: node 2 joins through node 1.
    let costs = vec![vec![0, 3, 9], vec![3, 0, 4], vec![9, 4, 0]];
    let tree = build_mst(&costs);
    assert_eq!(&vec![0, 1, 2], tree.order());
    assert_eq!(Some(1), tree.parent(2));
}
