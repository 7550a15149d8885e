use twolevel::order::TourOrder;
use twolevel::tree::TwoLevelTree;
use twolevel::vertex::{NodeRel, TltVertex, DETACHED};

/// A small generator of numbers, the same on every run.
struct Lcg(u64);

impl Lcg {
    fn next(&mut self, bound: usize) -> usize {
        self.0 = self.0.wrapping_mul(6364136223846793005).wrapping_add(1442695040888963407);
        ((self.0 >> 33) as usize) % bound
    }
}

/// The cycle of the tree, read from node `start` on.
fn cycle_from(tree: &TwoLevelTree, start: usize) -> Vec<usize> {
    let mut out = Vec::new();
    let mut cur = start;
    for _ in 0..tree.len() {
        out.push(cur);
        cur = tree.next_at(cur).unwrap().index();
    }
    assert_eq!(start, cur);
    out
}

/// The cycle `model` read from node `start` on, in the direction in which
/// `second` follows `start`.
fn model_from(model: &[usize], start: usize, second: usize) -> Vec<usize> {
    let n = model.len();
    let at = model.iter().position(|&v| v == start).unwrap();
    let forward: Vec<usize> = (0..n).map(|k| model[(at + k) % n]).collect();
    if n < 2 || forward[1] == second {
        forward
    } else {
        (0..n).map(|k| model[(at + n - k) % n]).collect()
    }
}

fn check_structure(tree: &TwoLevelTree) {
    let n = tree.len();
    let mut seen = vec![false; n];
    let mut total = 0;
    for (s, p) in tree.parents().iter().enumerate() {
        total += p.size;
        assert_eq!(s, tree.parents()[p.next].prev);
        assert_eq!(s, tree.parents()[p.prev].next);
        if p.size == 0 {
            assert_eq!(DETACHED, p.first);
            assert_eq!(DETACHED, p.last);
            continue;
        }
        let mut cur = p.first;
        for k in 0..p.size {
            let v = tree.get(cur).unwrap();
            assert_eq!(s, v.parent);
            assert_eq!(k, v.seq_id);
            assert!(!seen[cur]);
            seen[cur] = true;
            if k + 1 < p.size {
                cur = v.next;
            }
        }
        assert_eq!(p.last, cur);
    }
    assert_eq!(n, total);
    assert!(seen.iter().all(|&b| b));
}

fn run_random_flips(n: usize, group: usize, seed: u64, rounds: usize) {
    let mut rng = Lcg(seed);
    let mut model: Vec<usize> = (0..n).collect();
    for i in (1..n).rev() {
        let j = rng.next(i + 1);
        model.swap(i, j);
    }
    let mut tree = TwoLevelTree::new(n, group);
    assert!(TourOrder::new(model.clone()).is_valid());
    tree.apply(&TourOrder::new(model.clone()));
    check_structure(&tree);
    for _ in 0..rounds {
        // Two edges in tour direction, from `p` and from `q`, each handed
        // over that way round or the other.
        let p = rng.next(n);
        let mut q = rng.next(n);
        if q == p {
            q = (q + 1) % n;
        }
        let next_p = tree.next_at(p).unwrap().index();
        let next_q = tree.next_at(q).unwrap().index();
        let (a, b) = if rng.next(2) == 1 { (next_p, p) } else { (p, next_p) };
        let (c, d) = if rng.next(2) == 1 { (next_q, q) } else { (q, next_q) };
        if !tree.is_flippable(a, b, c, d) {
            // On two nodes the two edges join the same pair of nodes.
            assert_eq!(2, n);
            continue;
        }
        // The same move on the plain cycle: the path from the head of the
        // first edge to the tail of the second is written backwards.
        let (from, to) = (next_p, q);
        let start = tree.len();
        let mut walk = cycle_from(&tree, from);
        let upto = walk.iter().position(|&v| v == to).unwrap();
        walk[..=upto].reverse();
        assert_eq!(start, walk.len());
        model = walk;

        tree.flip_at(a, b, c, d);
        check_structure(&tree);
        let first = model[0];
        let got = cycle_from(&tree, first);
        let want = model_from(&model, first, got.get(1).copied().unwrap_or(first));
        assert_eq!(want, got);
        assert_eq!(NodeRel::Neither, tree.relation(&TltVertex::new(0), tree.get(0).unwrap()));
        if n >= 3 {
            let x = got[0];
            let y = got[1];
            let z = got[2];
            assert!(tree.between_at(x, y, z).unwrap());
            assert!(tree.between_at(y, z, x).unwrap());
            assert!(tree.between_at(z, x, y).unwrap());
            assert!(!tree.between_at(x, z, y).unwrap());
        }
    }
}

#[test]
fn random_flips_agree_with_a_plain_cycle() {
    run_random_flips(40, 6, 1, 400);
    run_random_flips(40, 7, 2, 400);
    run_random_flips(100, 10, 3, 400);
    run_random_flips(37, 1, 4, 200);
    run_random_flips(37, 100, 5, 200);
    run_random_flips(12, 12, 6, 200);
}

#[test]
fn random_flips_on_the_smallest_tours() {
    run_random_flips(2, 1, 7, 20);
    run_random_flips(2, 5, 8, 20);
    run_random_flips(3, 1, 9, 50);
    run_random_flips(3, 2, 10, 50);
    run_random_flips(4, 2, 11, 50);
    run_random_flips(5, 2, 12, 100);
}

#[test]
fn random_flips_over_many_sizes() {
    let mut seed = 100;
    for n in 2..40 {
        for &group in &[1usize, 2, 3, 5, 8, 13, 50] {
            seed += 1;
            run_random_flips(n, group, seed, 60);
        }
    }
}

#[test]
fn random_flips_keep_the_listing_a_permutation() {
    let mut rng = Lcg(77);
    let n = 64;
    let mut tree = TwoLevelTree::new(n, 8);
    tree.apply(&TourOrder::with_nat_ord(n));
    for _ in 0..500 {
        let a = rng.next(n);
        let mut c = rng.next(n);
        if c == a {
            c = (c + 1) % n;
        }
        let b = tree.next_at(a).unwrap().index();
        let d = tree.next_at(c).unwrap().index();
        assert!(tree.is_flippable(a, b, c, d));
        tree.flip_at(a, b, c, d);
        let listing = tree.to_order();
        assert!(TourOrder::new(listing.clone()).is_valid());
        // The listing begins with the segment whose place in the ring is zero.
        let first = tree.parents().iter().filter(|p| p.size > 0).min_by_key(|p| p.id).unwrap();
        assert_eq!(first.head(), listing[0]);
        for i in 0..n {
            assert_eq!(listing[(i + 1) % n], tree.next_at(listing[i]).unwrap().index());
        }
    }
}
