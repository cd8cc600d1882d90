use half_space_trees::{
    is_proper, le, lt, node_count, DrawError, HalfSpaceTree, HalfSpaceTrees, Leaf, Split,
};

fn split(dim: usize, val: f64) -> Split {
    Split { dim, val: val.to_bits() }
}

fn unit_box(n: usize) -> Vec<(u64, u64)> {
    vec![(0.0f64.to_bits(), 1.0f64.to_bits()); n]
}

fn point(x: &[f64]) -> Vec<u64> {
    x.iter().map(|v| v.to_bits()).collect()
}

/// A tree of depth two over the unit square. Slots in pre-order:
/// 0 (1 (2, 3), 4 (5, 6)).
fn small_tree() -> HalfSpaceTree {
    let tape = [
        split(0, 0.5),
        split(1, 0.25),
        split(0, 0.9),
        split(1, 0.1),
        split(1, 0.75),
        split(0, 0.3),
        split(1, 0.6),
    ];
    HalfSpaceTree::new(2, &unit_box(2), &tape).unwrap()
}

#[test]
fn node_count_of_small_depths() {
    assert_eq!(node_count(0), Some(1));
    assert_eq!(node_count(1), Some(3));
    assert_eq!(node_count(2), Some(7));
    assert_eq!(node_count(10), Some(2047));
}

#[test]
fn node_count_at_the_limit() {
    let bits = usize::BITS;
    assert_eq!(node_count(bits - 1), Some(usize::MAX));
    assert_eq!(node_count(bits - 2), Some(usize::MAX / 2));
    assert_eq!(node_count(bits), None);
    assert_eq!(node_count(u32::MAX), None);
}

#[test]
fn order_agrees_with_the_numbers() {
    let values = [
        f64::NEG_INFINITY,
        f64::MIN,
        -1e300,
        -2.5,
        -1.0,
        -f64::MIN_POSITIVE,
        -5e-324,
        -0.0,
        0.0,
        5e-324,
        f64::MIN_POSITIVE,
        0.1,
        0.5,
        1.0,
        1.0000000000000002,
        2.5,
        1e300,
        f64::MAX,
        f64::INFINITY,
        f64::NAN,
        -f64::NAN,
        f64::from_bits(0x7FF0_0000_0000_0001),
        f64::from_bits(0xFFFF_FFFF_FFFF_FFFF),
    ];
    for a in values {
        for b in values {
            assert_eq!(lt(a.to_bits(), b.to_bits()), a < b, "{a} < {b}");
            assert_eq!(le(a.to_bits(), b.to_bits()), a <= b, "{a} <= {b}");
        }
    }
}

#[test]
fn zeros_are_equal_and_nan_is_unordered() {
    let zero = 0.0f64.to_bits();
    let minus_zero = (-0.0f64).to_bits();
    let nan = f64::NAN.to_bits();
    assert!(!lt(minus_zero, zero));
    assert!(!lt(zero, minus_zero));
    assert!(le(minus_zero, zero));
    assert!(le(zero, minus_zero));
    assert!(!lt(nan, zero) && !lt(zero, nan) && !le(nan, nan));
    assert!(lt(0x8000_0000_0000_0001, 0x0000_0000_0000_0001));
    assert!(lt(0xFFF0_0000_0000_0000, 0x7FF0_0000_0000_0000));
}

#[test]
fn tree_reports_what_it_was_built_with() {
    let tree = small_tree();
    assert_eq!(tree.max_depth(), 2);
    assert_eq!(tree.n_dims(), 2);
    assert_eq!(tree.node_count(), 7);
}

#[test]
fn insert_walks_left_when_below_the_threshold() {
    let tree = small_tree();
    assert_eq!(tree.insert(&point(&[0.4, 0.2])), vec![0, 1, 2]);
    assert_eq!(tree.insert(&point(&[0.4, 0.3])), vec![0, 1, 3]);
    assert_eq!(tree.insert(&point(&[0.6, 0.7])), vec![0, 4, 5]);
    assert_eq!(tree.insert(&point(&[0.6, 0.8])), vec![0, 4, 6]);
}

#[test]
fn insert_walks_right_on_the_threshold() {
    let tree = small_tree();
    assert_eq!(tree.insert(&point(&[0.5, 0.75])), vec![0, 4, 6]);
    assert_eq!(tree.insert(&point(&[0.49999999999999994, 0.25])), vec![0, 1, 3]);
}

#[test]
fn insert_walks_right_on_nan() {
    let tree = small_tree();
    assert_eq!(tree.insert(&point(&[f64::NAN, f64::NAN])), vec![0, 4, 6]);
    assert_eq!(tree.insert(&point(&[f64::NAN, 0.0])), vec![0, 4, 5]);
}

#[test]
fn insert_takes_points_outside_the_box() {
    let tree = small_tree();
    assert_eq!(tree.insert(&point(&[-7.0, f64::NEG_INFINITY])), vec![0, 1, 2]);
    assert_eq!(tree.insert(&point(&[7.0, f64::INFINITY])), vec![0, 4, 6]);
}

#[test]
fn the_sign_of_zero_does_not_count() {
    let tape = [split(0, 0.0), split(0, 0.5), split(0, 0.5)];
    let bounds = [((-1.0f64).to_bits(), 1.0f64.to_bits())];
    let tree = HalfSpaceTree::new(1, &bounds, &tape).unwrap();
    assert_eq!(tree.insert(&point(&[-0.0])), vec![0, 2]);
    assert_eq!(tree.insert(&point(&[0.0])), vec![0, 2]);
    assert_eq!(tree.insert(&point(&[-5e-324])), vec![0, 1]);
}

#[test]
fn insert_is_not_changed_by_being_asked() {
    let tree = small_tree();
    let x = point(&[0.2, 0.9]);
    let first = tree.insert(&x);
    assert_eq!(tree.insert(&x), first);
    assert_eq!(tree.insert(&x), first);
}

#[test]
fn score_reads_the_leaf_of_the_walk() {
    let tree = small_tree();
    for x in [[0.4, 0.2], [0.4, 0.3], [0.6, 0.7], [0.6, 0.8], [0.5, 0.25]] {
        let path = tree.insert(&point(&x));
        let leaf = tree.score(&point(&x));
        assert_eq!(leaf, Leaf { slot: *path.last().unwrap(), depth: 2 });
    }
    assert_eq!(tree.score(&point(&[0.6, 0.7])), Leaf { slot: 5, depth: 2 });
}

#[test]
fn walks_visit_one_node_on_each_level() {
    let depth = 6;
    let nodes = node_count(depth).unwrap();
    let tape: Vec<Split> =
        (0..nodes).map(|i| split(i % 3, ((i * 37) % 101) as f64 / 101.0)).collect();
    let tree = HalfSpaceTree::new(depth, &unit_box(3), &tape).unwrap();
    for k in 0..50 {
        let x = point(&[(k % 11) as f64 / 11.0, (k % 7) as f64 / 7.0, (k % 5) as f64 / 5.0]);
        let path = tree.insert(&x);
        assert_eq!(path.len(), depth as usize + 1);
        assert_eq!(path[0], 0);
        assert!(path.windows(2).all(|w| w[0] < w[1]));
        assert!(path.iter().all(|&slot| slot < nodes));
        let mut levels = depth;
        for w in path.windows(2) {
            let draw = tape[w[0]];
            let below = node_count(levels - 1).unwrap();
            let goes_left = f64::from_bits(x[draw.dim]) < f64::from_bits(draw.val);
            assert_eq!(w[1], if goes_left { w[0] + 1 } else { w[0] + 1 + below });
            levels -= 1;
        }
        assert_eq!(tree.score(&x).slot, *path.last().unwrap());
        assert_eq!(tree.score(&x).depth, depth);
    }
}

#[test]
fn tree_of_depth_zero_is_one_leaf() {
    let tree = HalfSpaceTree::new(0, &unit_box(1), &[split(0, 0.5)]).unwrap();
    assert_eq!(tree.node_count(), 1);
    assert_eq!(tree.insert(&point(&[0.1])), vec![0]);
    assert_eq!(tree.insert(&point(&[0.9])), vec![0]);
    assert_eq!(tree.score(&point(&[0.9])), Leaf { slot: 0, depth: 0 });
}

#[test]
fn new_turns_down_a_tape_of_the_wrong_length() {
    let draw = split(0, 0.5);
    assert_eq!(HalfSpaceTree::new(1, &unit_box(1), &[]).err(), Some(DrawError::Length));
    assert_eq!(HalfSpaceTree::new(1, &unit_box(1), &[draw; 2]).err(), Some(DrawError::Length));
    assert_eq!(HalfSpaceTree::new(1, &unit_box(1), &[draw; 4]).err(), Some(DrawError::Length));
    assert!(HalfSpaceTree::new(1, &unit_box(1), &[draw; 3]).is_ok());
    assert_eq!(HalfSpaceTree::new(200, &unit_box(1), &[draw; 3]).err(), Some(DrawError::Length));
}

#[test]
fn new_turns_down_a_draw_that_names_no_coordinate() {
    let tape = [split(0, 0.5), split(1, 0.5), split(2, 0.5)];
    assert_eq!(HalfSpaceTree::new(1, &unit_box(2), &tape).err(), Some(DrawError::Draw(2)));
    assert!(HalfSpaceTree::new(1, &unit_box(3), &tape).is_ok());
}

#[test]
fn new_turns_down_a_threshold_outside_the_bounds() {
    let bounds = [(0.0f64.to_bits(), 1.0f64.to_bits()), (2.0f64.to_bits(), 3.0f64.to_bits())];
    let good = [split(0, 0.5), split(1, 2.5), split(1, 2.0)];
    assert!(HalfSpaceTree::new(1, &bounds, &good).is_ok());
    let above = [split(0, 0.5), split(0, 2.5), split(1, 2.0)];
    assert_eq!(HalfSpaceTree::new(1, &bounds, &above).err(), Some(DrawError::Draw(1)));
    let below = [split(1, 1.9999999999999998), split(0, 0.5), split(1, 2.0)];
    assert_eq!(HalfSpaceTree::new(1, &bounds, &below).err(), Some(DrawError::Draw(0)));
    let nan = [split(0, 0.5), split(1, 2.5), split(1, f64::NAN)];
    assert_eq!(HalfSpaceTree::new(1, &bounds, &nan).err(), Some(DrawError::Draw(2)));
}

#[test]
fn new_reports_the_first_draw_that_does_not_fit() {
    let tape = [split(0, 0.5), split(0, 1.5), split(4, 0.5)];
    assert_eq!(HalfSpaceTree::new(1, &unit_box(1), &tape).err(), Some(DrawError::Draw(1)));
}

#[test]
fn new_checks_the_length_before_the_draws() {
    let tape = [split(9, 0.5), split(0, 0.5)];
    assert_eq!(HalfSpaceTree::new(1, &unit_box(1), &tape).err(), Some(DrawError::Length));
}

#[test]
fn new_accepts_a_threshold_on_either_bound() {
    let tape = [split(0, 0.0), split(0, 1.0), split(0, -0.0)];
    assert!(HalfSpaceTree::new(1, &unit_box(1), &tape).is_ok());
}

#[test]
fn forest_gives_each_tree_its_share_of_the_tape() {
    let first = [split(0, 0.5), split(0, 0.25), split(0, 0.75)];
    let second = [split(0, 0.2), split(0, 0.1), split(0, 0.9)];
    let tape: Vec<Split> = first.iter().chain(second.iter()).copied().collect();
    let forest = HalfSpaceTrees::new(2, 1, &unit_box(1), &tape).unwrap();
    assert_eq!(forest.n_trees(), 2);
    let x = point(&[0.3]);
    assert_eq!(forest.insert(&x), vec![vec![0, 1], vec![0, 2]]);
    assert_eq!(
        forest.score(&x),
        vec![Leaf { slot: 1, depth: 1 }, Leaf { slot: 2, depth: 1 }]
    );
    let one = HalfSpaceTree::new(1, &unit_box(1), &first).unwrap();
    let two = HalfSpaceTree::new(1, &unit_box(1), &second).unwrap();
    assert_eq!(forest.insert(&x), vec![one.insert(&x), two.insert(&x)]);
    assert_eq!(forest.tree(1).insert(&x), two.insert(&x));
    assert_eq!(forest.tree(0).max_depth(), 1);
}

#[test]
fn forest_of_one_tree_answers_as_the_tree() {
    let nodes = node_count(3).unwrap();
    let tape: Vec<Split> =
        (0..nodes).map(|i| split(i % 2, ((i * 13) % 17) as f64 / 17.0)).collect();
    let forest = HalfSpaceTrees::new(1, 3, &unit_box(2), &tape).unwrap();
    let tree = HalfSpaceTree::new(3, &unit_box(2), &tape).unwrap();
    for k in 0..20 {
        let x = point(&[(k % 5) as f64 / 5.0, (k % 4) as f64 / 4.0]);
        assert_eq!(forest.insert(&x), vec![tree.insert(&x)]);
        assert_eq!(forest.score(&x), vec![tree.score(&x)]);
    }
}

#[test]
fn forest_without_trees_takes_an_empty_tape() {
    let forest = HalfSpaceTrees::new(0, 5, &unit_box(2), &[]).unwrap();
    assert_eq!(forest.n_trees(), 0);
    assert_eq!(forest.insert(&point(&[0.1, 0.2])), Vec::<Vec<usize>>::new());
    assert_eq!(forest.score(&point(&[0.1, 0.2])), Vec::<Leaf>::new());
    assert!(HalfSpaceTrees::new(0, 200, &unit_box(2), &[]).is_ok());
    assert_eq!(
        HalfSpaceTrees::new(0, 5, &unit_box(2), &[split(0, 0.5)]).err(),
        Some(DrawError::Length)
    );
}

#[test]
fn forest_turns_down_a_tape_of_the_wrong_length() {
    let draw = split(0, 0.5);
    assert_eq!(HalfSpaceTrees::new(2, 1, &unit_box(1), &[draw; 5]).err(), Some(DrawError::Length));
    assert_eq!(HalfSpaceTrees::new(2, 1, &unit_box(1), &[draw; 7]).err(), Some(DrawError::Length));
    assert_eq!(HalfSpaceTrees::new(3, 200, &unit_box(1), &[draw; 3]).err(), Some(DrawError::Length));
    assert_eq!(
        HalfSpaceTrees::new(usize::MAX, 1, &unit_box(1), &[draw; 3]).err(),
        Some(DrawError::Length)
    );
    assert!(HalfSpaceTrees::new(2, 1, &unit_box(1), &[draw; 6]).is_ok());
}

#[test]
fn forest_reports_the_first_misfit_by_its_place_on_the_tape() {
    let mut tape = vec![split(0, 0.5); 9];
    tape[7] = split(0, 1.5);
    tape[8] = split(3, 0.5);
    assert_eq!(HalfSpaceTrees::new(3, 1, &unit_box(1), &tape).err(), Some(DrawError::Draw(7)));
    tape[2] = split(1, 0.5);
    assert_eq!(HalfSpaceTrees::new(3, 1, &unit_box(1), &tape).err(), Some(DrawError::Draw(2)));
}

#[test]
fn a_box_is_proper_when_every_coordinate_has_room() {
    let pair = |lo: f64, hi: f64| (lo.to_bits(), hi.to_bits());
    assert!(is_proper(&[pair(0.0, 1.0)]));
    assert!(is_proper(&[pair(-1.0, 1.0), pair(-3.0, -2.0), pair(0.0, 5e-324)]));
    assert!(is_proper(&[pair(f64::NEG_INFINITY, f64::INFINITY)]));
    assert!(!is_proper(&[]));
    assert!(!is_proper(&[pair(1.0, 1.0)]));
    assert!(!is_proper(&[pair(0.0, 1.0), pair(2.0, 1.0)]));
    assert!(!is_proper(&[pair(-0.0, 0.0)]));
    assert!(!is_proper(&[pair(0.0, f64::NAN)]));
    assert!(!is_proper(&[pair(f64::NAN, 1.0), pair(0.0, 1.0)]));
}
