use kv_3d_storage::{assert_tree_works, ControlNode, Point3d, U8FixedWidth, U8VariableWidth};

type Fixed = Point3d<U8FixedWidth, U8FixedWidth, U8FixedWidth>;
type CountingTree = ControlNode<U8FixedWidth, U8FixedWidth, U8FixedWidth, u8, usize>;

fn point(x: u8, y: u8, z: u8) -> Fixed {
    Point3d { x: U8FixedWidth(x), y: U8FixedWidth(y), z: U8FixedWidth(z) }
}

fn leaf(key: Fixed, rank: u8, value: u8) -> CountingTree {
    ControlNode::NonEmpty {
        key,
        rank,
        left: Box::new(ControlNode::Empty),
        right: Box::new(ControlNode::Empty),
        value,
        count: 1,
        summary: 1,
    }
}

/// A small deterministic generator of numbers.
struct Numbers(u64);

impl Numbers {
    fn next(&mut self) -> u64 {
        self.0 = self.0.wrapping_mul(6364136223846793005).wrapping_add(1442695040888963407);
        self.0 >> 33
    }
}

/// `n` different points with generated values and ranks.
fn generated_items(seed: u64, n: usize) -> Vec<(Fixed, u8, u8)> {
    let mut numbers = Numbers(seed);
    let mut seen = std::collections::HashSet::new();
    let mut items = Vec::new();
    while items.len() < n {
        let r = numbers.next();
        let coordinates = (r as u8, (r >> 8) as u8, (r >> 16) as u8);
        if seen.insert(coordinates) {
            let more = numbers.next();
            items.push((point(coordinates.0, coordinates.1, coordinates.2), more as u8, (more >> 8) as u8));
        }
    }
    items
}

/// Count the vertices of a tree, and check the count and the summary that
/// each vertex holds against the number of vertices in its subtree.
fn tally(tree: &CountingTree) -> usize {
    match tree {
        ControlNode::Empty => 0,
        ControlNode::NonEmpty { left, right, count, summary, .. } => {
            let below = tally(left) + tally(right);
            assert_eq!(*count, below + 1);
            assert_eq!(*summary, below + 1);
            below + 1
        }
    }
}

#[test]
fn empty_input_gives_the_empty_tree() {
    let tree = CountingTree::from_iter(Vec::new());
    assert_eq!(tree, ControlNode::Empty);
    assert!(tree.assert_tree_invariants());
}

#[test]
fn two_points_with_ranks_two_and_one() {
    let tree = CountingTree::from_iter(vec![(point(0, 0, 0), 10, 2), (point(1, 0, 0), 11, 1)]);
    assert!(tree.assert_tree_invariants());
    // The vertex of rank 2 is the root. It compares by xyz, under which
    // (0, 0, 0) comes before (1, 0, 0): the other vertex is its right child.
    let expected: CountingTree = ControlNode::NonEmpty {
        key: point(0, 0, 0),
        rank: 2,
        left: Box::new(ControlNode::Empty),
        right: Box::new(leaf(point(1, 0, 0), 1, 11)),
        value: 10,
        count: 2,
        summary: 2,
    };
    assert_eq!(tree, expected);
}

#[test]
fn lower_point_of_lower_rank_becomes_the_left_child() {
    let tree = CountingTree::from_iter(vec![(point(0, 0, 0), 11, 1), (point(1, 0, 0), 10, 2)]);
    assert!(tree.assert_tree_invariants());
    let expected: CountingTree = ControlNode::NonEmpty {
        key: point(1, 0, 0),
        rank: 2,
        left: Box::new(leaf(point(0, 0, 0), 1, 11)),
        right: Box::new(ControlNode::Empty),
        value: 10,
        count: 2,
        summary: 2,
    };
    assert_eq!(tree, expected);
}

#[test]
fn rank_selects_the_ordering_at_each_vertex() {
    // The root has rank 1 and compares by yzx: (9, 0, 0) comes before
    // (0, 5, 0) there, though it comes after it by xyz.
    let tree = CountingTree::from_iter(vec![(point(0, 5, 0), 0, 1), (point(9, 0, 0), 0, 0)]);
    match &tree {
        ControlNode::NonEmpty { key, left, right, .. } => {
            assert_eq!(*key, point(0, 5, 0));
            assert_eq!(**left, leaf(point(9, 0, 0), 0, 0));
            assert_eq!(**right, ControlNode::Empty);
        }
        ControlNode::Empty => panic!("the tree holds two points"),
    }
    // With rank 3 the root compares by zxy, and by x where z is equal.
    let tree = CountingTree::from_iter(vec![(point(0, 5, 0), 0, 3), (point(9, 0, 0), 0, 0)]);
    match &tree {
        ControlNode::NonEmpty { left, right, .. } => {
            assert_eq!(**left, ControlNode::Empty);
            assert_eq!(**right, leaf(point(9, 0, 0), 0, 0));
        }
        ControlNode::Empty => panic!("the tree holds two points"),
    }
}

#[test]
fn equal_ranks_chain_to_the_right() {
    let tree = CountingTree::from_iter(vec![
        (point(3, 0, 0), 0, 2),
        (point(1, 0, 0), 0, 2),
        (point(2, 0, 0), 0, 2),
    ]);
    assert!(tree.assert_tree_invariants());
    let expected: CountingTree = ControlNode::NonEmpty {
        key: point(1, 0, 0),
        rank: 2,
        left: Box::new(ControlNode::Empty),
        right: Box::new(ControlNode::NonEmpty {
            key: point(2, 0, 0),
            rank: 2,
            left: Box::new(ControlNode::Empty),
            right: Box::new(leaf(point(3, 0, 0), 2, 0)),
            value: 0,
            count: 2,
            summary: 2,
        }),
        value: 0,
        count: 3,
        summary: 3,
    };
    assert_eq!(tree, expected);
}

#[test]
fn first_occurrence_of_a_point_counts() {
    let tree = CountingTree::from_iter(vec![
        (point(1, 1, 1), 7, 4),
        (point(2, 2, 2), 8, 9),
        (point(1, 1, 1), 9, 200),
    ]);
    let expected = CountingTree::from_iter(vec![(point(1, 1, 1), 7, 4), (point(2, 2, 2), 8, 9)]);
    assert_eq!(tree, expected);
    assert_eq!(tally(&tree), 2);
}

#[test]
fn any_order_of_the_input_gives_the_same_tree() {
    let items = generated_items(11, 300);
    let tree = CountingTree::from_iter(items.clone());
    let mut reversed = items.clone();
    reversed.reverse();
    assert_eq!(CountingTree::from_iter(reversed), tree);
    let mut rotated = items.clone();
    rotated.rotate_left(97);
    assert_eq!(CountingTree::from_iter(rotated), tree);
    let mut sorted = items.clone();
    sorted.sort_by_key(|(p, _, _)| (p.z.0, p.y.0, p.x.0));
    assert_eq!(CountingTree::from_iter(sorted), tree);
    assert_eq!(CountingTree::from_iter(items), tree);
}

#[test]
fn thousands_of_points_give_a_valid_tree() {
    let items = generated_items(3, 3000);
    let tree = CountingTree::from_iter(items);
    assert!(tree.assert_tree_invariants());
    assert_eq!(tally(&tree), 3000);
    match tree {
        ControlNode::Empty => panic!("the tree holds 3000 points"),
        ControlNode::NonEmpty { count, summary, .. } => {
            assert_eq!(count, 3000);
            assert_eq!(summary, 3000);
        }
    }
}

#[test]
fn library_check_of_construction_passes() {
    assert!(assert_tree_works::<U8FixedWidth, U8FixedWidth, U8FixedWidth, u8>(Vec::new()));
    assert!(assert_tree_works(vec![(point(0, 0, 0), 10u8, 2), (point(1, 0, 0), 11, 1)]));
    for seed in 0..20 {
        assert!(assert_tree_works(generated_items(seed, 200)));
    }
}

#[test]
fn trees_of_every_small_size_are_valid() {
    for n in 0..60 {
        let items = generated_items(100 + n as u64, n);
        let tree = CountingTree::from_iter(items);
        assert!(tree.assert_tree_invariants());
        assert_eq!(tally(&tree), n);
    }
}

#[test]
fn variable_width_dimensions_give_a_valid_tree() {
    let mut numbers = Numbers(5);
    let mut items = Vec::new();
    for x in 0..6u8 {
        for y in 0..6u8 {
            for z in 0..6u8 {
                let p = Point3d { x: U8VariableWidth(x * 40), y: U8FixedWidth(y), z: U8VariableWidth(z) };
                items.push((p, (), numbers.next() as u8));
            }
        }
    }
    let tree: ControlNode<U8VariableWidth, U8FixedWidth, U8VariableWidth, (), ()> =
        ControlNode::from_iter(items);
    assert!(tree.assert_tree_invariants());
    match tree {
        ControlNode::Empty => panic!("the tree holds 216 points"),
        ControlNode::NonEmpty { count, summary, .. } => {
            assert_eq!(count, 216);
            assert_eq!(summary, ());
        }
    }
}

#[test]
fn check_rejects_a_left_child_of_equal_rank() {
    let tree: CountingTree = ControlNode::NonEmpty {
        key: point(5, 0, 0),
        rank: 2,
        left: Box::new(leaf(point(1, 0, 0), 2, 0)),
        right: Box::new(ControlNode::Empty),
        value: 0,
        count: 2,
        summary: 2,
    };
    assert!(!tree.assert_tree_invariants());
}

#[test]
fn check_accepts_a_right_child_of_equal_rank() {
    let tree: CountingTree = ControlNode::NonEmpty {
        key: point(5, 0, 0),
        rank: 2,
        left: Box::new(ControlNode::Empty),
        right: Box::new(leaf(point(6, 0, 0), 2, 0)),
        value: 0,
        count: 2,
        summary: 2,
    };
    assert!(tree.assert_tree_invariants());
}

#[test]
fn check_rejects_a_right_child_of_higher_rank() {
    let tree: CountingTree = ControlNode::NonEmpty {
        key: point(5, 0, 0),
        rank: 2,
        left: Box::new(ControlNode::Empty),
        right: Box::new(leaf(point(6, 0, 0), 3, 0)),
        value: 0,
        count: 2,
        summary: 2,
    };
    assert!(!tree.assert_tree_invariants());
}

#[test]
fn check_rejects_a_child_on_the_wrong_side() {
    // By yzx, the ordering of rank 1, (0, 5, 0) comes after (9, 0, 0).
    let tree: CountingTree = ControlNode::NonEmpty {
        key: point(9, 0, 0),
        rank: 1,
        left: Box::new(leaf(point(0, 5, 0), 0, 0)),
        right: Box::new(ControlNode::Empty),
        value: 0,
        count: 2,
        summary: 2,
    };
    assert!(!tree.assert_tree_invariants());
    let tree: CountingTree = ControlNode::NonEmpty {
        key: point(9, 0, 0),
        rank: 1,
        left: Box::new(ControlNode::Empty),
        right: Box::new(leaf(point(0, 5, 0), 0, 0)),
        value: 0,
        count: 2,
        summary: 2,
    };
    assert!(tree.assert_tree_invariants());
}

#[test]
fn check_rejects_a_misplaced_grandchild() {
    // The grandchild (7, 0, 0) sits in the left subtree of (5, 0, 0), to
    // the right of (3, 0, 0): each child is on the right side of its own
    // parent, but the grandchild is on the wrong side of the root.
    let tree: CountingTree = ControlNode::NonEmpty {
        key: point(5, 0, 0),
        rank: 8,
        left: Box::new(ControlNode::NonEmpty {
            key: point(3, 0, 0),
            rank: 5,
            left: Box::new(ControlNode::Empty),
            right: Box::new(leaf(point(7, 0, 0), 2, 0)),
            value: 0,
            count: 2,
            summary: 2,
        }),
        right: Box::new(ControlNode::Empty),
        value: 0,
        count: 3,
        summary: 3,
    };
    assert!(!tree.assert_tree_invariants());
}
