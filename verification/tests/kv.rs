use std::collections::BTreeMap;
use std::ops::Bound;

use kv_3d_storage::{
    cmp_points_at_rank, find_left_child, find_right_child, left_child_bound, right_child_bound,
    store_tree, vertex_key, BackEnd, ControlNode, KvValue, Point3d, U8FixedWidth,
    U8VariableWidth, NO_CHILD,
};

type Fixed = Point3d<U8FixedWidth, U8FixedWidth, U8FixedWidth>;
type CountingTree = ControlNode<U8FixedWidth, U8FixedWidth, U8FixedWidth, u8, usize>;
type Entry = KvValue<u8, usize>;

fn point(x: u8, y: u8, z: u8) -> Fixed {
    Point3d { x: U8FixedWidth(x), y: U8FixedWidth(y), z: U8FixedWidth(z) }
}

/// A backend in memory.
struct MapStore<V> {
    map: BTreeMap<Vec<u8>, V>,
}

impl<V: Clone> BackEnd<V> for MapStore<V> {
    type Error = ();

    fn insert(&mut self, key: &[u8], value: V) -> Result<Option<V>, ()> {
        Ok(self.map.insert(key.to_vec(), value))
    }

    fn delete(&mut self, key: &[u8]) -> Result<Option<V>, ()> {
        Ok(self.map.remove(key))
    }

    fn flush(&mut self) -> Result<(), ()> {
        Ok(())
    }

    fn get(&self, key: &[u8]) -> Result<Option<V>, ()> {
        Ok(self.map.get(key).cloned())
    }

    fn find_lte<'a>(&'a self, key: &[u8]) -> Result<Option<(&'a [u8], V)>, ()> {
        let found = self.map.range::<[u8], _>((Bound::Unbounded, Bound::Included(key))).next_back();
        Ok(found.map(|(k, v)| (k.as_slice(), v.clone())))
    }

    fn find_gte<'a>(&'a self, key: &[u8]) -> Result<Option<(&'a [u8], V)>, ()> {
        let found = self.map.range::<[u8], _>((Bound::Included(key), Bound::Unbounded)).next();
        Ok(found.map(|(k, v)| (k.as_slice(), v.clone())))
    }
}

/// A backend that fails.
struct Broken;

impl BackEnd<Entry> for Broken {
    type Error = u32;

    fn insert(&mut self, _key: &[u8], _value: Entry) -> Result<Option<Entry>, u32> {
        Err(1)
    }

    fn delete(&mut self, _key: &[u8]) -> Result<Option<Entry>, u32> {
        Err(2)
    }

    fn flush(&mut self) -> Result<(), u32> {
        Err(3)
    }

    fn get(&self, _key: &[u8]) -> Result<Option<Entry>, u32> {
        Err(4)
    }

    fn find_lte<'a>(&'a self, _key: &[u8]) -> Result<Option<(&'a [u8], Entry)>, u32> {
        Err(5)
    }

    fn find_gte<'a>(&'a self, _key: &[u8]) -> Result<Option<(&'a [u8], Entry)>, u32> {
        Err(6)
    }
}

fn store_of(items: Vec<(Fixed, u8, u8)>) -> MapStore<Entry> {
    let mut store = MapStore { map: BTreeMap::new() };
    assert_eq!(store_tree(&mut store, CountingTree::from_iter(items)), Ok(()));
    store
}

/// What each vertex of a tree has for children: its point and rank, with the
/// point and rank of its left child and of its right child.
type Family = (Fixed, u8, Option<(Fixed, u8)>, Option<(Fixed, u8)>);

fn root_of(tree: &CountingTree) -> Option<(Fixed, u8)> {
    match tree {
        ControlNode::Empty => None,
        ControlNode::NonEmpty { key, rank, .. } => Some((*key, *rank)),
    }
}

fn families(tree: &CountingTree, out: &mut Vec<Family>) {
    if let ControlNode::NonEmpty { key, rank, left, right, .. } = tree {
        out.push((*key, *rank, root_of(left), root_of(right)));
        families(left, out);
        families(right, out);
    }
}

/// A small deterministic generator of numbers.
struct Numbers(u64);

impl Numbers {
    fn next(&mut self) -> u64 {
        self.0 = self.0.wrapping_mul(6364136223846793005).wrapping_add(1442695040888963407);
        self.0 >> 33
    }
}

fn generated_items(seed: u64, n: usize, spread: u8, ranks: u8) -> Vec<(Fixed, u8, u8)> {
    let mut numbers = Numbers(seed);
    let mut seen = std::collections::HashSet::new();
    let mut items = Vec::new();
    while items.len() < n {
        let r = numbers.next();
        let c = ((r as u8) % spread, ((r >> 8) as u8) % spread, ((r >> 16) as u8) % spread);
        if seen.insert(c) {
            let more = numbers.next();
            items.push((point(c.0, c.1, c.2), more as u8, ((more >> 8) as u8) % ranks));
        }
    }
    items
}

#[test]
fn key_is_rank_and_encoding_for_the_ordering_of_the_rank() {
    let p = point(1, 2, 3);
    assert_eq!(vertex_key(&p, 2), vec![2, 1, 2, 3]);
    assert_eq!(vertex_key(&p, 1), vec![1, 2, 3, 1]);
    assert_eq!(vertex_key(&p, 0), vec![0, 3, 1, 2]);
    assert_eq!(vertex_key(&p, 5), vec![5, 1, 2, 3]);
    assert_eq!(vertex_key(&p, 255), vec![255, 3, 1, 2]);
    assert_eq!(vertex_key(&p, 254), vec![254, 1, 2, 3]);
}

#[test]
fn key_of_a_point_with_variable_width_dimensions() {
    let p = Point3d { x: U8VariableWidth(1), y: U8FixedWidth(7), z: U8VariableWidth(0) };
    assert_eq!(vertex_key(&p, 2), vec![2, 2, 1, 0, 0, 7, 1]);
    assert_eq!(vertex_key(&p, 1), vec![1, 7, 1, 0, 0, 2, 1]);
    assert_eq!(vertex_key(&p, 0), vec![0, 1, 0, 0, 2, 1, 0, 0, 7]);
}

#[test]
fn entries_of_a_tree_of_two() {
    let tree = CountingTree::from_iter(vec![(point(0, 0, 0), 10, 2), (point(1, 0, 0), 11, 1)]);
    assert!(tree.check_storable());
    assert_eq!(tree.root_rank(), 2);
    let entries = tree.into_kv_entries();
    assert_eq!(
        entries,
        vec![
            (
                vec![2, 0, 0, 0],
                KvValue { rank: 2, value: 10, summary: 2, left_rank: NO_CHILD, right_rank: 1 },
            ),
            (
                vec![1, 0, 0, 1],
                KvValue { rank: 1, value: 11, summary: 1, left_rank: NO_CHILD, right_rank: NO_CHILD },
            ),
        ]
    );
}

#[test]
fn entries_come_root_first_then_left_then_right() {
    let tree = CountingTree::from_iter(vec![
        (point(5, 0, 0), 0, 8),
        (point(3, 0, 0), 1, 5),
        (point(7, 0, 0), 2, 2),
    ]);
    let entries = tree.into_kv_entries();
    assert_eq!(
        entries,
        vec![
            (vec![8, 5, 0, 0], KvValue { rank: 8, value: 0, summary: 3, left_rank: 5, right_rank: 2 }),
            (
                vec![5, 3, 0, 0],
                KvValue { rank: 5, value: 1, summary: 1, left_rank: NO_CHILD, right_rank: NO_CHILD },
            ),
            (
                vec![2, 7, 0, 0],
                KvValue { rank: 2, value: 2, summary: 1, left_rank: NO_CHILD, right_rank: NO_CHILD },
            ),
        ]
    );
}

#[test]
fn the_empty_tree_has_no_entries() {
    let tree = CountingTree::from_iter(Vec::new());
    assert_eq!(tree.root_rank(), NO_CHILD);
    assert!(tree.check_storable());
    assert_eq!(tree.into_kv_entries(), Vec::new());
}

#[test]
fn a_vertex_of_the_reserved_rank_is_not_storable() {
    let tree = CountingTree::from_iter(vec![(point(0, 0, 0), 0, 255), (point(1, 0, 0), 0, 3)]);
    assert!(!tree.check_storable());
    let tree = CountingTree::from_iter(vec![(point(0, 0, 0), 0, 254), (point(1, 0, 0), 0, 3)]);
    assert!(tree.check_storable());
}

#[test]
fn every_vertex_gets_one_entry() {
    let items = generated_items(21, 500, 16, 255);
    let store = store_of(items.clone());
    assert_eq!(store.map.len(), 500);
    for (p, value, rank) in items {
        let found = store.get(&vertex_key(&p, rank)).unwrap().unwrap();
        assert_eq!(found.rank, rank);
        assert_eq!(found.value, value);
    }
}

#[test]
fn keys_sort_by_rank_and_then_as_the_points_do() {
    let items = generated_items(8, 400, 8, 12);
    let mut by_key = items.clone();
    by_key.sort_by_key(|(p, _, rank)| vertex_key(p, *rank));
    let mut by_order = items.clone();
    by_order.sort_by(|(p, _, rp), (q, _, rq)| rp.cmp(rq).then(cmp_points_at_rank(*rp, p, q)));
    assert_eq!(by_key, by_order);
}

#[test]
fn bounds_for_the_children() {
    let p = point(1, 2, 3);
    let entry: Entry = KvValue { rank: 7, value: 0, summary: 3, left_rank: 4, right_rank: 6 };
    assert_eq!(left_child_bound(&p, &entry), Some(vec![4, 2, 3, 1]));
    assert_eq!(right_child_bound(&p, &entry), Some(vec![6, 3, 1, 2, 0]));
    let entry: Entry =
        KvValue { rank: 7, value: 0, summary: 1, left_rank: NO_CHILD, right_rank: NO_CHILD };
    assert_eq!(left_child_bound(&p, &entry), None);
    assert_eq!(right_child_bound(&p, &entry), None);
}

#[test]
fn children_are_found_in_a_tree_of_three() {
    let store = store_of(vec![(point(5, 0, 0), 0, 8), (point(3, 0, 0), 1, 5), (point(7, 0, 0), 2, 2)]);
    let root = store.get(&[8, 5, 0, 0]).unwrap().unwrap();
    let (key, left) = find_left_child(&store, &point(5, 0, 0), &root).unwrap().unwrap();
    assert_eq!(key, &[5, 3, 0, 0]);
    assert_eq!(left.value, 1);
    let (key, right) = find_right_child(&store, &point(5, 0, 0), &root).unwrap().unwrap();
    assert_eq!(key, &[2, 7, 0, 0]);
    assert_eq!(right.value, 2);
    assert_eq!(find_left_child(&store, &point(3, 0, 0), &left), Ok(None));
    assert_eq!(find_right_child(&store, &point(7, 0, 0), &right), Ok(None));
}

#[test]
fn right_child_of_equal_rank_is_found_behind_its_parent() {
    // The bound of the look-up is the key of the parent itself.
    let store = store_of(vec![(point(1, 0, 0), 0, 2), (point(2, 0, 0), 1, 2)]);
    let root = store.get(&[2, 1, 0, 0]).unwrap().unwrap();
    assert_eq!(root.right_rank, 2);
    let (key, right) = find_right_child(&store, &point(1, 0, 0), &root).unwrap().unwrap();
    assert_eq!(key, &[2, 2, 0, 0]);
    assert_eq!(right.value, 1);
}

#[test]
fn children_are_found_along_one_axis_with_distinct_ranks() {
    let mut numbers = Numbers(4);
    let mut ranks: Vec<u8> = (0..200).collect();
    for i in (1..ranks.len()).rev() {
        ranks.swap(i, (numbers.next() as usize) % (i + 1));
    }
    let items: Vec<(Fixed, u8, u8)> =
        ranks.iter().enumerate().map(|(i, rank)| (point(i as u8, 0, 0), i as u8, *rank)).collect();
    let tree = CountingTree::from_iter(items.clone());
    let mut all = Vec::new();
    families(&tree, &mut all);
    assert_eq!(all.len(), 200);
    let store = store_of(items);
    for (p, rank, left, right) in all {
        let entry = store.get(&vertex_key(&p, rank)).unwrap().unwrap();
        let found = find_left_child(&store, &p, &entry).unwrap();
        assert_eq!(found.map(|(k, _)| k.to_vec()), left.map(|(q, r)| vertex_key(&q, r)));
        let found = find_right_child(&store, &p, &entry).unwrap();
        assert_eq!(found.map(|(k, _)| k.to_vec()), right.map(|(q, r)| vertex_key(&q, r)));
    }
}

#[test]
fn left_child_that_follows_its_parent_in_its_own_ordering_is_not_found() {
    // The root compares by xyz and has (3, 9, 0) to its left. The child has
    // rank 1, and by yzx it comes after the root: the key below which it is
    // looked up comes before its own key.
    let items = vec![(point(5, 0, 0), 0, 2), (point(3, 9, 0), 1, 1)];
    let tree = CountingTree::from_iter(items.clone());
    let mut all = Vec::new();
    families(&tree, &mut all);
    assert_eq!(all[0], (point(5, 0, 0), 2, Some((point(3, 9, 0), 1)), None));
    let store = store_of(items);
    let root = store.get(&[2, 5, 0, 0]).unwrap().unwrap();
    assert_eq!(root.left_rank, 1);
    assert_eq!(find_left_child(&store, &point(5, 0, 0), &root), Ok(None));
}

#[test]
fn a_child_is_found_exactly_when_it_is_the_nearest_of_its_rank() {
    for seed in 0..20 {
        let items = generated_items(seed, 120, 6, 9);
        let tree = CountingTree::from_iter(items.clone());
        let mut all = Vec::new();
        families(&tree, &mut all);
        let store = store_of(items.clone());
        let before = |rank: u8, p: &Fixed, q: &Fixed| {
            cmp_points_at_rank(rank, p, q) == core::cmp::Ordering::Less
        };
        for (p, rank, left, right) in all {
            let entry = store.get(&vertex_key(&p, rank)).unwrap().unwrap();
            if let Some((child, cr)) = left {
                let near = before(cr, &child, &p)
                    && !items.iter().any(|(q, _, rq)| {
                        *rq == cr && before(cr, &child, q) && before(cr, q, &p)
                    });
                let found = find_left_child(&store, &p, &entry).unwrap();
                let hit = found.map(|(k, _)| k.to_vec()) == Some(vertex_key(&child, cr));
                assert_eq!(hit, near);
            }
            if let Some((child, cr)) = right {
                let near = before(cr, &p, &child)
                    && !items.iter().any(|(q, _, rq)| {
                        *rq == cr && before(cr, &p, q) && before(cr, q, &child)
                    });
                let found = find_right_child(&store, &p, &entry).unwrap();
                let hit = found.map(|(k, _)| k.to_vec()) == Some(vertex_key(&child, cr));
                assert_eq!(hit, near);
            }
        }
    }
}

#[test]
fn loading_puts_every_entry_into_the_store() {
    let items = vec![(point(5, 0, 0), 0, 8), (point(3, 0, 0), 1, 5), (point(7, 0, 0), 2, 2)];
    let mut store = MapStore { map: BTreeMap::new() };
    assert_eq!(store.insert(&[9], KvValue { rank: 0, value: 0, summary: 0, left_rank: 0, right_rank: 0 }), Ok(None));
    assert_eq!(store_tree(&mut store, CountingTree::from_iter(items.clone())), Ok(()));
    let mut expected: BTreeMap<Vec<u8>, Entry> =
        CountingTree::from_iter(items).into_kv_entries().into_iter().collect();
    expected.insert(vec![9], KvValue { rank: 0, value: 0, summary: 0, left_rank: 0, right_rank: 0 });
    assert_eq!(store.map, expected);
    assert_eq!(store.map.len(), 4);
}

#[test]
fn loading_stops_at_the_first_error() {
    let items = vec![(point(5, 0, 0), 0, 8), (point(3, 0, 0), 1, 5)];
    assert_eq!(store_tree(&mut Broken, CountingTree::from_iter(items)), Err(1));
    // Nothing is inserted for the empty tree, and the flush fails.
    assert_eq!(store_tree(&mut Broken, CountingTree::from_iter(Vec::new())), Err(3));
}

#[test]
fn errors_of_the_backend_are_handed_on() {
    let entry: Entry = KvValue { rank: 7, value: 0, summary: 3, left_rank: 4, right_rank: 6 };
    assert_eq!(find_left_child(&Broken, &point(1, 2, 3), &entry), Err(5));
    assert_eq!(find_right_child(&Broken, &point(1, 2, 3), &entry), Err(6));
    let entry: Entry =
        KvValue { rank: 7, value: 0, summary: 1, left_rank: NO_CHILD, right_rank: NO_CHILD };
    assert_eq!(find_left_child(&Broken, &point(1, 2, 3), &entry), Ok(None));
    assert_eq!(find_right_child(&Broken, &point(1, 2, 3), &entry), Ok(None));
}
