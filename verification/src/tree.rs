//! The 3d-ish zip-tree: a binary search tree over ranked points in which the
//! rank of a vertex selects the ordering that separates its two subtrees.

use crate::monoid::LiftingCommutativeMonoid;
use crate::point::{Point3d, Rotation};
use crate::dimension::Dimension;
use crate::schedule::{
    entries_of, has_distinct_points, is_schedule, lemma_entries_of_len, lemma_schedule_distinct,
    lemma_schedule_insert, lemma_schedule_lacks, lemma_schedule_remove, position_of, slot_for,
};
use crate::tree_laws::ranked_before;
use core::cmp::Ordering;
use vstd::prelude::*;

verus! {

/// An in-memory 3d-ish zip-tree.
///
/// X, Y, Z are the three dimensions.
/// V is the type of values to which the points are mapped.
/// M is the monoid for summarizing information about the point-value pairs.
#[derive(Debug, PartialEq, Eq)]
pub enum ControlNode<X, Y, Z, V, M> where
    X: Dimension,
    Y: Dimension,
    Z: Dimension,
    M: LiftingCommutativeMonoid<(Point3d<X, Y, Z>, V)>,
 {
    Empty,
    NonEmpty {
        key: Point3d<X, Y, Z>,
        rank: u8,
        left: Box<ControlNode<X, Y, Z, V, M>>,
        right: Box<ControlNode<X, Y, Z, V, M>>,
        value: V,
        /// Total number of vertices in the tree rooted at this vertex.
        count: usize,
        /// Accumulated monoidal value over the tree rooted at this vertex.
        summary: M,
    },
}

impl<X, Y, Z, V, M> ControlNode<X, Y, Z, V, M> where
    X: Dimension,
    Y: Dimension,
    Z: Dimension,
    M: LiftingCommutativeMonoid<(Point3d<X, Y, Z>, V)>,
 {
    /// What the tree holds: each point with its value and its rank.
    pub open spec fn entries(self) -> Map<Point3d<X, Y, Z>, (V, u8)>
        decreases self,
    {
        match self {
            ControlNode::Empty => Map::empty(),
            ControlNode::NonEmpty { key, rank, left, right, value, .. } => left.entries().union_prefer_right(
                right.entries(),
            ).insert(key, (value, rank)),
        }
    }

    /// The number of vertices that the root says the tree has.
    pub open spec fn count_of(self) -> usize {
        match self {
            ControlNode::Empty => 0,
            ControlNode::NonEmpty { count, .. } => count,
        }
    }

    /// The summary that the root gives of the tree.
    pub open spec fn summary_of(self) -> M {
        match self {
            ControlNode::Empty => M::NEUTRAL,
            ControlNode::NonEmpty { summary, .. } => summary,
        }
    }

    /// The left subtree of the root; the empty tree has none but itself.
    pub open spec fn left_subtree(self) -> Self {
        match self {
            ControlNode::Empty => ControlNode::Empty,
            ControlNode::NonEmpty { left, .. } => *left,
        }
    }

    /// The right subtree of the root; the empty tree has none but itself.
    pub open spec fn right_subtree(self) -> Self {
        match self {
            ControlNode::Empty => ControlNode::Empty,
            ControlNode::NonEmpty { right, .. } => *right,
        }
    }

    /// The root of the tree, if it has one, has a rank below `bound`.
    pub open spec fn ranked_below(self, bound: u8) -> bool {
        match self {
            ControlNode::Empty => true,
            ControlNode::NonEmpty { rank, .. } => rank < bound,
        }
    }

    /// The root of the tree, if it has one, has a rank of at most `bound`.
    pub open spec fn ranked_at_most(self, bound: u8) -> bool {
        match self {
            ControlNode::Empty => true,
            ControlNode::NonEmpty { rank, .. } => rank <= bound,
        }
    }

    /// The tree is a 3d-ish zip-tree. At every vertex, the left child has a
    /// lower rank and the right child has no higher rank, and in the ordering
    /// that the rank of the vertex selects, every point of the left subtree
    /// comes before the point of the vertex, and every point of the right
    /// subtree comes after it.
    pub open spec fn is_zip_tree(self) -> bool
        decreases self,
    {
        match self {
            ControlNode::Empty => true,
            ControlNode::NonEmpty { key, rank, left, right, .. } => {
                &&& left.is_zip_tree()
                &&& right.is_zip_tree()
                &&& left.ranked_below(rank)
                &&& right.ranked_at_most(rank)
                &&& forall|p: Point3d<X, Y, Z>| #[trigger]
                    left.entries().contains_key(p) ==> p.precedes(Rotation::of_rank(rank), &key)
                &&& forall|p: Point3d<X, Y, Z>| #[trigger]
                    right.entries().contains_key(p) ==> key.precedes(Rotation::of_rank(rank), &p)
            },
        }
    }

    /// Every vertex counts and summarises its subtree: its count is one more
    /// than the counts of its two subtrees, and its summary combines what its
    /// own point and value lift to with the summaries of its two subtrees.
    pub open spec fn is_summarized(self) -> bool
        decreases self,
    {
        match self {
            ControlNode::Empty => true,
            ControlNode::NonEmpty { key, left, right, value, count, summary, .. } => {
                &&& left.is_summarized()
                &&& right.is_summarized()
                &&& count == 1 + left.count_of() + right.count_of()
                &&& summary == M::combined(
                    &M::lifted(&(key, value)),
                    &M::combined(&left.summary_of(), &right.summary_of()),
                )
            },
        }
    }

    /// The tree is a 3d-ish zip-tree whose vertices count and summarise their
    /// subtrees.
    pub open spec fn well_formed(self) -> bool {
        self.is_zip_tree() && self.is_summarized()
    }

    /// The tree after `point` has been added as a leaf where a search for it
    /// ends, with every vertex on the way counting and summarising it.
    pub open spec fn inserted(self, point: Point3d<X, Y, Z>, value: V, rank: u8) -> Self
        decreases self,
    {
        match self {
            ControlNode::Empty => ControlNode::NonEmpty {
                key: point,
                rank: rank,
                left: Box::new(ControlNode::Empty),
                right: Box::new(ControlNode::Empty),
                value: value,
                count: 1,
                summary: M::lifted(&(point, value)),
            },
            ControlNode::NonEmpty { key, rank: own, left, right, value: held, count, summary } => {
                let grown = next_count(count);
                let total = M::combined(&summary, &M::lifted(&(point, value)));
                if key.precedes(Rotation::of_rank(own), &point) {
                    ControlNode::NonEmpty {
                        key: key,
                        rank: own,
                        left: left,
                        right: Box::new(right.inserted(point, value, rank)),
                        value: held,
                        count: grown,
                        summary: total,
                    }
                } else {
                    ControlNode::NonEmpty {
                        key: key,
                        rank: own,
                        left: Box::new(left.inserted(point, value, rank)),
                        right: right,
                        value: held,
                        count: grown,
                        summary: total,
                    }
                }
            },
        }
    }

    /// Create a tree from points, associated values, and desired ranks.
    ///
    /// The result is the zip-tree of the given ranked points: it is well
    /// formed and holds each point with its value and its rank. Where a point
    /// occurs more than once, its first occurrence counts and the others are
    /// ignored.
    pub fn from_iter(items: Vec<(Point3d<X, Y, Z>, V, u8)>) -> (tree: Self)
        ensures
            tree.well_formed(),
            tree.entries() == entries_of(items@),
            tree.entries().dom().finite(),
            tree.count_of() == tree.entries().dom().len(),
            has_distinct_points(items@) ==> tree.count_of() == items@.len(),
    {
        let ghost target = entries_of(items@);
        let ghost given = items@;
        let pending = Self::schedule(items);
        let tree = Self::build(pending, Ghost(target));
        proof {
            tree.lemma_count_is_number_of_points();
            if has_distinct_points(given) {
                lemma_entries_of_len(given);
            }
        }
        tree
    }

    /// Order the items for insertion: drop all but the first occurrence of
    /// each point, and sort by descending rank, and ascending according to
    /// the ordering of the rank within each rank. The result holds the item to
    /// insert first at its end.
    fn schedule(items: Vec<(Point3d<X, Y, Z>, V, u8)>) -> (pending: Vec<(Point3d<X, Y, Z>, V, u8)>)
        ensures
            is_schedule(pending@, entries_of(items@)),
    {
        let ghost all = items@;
        let mut items = items;
        let mut pending: Vec<(Point3d<X, Y, Z>, V, u8)> = Vec::new();
        assert(all.skip(all.len() as int) =~= Seq::empty());
        while items.len() > 0
            invariant
                items@.len() <= all.len(),
                items@ == all.take(items@.len() as int),
                is_schedule(pending@, entries_of(all.skip(items@.len() as int))),
            decreases items@.len(),
        {
            let ghost k = items@.len() as int;
            let ghost done = entries_of(all.skip(k));
            let item = items.pop().unwrap();
            proof {
                assert(item == all[k - 1]);
                assert(all.skip(k - 1).drop_first() =~= all.skip(k));
                assert(items@ =~= all.take(k - 1));
            }
            let j = position_of(&pending, &item.0);
            if j < pending.len() {
                proof {
                    lemma_schedule_remove(pending@, done, j as int);
                }
                let _ = pending.remove(j);
            } else {
                proof {
                    lemma_schedule_lacks(pending@, done, item.0);
                }
            }
            let slot = slot_for(&pending, &item.0, item.2);
            proof {
                lemma_schedule_insert(pending@, done.remove(item.0), slot as int, item);
                assert(done.remove(item.0).insert(item.0, (item.1, item.2)) =~= done.insert(
                    item.0,
                    (item.1, item.2),
                ));
            }
            pending.insert(slot, item);
        }
        assert(all.skip(0) =~= all);
        pending
    }

    /// Insert the items of a schedule, from the last to the first, into an
    /// empty tree.
    fn build(pending: Vec<(Point3d<X, Y, Z>, V, u8)>, Ghost(target): Ghost<
        Map<Point3d<X, Y, Z>, (V, u8)>,
    >) -> (tree: Self)
        requires
            is_schedule(pending@, target),
        ensures
            tree.well_formed(),
            tree.entries() == target,
    {
        let mut pending = pending;
        let total: usize = pending.len();
        let mut tree: Self = ControlNode::Empty;
        proof {
            assert forall|i: int, j: int| 0 <= i < j < pending@.len() implies (
            #[trigger] pending@[i]).0 != (#[trigger] pending@[j]).0 by {
                lemma_schedule_distinct(pending@, target, i, j);
            }
        }
        while pending.len() > 0
            invariant
                tree.well_formed(),
                tree.count_of() + pending@.len() == total,
                total <= usize::MAX,
                forall|i: int|
                    0 <= i < pending@.len() ==> !tree.entries().contains_key(
                        (#[trigger] pending@[i]).0,
                    ) && tree.accepts(pending@[i].0, pending@[i].2) && target.contains_key(
                        pending@[i].0,
                    ) && target[pending@[i].0] == (pending@[i].1, pending@[i].2),
                forall|i: int, j: int|
                    0 <= i < j < pending@.len() ==> ranked_before(
                        (#[trigger] pending@[j]).0,
                        pending@[j].2,
                        (#[trigger] pending@[i]).0,
                        pending@[i].2,
                    ) && pending@[i].0 != pending@[j].0,
                forall|q: Point3d<X, Y, Z>| #[trigger]
                    tree.entries().contains_key(q) ==> target.contains_key(q) && target[q]
                        == tree.entries()[q],
                forall|q: Point3d<X, Y, Z>| #[trigger]
                    target.contains_key(q) ==> tree.entries().contains_key(q) || exists|i: int|
                        0 <= i < pending@.len() && (#[trigger] pending@[i]).0 == q,
            decreases pending@.len(),
        {
            let ghost before = tree;
            let ghost waiting = pending@;
            let (point, value, rank) = pending.pop().unwrap();
            proof {
                before.lemma_inserted_summary(point, value, rank);
            }
            tree.insert_no_balance(point, value, rank);
            proof {
                let last = waiting.len() - 1;
                assert(waiting[last] == (point, value, rank));
                assert forall|i: int| 0 <= i < pending@.len() implies !tree.entries().contains_key(
                    (#[trigger] pending@[i]).0,
                ) && tree.accepts(pending@[i].0, pending@[i].2) by {
                    assert(pending@[i] == waiting[i]);
                    assert(ranked_before(waiting[last].0, waiting[last].2, waiting[i].0, waiting[i].2));
                    assert(before.accepts(waiting[i].0, waiting[i].2));
                }
                assert forall|q: Point3d<X, Y, Z>| #[trigger]
                    target.contains_key(q) implies tree.entries().contains_key(q) || exists|i: int|
                    0 <= i < pending@.len() && (#[trigger] pending@[i]).0 == q by {
                    if !before.entries().contains_key(q) && q != point {
                        let i = choose|i: int| 0 <= i < waiting.len() && (#[trigger] waiting[i]).0 == q;
                        assert(pending@[i] == waiting[i]);
                    }
                }
            }
        }
        assert(tree.entries() =~= target);
        tree
    }

    /// Insert a point-value pair without rebalancing: as a new leaf where a
    /// search for the point ends. The point must not be in the tree yet. The
    /// tree stays a zip-tree where all its vertices are added before the new
    /// one, as they are when points are inserted by descending rank, and in
    /// the ordering of the rank within each rank.
    fn insert_no_balance(&mut self, point: Point3d<X, Y, Z>, value: V, rank: u8)
        requires
            old(self).is_zip_tree(),
            old(self).is_summarized(),
            !old(self).entries().contains_key(point),
            old(self).count_of() < usize::MAX,
        ensures
            *final(self) == old(self).inserted(point, value, rank),
            final(self).entries() == old(self).entries().insert(point, (value, rank)),
            final(self).is_summarized(),
            old(self).accepts(point, rank) ==> final(self).is_zip_tree(),
        decreases *old(self),
    {
        proof {
            self.lemma_inserted_entries(point, value, rank);
            self.lemma_inserted_summarized(point, value, rank);
            if self.accepts(point, rank) {
                self.lemma_inserted_zip_tree(point, value, rank);
            }
        }
        let kv_pair = (point, value);
        let lifted = M::lift(&kv_pair);
        let (point, value) = kv_pair;

        match self {
            ControlNode::Empty => {
                *self = ControlNode::NonEmpty {
                    key: point,
                    rank: rank,
                    left: Box::new(ControlNode::Empty),
                    right: Box::new(ControlNode::Empty),
                    value: value,
                    count: 1,
                    summary: lifted,
                }
            },
            ControlNode::NonEmpty {
                key: parent_key,
                rank: parent_rank,
                left,
                right,
                count,
                summary: parent_summary,
                ..
            } => {
                match cmp_points_at_rank(*parent_rank, parent_key, &point) {
                    Ordering::Less => {
                        right.insert_no_balance(point, value, rank);
                    },
                    _ => {
                        left.insert_no_balance(point, value, rank);
                    },
                }
                *count = *count + 1;
                *parent_summary = M::combine(parent_summary, &lifted);
            },
        }
    }
}

/// The number after `n`.
pub open spec fn next_count(n: usize) -> usize {
    if n < usize::MAX {
        (n + 1) as usize
    } else {
        n
    }
}

/// Compare two points in the ordering that `rank` selects.
pub fn cmp_points_at_rank<X: Dimension, Y: Dimension, Z: Dimension>(
    rank: u8,
    first: &Point3d<X, Y, Z>,
    second: &Point3d<X, Y, Z>,
) -> (o: Ordering)
    ensures
        o == first.ordering(Rotation::of_rank(rank), second),
{
    if rank % 3 == 2 {
        return first.cmp_xyz(second);
    } else if rank % 3 == 1 {
        return first.cmp_yzx(second);
    } else {
        return first.cmp_zxy(second);
    }
}

} // verus!
