//! Checking that a tree is a 3d-ish zip-tree.

use crate::dimension::Dimension;
use crate::monoid::LiftingCommutativeMonoid;
use crate::point::{Point3d, Rotation};
use crate::tree::ControlNode;
use vstd::prelude::*;

verus! {

/// `p` is the point of `points` that comes first in the given ordering.
pub open spec fn is_least<X: Dimension, Y: Dimension, Z: Dimension>(
    points: Set<Point3d<X, Y, Z>>,
    rotation: Rotation,
    p: Point3d<X, Y, Z>,
) -> bool {
    &&& points.contains(p)
    &&& forall|q: Point3d<X, Y, Z>| #[trigger] points.contains(q) && q != p ==> p.precedes(rotation, &q)
}

/// `p` is the point of `points` that comes last in the given ordering.
pub open spec fn is_greatest<X: Dimension, Y: Dimension, Z: Dimension>(
    points: Set<Point3d<X, Y, Z>>,
    rotation: Rotation,
    p: Point3d<X, Y, Z>,
) -> bool {
    &&& points.contains(p)
    &&& forall|q: Point3d<X, Y, Z>| #[trigger] points.contains(q) && q != p ==> q.precedes(rotation, &p)
}

/// The least and the greatest point of a non-empty tree in each of the three
/// orderings, and the rank of its root.
struct Extremes<'a, X: Dimension, Y: Dimension, Z: Dimension> {
    min_xyz: &'a Point3d<X, Y, Z>,
    max_xyz: &'a Point3d<X, Y, Z>,
    min_yzx: &'a Point3d<X, Y, Z>,
    max_yzx: &'a Point3d<X, Y, Z>,
    min_zxy: &'a Point3d<X, Y, Z>,
    max_zxy: &'a Point3d<X, Y, Z>,
    rank: u8,
}

impl<'a, X: Dimension, Y: Dimension, Z: Dimension> Extremes<'a, X, Y, Z> {
    /// The recorded least point for an ordering.
    spec fn least(self, rotation: Rotation) -> Point3d<X, Y, Z> {
        match rotation {
            Rotation::Xyz => *self.min_xyz,
            Rotation::Yzx => *self.min_yzx,
            Rotation::Zxy => *self.min_zxy,
        }
    }

    /// The recorded greatest point for an ordering.
    spec fn greatest(self, rotation: Rotation) -> Point3d<X, Y, Z> {
        match rotation {
            Rotation::Xyz => *self.max_xyz,
            Rotation::Yzx => *self.max_yzx,
            Rotation::Zxy => *self.max_zxy,
        }
    }

    /// The six recorded points are the least and the greatest of `points` in
    /// the three orderings.
    spec fn describes(self, points: Set<Point3d<X, Y, Z>>) -> bool {
        &&& is_least(points, Rotation::Xyz, *self.min_xyz)
        &&& is_greatest(points, Rotation::Xyz, *self.max_xyz)
        &&& is_least(points, Rotation::Yzx, *self.min_yzx)
        &&& is_greatest(points, Rotation::Yzx, *self.max_yzx)
        &&& is_least(points, Rotation::Zxy, *self.min_zxy)
        &&& is_greatest(points, Rotation::Zxy, *self.max_zxy)
    }

    /// The recorded least point for an ordering.
    fn min(&self, rotation: Rotation) -> (p: &'a Point3d<X, Y, Z>)
        ensures
            *p == self.least(rotation),
    {
        match rotation {
            Rotation::Xyz => self.min_xyz,
            Rotation::Yzx => self.min_yzx,
            Rotation::Zxy => self.min_zxy,
        }
    }

    /// The recorded greatest point for an ordering.
    fn max(&self, rotation: Rotation) -> (p: &'a Point3d<X, Y, Z>)
        ensures
            *p == self.greatest(rotation),
    {
        match rotation {
            Rotation::Xyz => self.max_xyz,
            Rotation::Yzx => self.max_yzx,
            Rotation::Zxy => self.max_zxy,
        }
    }
}

/// What the candidates of one subtree and the point of the vertex above it
/// say of the points of both: the least of the subtree's least point, if it
/// has one, and `best`.
fn lesser<'a, X: Dimension, Y: Dimension, Z: Dimension>(
    rotation: Rotation,
    best: &'a Point3d<X, Y, Z>,
    found: &Option<Extremes<'a, X, Y, Z>>,
    Ghost(seen): Ghost<Set<Point3d<X, Y, Z>>>,
    Ghost(points): Ghost<Set<Point3d<X, Y, Z>>>,
) -> (p: &'a Point3d<X, Y, Z>)
    requires
        is_least(seen, rotation, *best),
        match found {
            Some(e) => is_least(points, rotation, e.least(rotation)),
            None => points == Set::<Point3d<X, Y, Z>>::empty(),
        },
    ensures
        is_least(seen + points, rotation, *p),
{
    match found {
        None => {
            assert(seen + points =~= seen);
            best
        },
        Some(e) => {
            let candidate = e.min(rotation);
            let ghost low = *candidate;
            let ghost high = *best;
            proof {
                low.lemma_precedes_trichotomy(rotation, &high);
            }
            if candidate.comes_before(rotation, best) {
                proof {
                    assert forall|q: Point3d<X, Y, Z>| #[trigger]
                        (seen + points).contains(q) && q != low implies low.precedes(rotation, &q) by {
                        if seen.contains(q) && q != high {
                            low.lemma_precedes_transitive(rotation, &high, &q);
                        }
                    }
                }
                candidate
            } else {
                proof {
                    assert forall|q: Point3d<X, Y, Z>| #[trigger]
                        (seen + points).contains(q) && q != high implies high.precedes(
                        rotation,
                        &q,
                    ) by {
                        if points.contains(q) && q != low && !seen.contains(q) && high != low {
                            high.lemma_precedes_transitive(rotation, &low, &q);
                        }
                    }
                }
                best
            }
        },
    }
}

/// As `lesser`, for the greatest point.
fn greater<'a, X: Dimension, Y: Dimension, Z: Dimension>(
    rotation: Rotation,
    best: &'a Point3d<X, Y, Z>,
    found: &Option<Extremes<'a, X, Y, Z>>,
    Ghost(seen): Ghost<Set<Point3d<X, Y, Z>>>,
    Ghost(points): Ghost<Set<Point3d<X, Y, Z>>>,
) -> (p: &'a Point3d<X, Y, Z>)
    requires
        is_greatest(seen, rotation, *best),
        match found {
            Some(e) => is_greatest(points, rotation, e.greatest(rotation)),
            None => points == Set::<Point3d<X, Y, Z>>::empty(),
        },
    ensures
        is_greatest(seen + points, rotation, *p),
{
    match found {
        None => {
            assert(seen + points =~= seen);
            best
        },
        Some(e) => {
            let candidate = e.max(rotation);
            let ghost high = *candidate;
            let ghost low = *best;
            proof {
                low.lemma_precedes_trichotomy(rotation, &high);
            }
            if best.comes_before(rotation, candidate) {
                proof {
                    assert forall|q: Point3d<X, Y, Z>| #[trigger]
                        (seen + points).contains(q) && q != high implies q.precedes(
                        rotation,
                        &high,
                    ) by {
                        if seen.contains(q) && q != low {
                            q.lemma_precedes_transitive(rotation, &low, &high);
                        }
                    }
                }
                candidate
            } else {
                proof {
                    assert forall|q: Point3d<X, Y, Z>| #[trigger]
                        (seen + points).contains(q) && q != low implies q.precedes(rotation, &low) by {
                        if points.contains(q) && q != high && !seen.contains(q) && high != low {
                            q.lemma_precedes_transitive(rotation, &high, &low);
                        }
                    }
                }
                best
            }
        },
    }
}

impl<X, Y, Z, V, M> ControlNode<X, Y, Z, V, M> where
    X: Dimension,
    Y: Dimension,
    Z: Dimension,
    M: LiftingCommutativeMonoid<(Point3d<X, Y, Z>, V)>,
 {
    /// Is `self` a valid 3d-ish zip-tree? The check works on any tree,
    /// whatever built it.
    pub fn assert_tree_invariants(&self) -> (valid: bool)
        ensures
            valid == self.is_zip_tree(),
    {
        self.do_assert_tree_invariants().0
    }

    /// Walk the tree bottom-up. For each vertex, check the ranks of its
    /// children against its own, and the greatest point of its left subtree
    /// and the least point of its right subtree against its own point in the
    /// ordering that its rank selects; hand up the least and the greatest
    /// point of its subtree in all three orderings, and its rank.
    fn do_assert_tree_invariants(&self) -> (r: (bool, Option<Extremes<'_, X, Y, Z>>))
        ensures
            r.0 == self.is_zip_tree(),
            match r.1 {
                None => self is Empty,
                Some(e) => self is NonEmpty && e.rank == self->rank && e.describes(
                    self.entries().dom(),
                ),
            },
        decreases self,
    {
        match self {
            ControlNode::Empty => (true, None),
            ControlNode::NonEmpty { key, rank, left, right, .. } => {
                let (left_valid, left_found) = left.do_assert_tree_invariants();
                let (right_valid, right_found) = right.do_assert_tree_invariants();
                let rotation = Rotation::for_rank(*rank);
                let ghost own = set![*key];
                let ghost below = left.entries().dom();
                let ghost above = right.entries().dom();
                proof {
                    assert(self.entries().dom() =~= own + below + above);
                    if left_found is None {
                        assert(below =~= Set::empty());
                    }
                    if right_found is None {
                        assert(above =~= Set::empty());
                    }
                }

                let mut valid = left_valid && right_valid;
                match &left_found {
                    Some(e) => {
                        let ghost top = e.greatest(rotation);
                        if !(e.rank < *rank) || !e.max(rotation).comes_before(rotation, key) {
                            valid = false;
                            assert(left.entries().contains_key(top));
                        } else {
                            assert forall|p: Point3d<X, Y, Z>| #[trigger]
                                left.entries().contains_key(p) implies p.precedes(rotation, key) by {
                                if p != top {
                                    p.lemma_precedes_transitive(rotation, &top, key);
                                }
                            }
                        }
                    },
                    None => {},
                }
                match &right_found {
                    Some(e) => {
                        let ghost bottom = e.least(rotation);
                        if !(e.rank <= *rank) || !key.comes_before(rotation, e.min(rotation)) {
                            valid = false;
                            assert(right.entries().contains_key(bottom));
                        } else {
                            assert forall|p: Point3d<X, Y, Z>| #[trigger]
                                right.entries().contains_key(p) implies key.precedes(
                                rotation,
                                &p,
                            ) by {
                                if p != bottom {
                                    key.lemma_precedes_transitive(rotation, &bottom, &p);
                                }
                            }
                        }
                    },
                    None => {},
                }

                let min_xyz = lesser(Rotation::Xyz, key, &left_found, Ghost(own), Ghost(below));
                let min_xyz = lesser(
                    Rotation::Xyz,
                    min_xyz,
                    &right_found,
                    Ghost(own + below),
                    Ghost(above),
                );
                let max_xyz = greater(Rotation::Xyz, key, &left_found, Ghost(own), Ghost(below));
                let max_xyz = greater(
                    Rotation::Xyz,
                    max_xyz,
                    &right_found,
                    Ghost(own + below),
                    Ghost(above),
                );
                let min_yzx = lesser(Rotation::Yzx, key, &left_found, Ghost(own), Ghost(below));
                let min_yzx = lesser(
                    Rotation::Yzx,
                    min_yzx,
                    &right_found,
                    Ghost(own + below),
                    Ghost(above),
                );
                let max_yzx = greater(Rotation::Yzx, key, &left_found, Ghost(own), Ghost(below));
                let max_yzx = greater(
                    Rotation::Yzx,
                    max_yzx,
                    &right_found,
                    Ghost(own + below),
                    Ghost(above),
                );
                let min_zxy = lesser(Rotation::Zxy, key, &left_found, Ghost(own), Ghost(below));
                let min_zxy = lesser(
                    Rotation::Zxy,
                    min_zxy,
                    &right_found,
                    Ghost(own + below),
                    Ghost(above),
                );
                let max_zxy = greater(Rotation::Zxy, key, &left_found, Ghost(own), Ghost(below));
                let max_zxy = greater(
                    Rotation::Zxy,
                    max_zxy,
                    &right_found,
                    Ghost(own + below),
                    Ghost(above),
                );
                let found = Extremes {
                    min_xyz,
                    max_xyz,
                    min_yzx,
                    max_yzx,
                    min_zxy,
                    max_zxy,
                    rank: *rank,
                };
                (valid, Some(found))
            },
        }
    }
}

} // verus!
