//! What holds of every 3d-ish zip-tree, and of the tree that an insertion
//! gives.

use crate::dimension::Dimension;
use crate::monoid::LiftingCommutativeMonoid;
use crate::point::{Point3d, Rotation};
use crate::schedule::{entries_of, has_distinct_points, lemma_entries_of_any_order};
use crate::tree::ControlNode;
use vstd::prelude::*;

verus! {

/// A vertex with the point `p` and the rank `rp` is added to a tree before one
/// with the point `q` and the rank `rq`: it has the higher rank, or the same
/// rank and the point that comes first in the ordering of that rank.
pub open spec fn ranked_before<X: Dimension, Y: Dimension, Z: Dimension>(
    p: Point3d<X, Y, Z>,
    rp: u8,
    q: Point3d<X, Y, Z>,
    rq: u8,
) -> bool {
    rp > rq || (rp == rq && p.precedes(Rotation::of_rank(rp), &q))
}

/// Of two vertices with different points, one is added before the other.
pub proof fn lemma_ranked_before_total<X: Dimension, Y: Dimension, Z: Dimension>(
    p: Point3d<X, Y, Z>,
    rp: u8,
    q: Point3d<X, Y, Z>,
    rq: u8,
)
    requires
        p != q,
    ensures
        ranked_before(p, rp, q, rq) <==> !ranked_before(q, rq, p, rp),
{
    p.lemma_precedes_trichotomy(Rotation::of_rank(rp), &q);
}

/// The order in which vertices are added is transitive.
pub proof fn lemma_ranked_before_transitive<X: Dimension, Y: Dimension, Z: Dimension>(
    p: Point3d<X, Y, Z>,
    rp: u8,
    q: Point3d<X, Y, Z>,
    rq: u8,
    s: Point3d<X, Y, Z>,
    rs: u8,
)
    requires
        ranked_before(p, rp, q, rq),
        ranked_before(q, rq, s, rs),
    ensures
        ranked_before(p, rp, s, rs),
{
    if rp == rq && rq == rs {
        p.lemma_precedes_transitive(Rotation::of_rank(rp), &q, &s);
    }
}

impl<X, Y, Z, V, M> ControlNode<X, Y, Z, V, M> where
    X: Dimension,
    Y: Dimension,
    Z: Dimension,
    M: LiftingCommutativeMonoid<(Point3d<X, Y, Z>, V)>,
 {
    /// The number of vertices of the tree.
    pub open spec fn size(self) -> nat
        decreases self,
    {
        match self {
            ControlNode::Empty => 0,
            ControlNode::NonEmpty { left, right, .. } => 1 + left.size() + right.size(),
        }
    }

    /// Every vertex of the tree is added before a vertex with the given point
    /// and rank: the tree takes that vertex as a leaf and stays a zip-tree.
    pub open spec fn accepts(self, point: Point3d<X, Y, Z>, rank: u8) -> bool {
        forall|q: Point3d<X, Y, Z>| #[trigger]
            self.entries().contains_key(q) ==> ranked_before(q, self.entries()[q].1, point, rank)
    }

    /// In a zip-tree the point of a vertex is in neither of its subtrees, the
    /// two subtrees share no point, and each subtree holds its points with the
    /// values and ranks that the whole tree holds them with.
    pub proof fn lemma_subtrees_apart(self)
        requires
            self.is_zip_tree(),
            self is NonEmpty,
        ensures
            !self->left.entries().contains_key(self->key),
            !self->right.entries().contains_key(self->key),
            self.entries()[self->key] == (self->value, self->rank),
            forall|q: Point3d<X, Y, Z>| #[trigger]
                self->left.entries().contains_key(q) ==> !self->right.entries().contains_key(q)
                    && self.entries()[q] == self->left.entries()[q],
            forall|q: Point3d<X, Y, Z>| #[trigger]
                self->right.entries().contains_key(q) ==> self.entries()[q]
                    == self->right.entries()[q],
            forall|q: Point3d<X, Y, Z>| #[trigger]
                self.entries().contains_key(q) <==> q == self->key
                    || self->left.entries().contains_key(q) || self->right.entries().contains_key(
                    q,
                ),
    {
        let key = self->key;
        let rotation = Rotation::of_rank(self->rank);
        key.lemma_precedes_trichotomy(rotation, &key);
        assert forall|q: Point3d<X, Y, Z>| #[trigger]
            self->left.entries().contains_key(q) implies !self->right.entries().contains_key(q)
            && self.entries()[q] == self->left.entries()[q] by {
            q.lemma_precedes_trichotomy(rotation, &key);
            if self->right.entries().contains_key(q) {
                assert(key.precedes(rotation, &q));
            }
        }
        assert forall|q: Point3d<X, Y, Z>| #[trigger]
            self->right.entries().contains_key(q) implies self.entries()[q]
            == self->right.entries()[q] by {
            q.lemma_precedes_trichotomy(rotation, &key);
        }
    }

    /// In a zip-tree no vertex has a higher rank than the root, every vertex
    /// of the left subtree has a lower rank, and every other vertex with the
    /// rank of the root comes after the root in the ordering of that rank.
    pub proof fn lemma_root_is_first(self)
        requires
            self.is_zip_tree(),
            self is NonEmpty,
        ensures
            forall|q: Point3d<X, Y, Z>| #[trigger]
                self.entries().contains_key(q) && q != self->key ==> ranked_before(
                    self->key,
                    self->rank,
                    q,
                    self.entries()[q].1,
                ),
            forall|q: Point3d<X, Y, Z>| #[trigger]
                self->left.entries().contains_key(q) ==> self->left.entries()[q].1 < self->rank,
        decreases self,
    {
        let key = self->key;
        let rank = self->rank;
        let left = *self->left;
        let right = *self->right;
        self.lemma_subtrees_apart();
        if left is NonEmpty {
            left.lemma_root_is_first();
            left.lemma_subtrees_apart();
        }
        if right is NonEmpty {
            right.lemma_root_is_first();
            right.lemma_subtrees_apart();
        }
        assert forall|q: Point3d<X, Y, Z>| #[trigger]
            left.entries().contains_key(q) implies left.entries()[q].1 < rank by {
            if q != left->key {
                assert(ranked_before(left->key, left->rank, q, left.entries()[q].1));
            }
        }
        assert forall|q: Point3d<X, Y, Z>| #[trigger]
            self.entries().contains_key(q) && q != key implies ranked_before(
            key,
            rank,
            q,
            self.entries()[q].1,
        ) by {
            if left.entries().contains_key(q) {
            } else {
                assert(right.entries().contains_key(q));
                assert(key.precedes(Rotation::of_rank(rank), &q));
                if q != right->key {
                    assert(ranked_before(right->key, right->rank, q, right.entries()[q].1));
                }
            }
        }
    }

    /// An insertion adds the point with its value and its rank to what the
    /// tree holds, and changes nothing else of it.
    pub proof fn lemma_inserted_entries(self, point: Point3d<X, Y, Z>, value: V, rank: u8)
        requires
            !self.entries().contains_key(point),
        ensures
            self.inserted(point, value, rank).entries() == self.entries().insert(
                point,
                (value, rank),
            ),
        decreases self,
    {
        match self {
            ControlNode::Empty => {
                assert(self.inserted(point, value, rank).entries() =~= self.entries().insert(
                    point,
                    (value, rank),
                ));
            },
            ControlNode::NonEmpty { key, rank: own, left, right, .. } => {
                if key.precedes(Rotation::of_rank(own), &point) {
                    right.lemma_inserted_entries(point, value, rank);
                } else {
                    left.lemma_inserted_entries(point, value, rank);
                }
                assert(self.inserted(point, value, rank).entries() =~= self.entries().insert(
                    point,
                    (value, rank),
                ));
            },
        }
    }

    /// An insertion raises the count of the tree by one and combines its
    /// summary with what the new point and value lift to.
    pub proof fn lemma_inserted_summary(self, point: Point3d<X, Y, Z>, value: V, rank: u8)
        requires
            self.count_of() < usize::MAX,
        ensures
            self.inserted(point, value, rank).count_of() == self.count_of() + 1,
            self.inserted(point, value, rank).summary_of() == M::combined(
                &self.summary_of(),
                &M::lifted(&(point, value)),
            ),
    {
        M::lemma_neutral(&M::lifted(&(point, value)));
    }

    /// After an insertion every vertex still counts and summarises its
    /// subtree.
    pub proof fn lemma_inserted_summarized(self, point: Point3d<X, Y, Z>, value: V, rank: u8)
        requires
            self.is_summarized(),
            self.count_of() < usize::MAX,
        ensures
            self.inserted(point, value, rank).is_summarized(),
        decreases self,
    {
        let new = M::lifted(&(point, value));
        match self {
            ControlNode::Empty => {
                M::lemma_neutral(&M::NEUTRAL);
                M::lemma_neutral(&new);
            },
            ControlNode::NonEmpty { key, rank: own, left, right, value: held, .. } => {
                let l = left.summary_of();
                let r = right.summary_of();
                let own_lifted = M::lifted(&(key, held));
                M::lemma_associative(&own_lifted, &M::combined(&l, &r), &new);
                M::lemma_associative(&l, &r, &new);
                if key.precedes(Rotation::of_rank(own), &point) {
                    right.lemma_inserted_summarized(point, value, rank);
                    right.lemma_inserted_summary(point, value, rank);
                } else {
                    left.lemma_inserted_summarized(point, value, rank);
                    left.lemma_inserted_summary(point, value, rank);
                    M::lemma_commutative(&r, &new);
                    M::lemma_associative(&l, &new, &r);
                }
            },
        }
    }

    /// A zip-tree that accepts a vertex is a zip-tree after that vertex has
    /// been inserted.
    pub proof fn lemma_inserted_zip_tree(self, point: Point3d<X, Y, Z>, value: V, rank: u8)
        requires
            self.is_zip_tree(),
            !self.entries().contains_key(point),
            self.accepts(point, rank),
        ensures
            self.inserted(point, value, rank).is_zip_tree(),
        decreases self,
    {
        match self {
            ControlNode::Empty => {
                let leaf = self.inserted(point, value, rank);
                assert(leaf->left.entries() =~= Map::empty());
                assert(leaf->right.entries() =~= Map::empty());
            },
            ControlNode::NonEmpty { key, rank: own, left, right, .. } => {
                let rotation = Rotation::of_rank(own);
                self.lemma_subtrees_apart();
                assert(self.entries().contains_key(key));
                assert(ranked_before(key, own, point, rank));
                key.lemma_precedes_trichotomy(rotation, &point);
                if key.precedes(rotation, &point) {
                    assert(right.accepts(point, rank)) by {
                        assert forall|q: Point3d<X, Y, Z>| #[trigger]
                            right.entries().contains_key(q) implies ranked_before(
                            q,
                            right.entries()[q].1,
                            point,
                            rank,
                        ) by {
                            assert(self.entries().contains_key(q));
                        }
                    }
                    right.lemma_inserted_zip_tree(point, value, rank);
                    right.lemma_inserted_entries(point, value, rank);
                } else {
                    assert(left.accepts(point, rank)) by {
                        assert forall|q: Point3d<X, Y, Z>| #[trigger]
                            left.entries().contains_key(q) implies ranked_before(
                            q,
                            left.entries()[q].1,
                            point,
                            rank,
                        ) by {
                            assert(self.entries().contains_key(q));
                        }
                    }
                    left.lemma_inserted_zip_tree(point, value, rank);
                    left.lemma_inserted_entries(point, value, rank);
                }
            },
        }
    }

    /// A zip-tree is determined by what it holds: two well-formed trees that
    /// hold the same points with the same values and ranks have the same
    /// shape, and their vertices the same counts and summaries. So whatever
    /// builds a well-formed tree from a set of ranked points builds the same
    /// tree.
    pub proof fn lemma_unique(self, other: Self)
        requires
            self.well_formed(),
            other.well_formed(),
            self.entries() == other.entries(),
        ensures
            self == other,
        decreases self,
    {
        match self {
            ControlNode::Empty => {
                if other is NonEmpty {
                    assert(other.entries().contains_key(other->key));
                }
            },
            ControlNode::NonEmpty { key, rank, left, right, .. } => {
                assert(self.entries().contains_key(key));
                if other is NonEmpty {
                    let rotation = Rotation::of_rank(rank);
                    self.lemma_root_is_first();
                    other.lemma_root_is_first();
                    self.lemma_subtrees_apart();
                    other.lemma_subtrees_apart();
                    assert(other.entries().contains_key(other->key));
                    if key != other->key {
                        lemma_ranked_before_total(key, rank, other->key, other->rank);
                    }
                    assert(key == other->key);
                    assert(left.entries() =~= other->left.entries()) by {
                        assert forall|q: Point3d<X, Y, Z>|
                            left.entries().contains_key(q) == other->left.entries().contains_key(
                                q,
                            ) by {
                            q.lemma_precedes_trichotomy(rotation, &key);
                            if left.entries().contains_key(q) {
                                assert(other.entries().contains_key(q));
                            }
                            if other->left.entries().contains_key(q) {
                                assert(self.entries().contains_key(q));
                            }
                        }
                    }
                    assert(right.entries() =~= other->right.entries()) by {
                        assert forall|q: Point3d<X, Y, Z>|
                            right.entries().contains_key(q) == other->right.entries().contains_key(
                                q,
                            ) by {
                            q.lemma_precedes_trichotomy(rotation, &key);
                            if right.entries().contains_key(q) {
                                assert(other.entries().contains_key(q));
                            }
                            if other->right.entries().contains_key(q) {
                                assert(self.entries().contains_key(q));
                            }
                        }
                    }
                    left.lemma_unique(*other->left);
                    right.lemma_unique(*other->right);
                }
            },
        }
    }

    /// Where every vertex counts its subtree, the count of the tree is the
    /// number of its vertices.
    pub proof fn lemma_count_is_size(self)
        requires
            self.is_summarized(),
        ensures
            self.count_of() == self.size(),
        decreases self,
    {
        match self {
            ControlNode::Empty => {},
            ControlNode::NonEmpty { left, right, .. } => {
                left.lemma_count_is_size();
                right.lemma_count_is_size();
            },
        }
    }

    /// No two vertices of a zip-tree share a point: the tree holds as many
    /// points as it has vertices.
    pub proof fn lemma_points_are_distinct(self)
        requires
            self.is_zip_tree(),
        ensures
            self.entries().dom().finite(),
            self.entries().dom().len() == self.size(),
        decreases self,
    {
        match self {
            ControlNode::Empty => {
                assert(self.entries().dom() =~= Set::empty());
            },
            ControlNode::NonEmpty { key, left, right, .. } => {
                left.lemma_points_are_distinct();
                right.lemma_points_are_distinct();
                self.lemma_subtrees_apart();
                let l = left.entries().dom();
                let r = right.entries().dom();
                assert(l.disjoint(r));
                vstd::set_lib::lemma_set_disjoint_lens(l, r);
                assert(self.entries().dom() =~= (l + r).insert(key));
            },
        }
    }

    /// In a well-formed tree the count of every vertex is the number of
    /// points in its subtree.
    pub proof fn lemma_count_is_number_of_points(self)
        requires
            self.well_formed(),
        ensures
            self.entries().dom().finite(),
            self.count_of() == self.entries().dom().len(),
    {
        self.lemma_count_is_size();
        self.lemma_points_are_distinct();
    }
}

/// Construction is deterministic: whatever the order in which a set of ranked
/// points is given, and whatever builds a well-formed tree that holds them,
/// the tree is the same, in its shape and in the count and the summary of
/// every vertex.
pub proof fn lemma_construction_deterministic<X, Y, Z, V, M>(
    a: Seq<(Point3d<X, Y, Z>, V, u8)>,
    b: Seq<(Point3d<X, Y, Z>, V, u8)>,
    built_from_a: ControlNode<X, Y, Z, V, M>,
    built_from_b: ControlNode<X, Y, Z, V, M>,
) where
    X: Dimension,
    Y: Dimension,
    Z: Dimension,
    M: LiftingCommutativeMonoid<(Point3d<X, Y, Z>, V)>,

    requires
        has_distinct_points(a),
        a.to_multiset() == b.to_multiset(),
        built_from_a.well_formed(),
        built_from_a.entries() == entries_of(a),
        built_from_b.well_formed(),
        built_from_b.entries() == entries_of(b),
    ensures
        built_from_a == built_from_b,
{
    lemma_entries_of_any_order(a, b);
    built_from_a.lemma_unique(built_from_b);
}

/// Under the counting monoid the summary of every vertex is its count: the
/// number of point-value pairs in its subtree.
pub proof fn lemma_counting_summary<X: Dimension, Y: Dimension, Z: Dimension, V>(
    tree: ControlNode<X, Y, Z, V, usize>,
)
    requires
        tree.is_summarized(),
    ensures
        tree.summary_of() == tree.count_of(),
    decreases tree,
{
    match tree {
        ControlNode::Empty => {
            crate::monoid::lemma_counting_neutral::<(Point3d<X, Y, Z>, V)>();
        },
        ControlNode::NonEmpty { left, right, .. } => {
            lemma_counting_summary(*left);
            lemma_counting_summary(*right);
        },
    }
}

} // verus!
