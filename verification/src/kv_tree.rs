//! How a 3d-ish zip-tree is laid out in an ordered key-value store.
//!
//! Every vertex becomes one entry. Its key is the rank of the vertex as a
//! single byte, followed by the encoding of its point for the ordering that
//! the rank selects. Its value holds the rank, the value and the summary of
//! the vertex, and the ranks of its two children.
//!
//! The key under which a child is looked up is made of the point of its
//! parent and the rank of the child: the left child is searched for as the
//! greatest key strictly below that key, the right child as the least key
//! strictly above it. `lemma_left_child_lookup` and
//! `lemma_right_child_lookup` say exactly when that search finds the child.

use crate::bytes::{
    lemma_lex_asymmetric, lemma_lex_irreflexive, lemma_lex_leading_byte, lex_le, lex_lt,
};
use crate::dimension::Dimension;
use crate::monoid::LiftingCommutativeMonoid;
use crate::point::{Point3d, Rotation};
use crate::tree::ControlNode;
use vstd::prelude::*;

verus! {

/// The key of a vertex with the given point and rank.
pub open spec fn key_of<X: Dimension, Y: Dimension, Z: Dimension>(
    point: Point3d<X, Y, Z>,
    rank: u8,
) -> Seq<u8> {
    seq![rank] + point.encoding(Rotation::of_rank(rank))
}

/// Keys are ordered by rank first, and within one rank as the points are in
/// the ordering of that rank.
pub proof fn lemma_key_order<X: Dimension, Y: Dimension, Z: Dimension>(
    p: Point3d<X, Y, Z>,
    rp: u8,
    q: Point3d<X, Y, Z>,
    rq: u8,
)
    ensures
        lex_lt(key_of(p, rp), key_of(q, rq)) <==> rp < rq || (rp == rq && p.precedes(
            Rotation::of_rank(rp),
            &q,
        )),
{
    lemma_lex_leading_byte(
        rp,
        p.encoding(Rotation::of_rank(rp)),
        rq,
        q.encoding(Rotation::of_rank(rq)),
    );
    p.lemma_precedes_homomorphic(Rotation::of_rank(rp), &q);
}

/// Different vertices have different keys: a key gives the rank and the point
/// of its vertex.
pub proof fn lemma_key_injective<X: Dimension, Y: Dimension, Z: Dimension>(
    p: Point3d<X, Y, Z>,
    rp: u8,
    q: Point3d<X, Y, Z>,
    rq: u8,
)
    requires
        key_of(p, rp) == key_of(q, rq),
    ensures
        p == q,
        rp == rq,
{
    let kp = key_of(p, rp);
    let kq = key_of(q, rq);
    assert(kp[0] == rp && kq[0] == rq);
    let ep = p.encoding(Rotation::of_rank(rp));
    let eq = q.encoding(Rotation::of_rank(rq));
    assert(ep =~= kp.skip(1));
    assert(eq =~= kq.skip(1));
    assert(ep =~= eq.subrange(0, ep.len() as int));
    p.lemma_encoding_prefix_free(Rotation::of_rank(rp), &q);
}

/// No key is longer than one byte more than the longest encoding of a point.
pub open spec fn max_key_len<X: Dimension, Y: Dimension, Z: Dimension>() -> int {
    1 + X::HOMOMORPHIC_ENCODING_MAX_LENGTH + Y::HOMOMORPHIC_ENCODING_MAX_LENGTH
        + Z::HOMOMORPHIC_ENCODING_MAX_LENGTH + 4
}

/// The key of a vertex with the given point and rank.
pub fn vertex_key<X: Dimension, Y: Dimension, Z: Dimension>(
    point: &Point3d<X, Y, Z>,
    rank: u8,
) -> (key: Vec<u8>)
    requires
        max_key_len::<X, Y, Z>() <= usize::MAX,
    ensures
        key@ == key_of(*point, rank),
{
    let rotation = Rotation::for_rank(rank);
    proof {
        point.lemma_encoding_length(rotation);
    }
    let width: usize = Point3d::<X, Y, Z>::max_encoding_len(rotation);
    let mut key: Vec<u8> = vec![0u8; width + 1];
    key[0] = rank;
    let (_, tail) = key.split_at_mut(1);
    let len: usize = point.encode(rotation, tail);
    key.truncate(len + 1);
    assert(key@ =~= key_of(*point, rank));
    key
}

/// The rank that, in place of the rank of a child, says that there is no
/// such child. Only vertices with a lower rank can be found as children.
pub const NO_CHILD: u8 = 255;

/// The value of the entry that stands for a vertex.
#[derive(Debug, PartialEq, Eq, Clone)]
pub struct KvValue<V, M> {
    /// The rank of the vertex.
    pub rank: u8,
    /// The value that the point of the vertex is mapped to.
    pub value: V,
    /// The summary of the subtree of the vertex.
    pub summary: M,
    /// The rank of the left child of the vertex, or `NO_CHILD`.
    pub left_rank: u8,
    /// The rank of the right child of the vertex, or `NO_CHILD`.
    pub right_rank: u8,
}

/// What a vector of entries holds: each key as a byte string, with its value.
pub open spec fn entries_view<V, M>(entries: Seq<(Vec<u8>, KvValue<V, M>)>) -> Seq<
    (Seq<u8>, KvValue<V, M>),
> {
    Seq::new(entries.len(), |i: int| (entries[i].0@, entries[i].1))
}

/// `key` is the greatest of `keys` that comes strictly before `bound`.
pub open spec fn is_predecessor(keys: Set<Seq<u8>>, bound: Seq<u8>, key: Seq<u8>) -> bool {
    &&& keys.contains(key)
    &&& lex_lt(key, bound)
    &&& forall|other: Seq<u8>| #[trigger] keys.contains(other) && lex_lt(other, bound) ==> lex_le(other, key)
}

/// `key` is the least of `keys` that comes strictly after `bound`.
pub open spec fn is_successor(keys: Set<Seq<u8>>, bound: Seq<u8>, key: Seq<u8>) -> bool {
    &&& keys.contains(key)
    &&& lex_lt(bound, key)
    &&& forall|other: Seq<u8>| #[trigger] keys.contains(other) && lex_lt(bound, other) ==> lex_le(key, other)
}

impl<X, Y, Z, V, M> ControlNode<X, Y, Z, V, M> where
    X: Dimension,
    Y: Dimension,
    Z: Dimension,
    M: LiftingCommutativeMonoid<(Point3d<X, Y, Z>, V)>,
 {
    /// The rank of the root as the entry of its parent records it: the rank
    /// itself, or `NO_CHILD` for the empty tree.
    pub open spec fn recorded_rank(self) -> u8 {
        match self {
            ControlNode::Empty => NO_CHILD,
            ControlNode::NonEmpty { rank, .. } => rank,
        }
    }

    /// No vertex has the rank `NO_CHILD`, so that the entry of every vertex
    /// tells which children the vertex has.
    pub open spec fn is_storable(self) -> bool
        decreases self,
    {
        match self {
            ControlNode::Empty => true,
            ControlNode::NonEmpty { rank, left, right, .. } => rank != NO_CHILD
                && left.is_storable() && right.is_storable(),
        }
    }

    /// The entries that stand for the tree, one for each vertex: that of the
    /// root, then those of the left subtree, then those of the right subtree.
    pub open spec fn kv_entries(self) -> Seq<(Seq<u8>, KvValue<V, M>)>
        decreases self,
    {
        match self {
            ControlNode::Empty => Seq::empty(),
            ControlNode::NonEmpty { key, rank, left, right, value, summary, .. } => seq![
                (
                    key_of(key, rank),
                    KvValue {
                        rank: rank,
                        value: value,
                        summary: summary,
                        left_rank: left.recorded_rank(),
                        right_rank: right.recorded_rank(),
                    },
                ),
            ] + left.kv_entries() + right.kv_entries(),
        }
    }

    /// The keys of the entries that stand for the tree.
    pub open spec fn kv_keys(self) -> Set<Seq<u8>> {
        Set::new(
            |key: Seq<u8>|
                exists|p: Point3d<X, Y, Z>| #[trigger]
                    self.entries().contains_key(p) && key == key_of(p, self.entries()[p].1),
        )
    }

    /// `sub` is the tree itself or the subtree of one of its vertices.
    pub open spec fn has_subtree(self, sub: Self) -> bool
        decreases self,
    {
        self == sub || match self {
            ControlNode::Empty => false,
            ControlNode::NonEmpty { left, right, .. } => left.has_subtree(sub) || right.has_subtree(
                sub,
            ),
        }
    }

    /// The rank of the root as the entry of its parent records it.
    pub fn root_rank(&self) -> (rank: u8)
        ensures
            rank == self.recorded_rank(),
    {
        match self {
            ControlNode::Empty => NO_CHILD,
            ControlNode::NonEmpty { rank, .. } => *rank,
        }
    }

    /// Does no vertex have the rank `NO_CHILD`?
    pub fn check_storable(&self) -> (storable: bool)
        ensures
            storable == self.is_storable(),
        decreases self,
    {
        match self {
            ControlNode::Empty => true,
            ControlNode::NonEmpty { rank, left, right, .. } => *rank != NO_CHILD
                && left.check_storable() && right.check_storable(),
        }
    }

    /// Turn the tree into the entries that stand for it in a key-value store.
    pub fn into_kv_entries(self) -> (entries: Vec<(Vec<u8>, KvValue<V, M>)>)
        requires
            max_key_len::<X, Y, Z>() <= usize::MAX,
        ensures
            entries_view(entries@) == self.kv_entries(),
    {
        let mut entries: Vec<(Vec<u8>, KvValue<V, M>)> = Vec::new();
        assert(entries_view(entries@) =~= Seq::empty());
        self.collect_kv_entries(&mut entries);
        assert(Seq::<(Seq<u8>, KvValue<V, M>)>::empty() + self.kv_entries() =~= self.kv_entries());
        entries
    }

    /// Add the entries that stand for the tree to `entries`.
    fn collect_kv_entries(self, entries: &mut Vec<(Vec<u8>, KvValue<V, M>)>)
        requires
            max_key_len::<X, Y, Z>() <= usize::MAX,
        ensures
            entries_view(final(entries)@) == entries_view(old(entries)@) + self.kv_entries(),
        decreases self,
    {
        match self {
            ControlNode::Empty => {
                assert(entries_view(entries@) + self.kv_entries() =~= entries_view(entries@));
            },
            ControlNode::NonEmpty { key, rank, left, right, value, summary, .. } => {
                let entry = KvValue {
                    rank: rank,
                    value: value,
                    summary: summary,
                    left_rank: left.root_rank(),
                    right_rank: right.root_rank(),
                };
                let ghost before = entries_view(entries@);
                let ghost own = (key_of(key, rank), entry);
                entries.push((vertex_key(&key, rank), entry));
                assert(entries_view(entries@) =~= before + seq![own]);
                (*left).collect_kv_entries(entries);
                (*right).collect_kv_entries(entries);
                assert(entries_view(entries@) =~= before + self.kv_entries());
            },
        }
    }
}

/// The key to look the left child of a vertex up with, given the point of
/// the vertex and the value of its entry: the key that the point would have
/// with the rank of the left child. The child is looked up as the greatest
/// key below it. There is none where the entry records no left child.
pub fn left_child_bound<X: Dimension, Y: Dimension, Z: Dimension, V, M>(
    point: &Point3d<X, Y, Z>,
    entry: &KvValue<V, M>,
) -> (bound: Option<Vec<u8>>)
    requires
        max_key_len::<X, Y, Z>() <= usize::MAX,
    ensures
        match bound {
            None => entry.left_rank == NO_CHILD,
            Some(key) => entry.left_rank != NO_CHILD && key@ == key_of(*point, entry.left_rank),
        },
{
    if entry.left_rank == NO_CHILD {
        None
    } else {
        Some(vertex_key(point, entry.left_rank))
    }
}

/// The key to look the right child of a vertex up with, given the point of
/// the vertex and the value of its entry: the key that the point would have
/// with the rank of the right child, followed by a zero byte. That is the
/// least byte string strictly above the key without the zero byte, so the
/// child is looked up as the least key at or above it. There is none where
/// the entry records no right child.
pub fn right_child_bound<X: Dimension, Y: Dimension, Z: Dimension, V, M>(
    point: &Point3d<X, Y, Z>,
    entry: &KvValue<V, M>,
) -> (bound: Option<Vec<u8>>)
    requires
        max_key_len::<X, Y, Z>() < usize::MAX,
    ensures
        match bound {
            None => entry.right_rank == NO_CHILD,
            Some(key) => entry.right_rank != NO_CHILD && key@ == key_of(*point, entry.right_rank)
                + seq![0u8],
        },
{
    if entry.right_rank == NO_CHILD {
        None
    } else {
        proof {
            point.lemma_encoding_length(Rotation::of_rank(entry.right_rank));
        }
        let mut key = vertex_key(point, entry.right_rank);
        key.push(0);
        Some(key)
    }
}

impl<X, Y, Z, V, M> ControlNode<X, Y, Z, V, M> where
    X: Dimension,
    Y: Dimension,
    Z: Dimension,
    M: LiftingCommutativeMonoid<(Point3d<X, Y, Z>, V)>,
 {
    /// A subtree of a zip-tree is a zip-tree, and holds its points with the
    /// values and ranks that the whole tree holds them with.
    pub proof fn lemma_subtree_entries(self, sub: Self)
        requires
            self.is_zip_tree(),
            self.has_subtree(sub),
        ensures
            sub.is_zip_tree(),
            forall|q: Point3d<X, Y, Z>| #[trigger]
                sub.entries().contains_key(q) ==> self.entries().contains_key(q)
                    && self.entries()[q] == sub.entries()[q],
        decreases self,
    {
        if self != sub {
            self.lemma_subtrees_apart();
            if self->left.has_subtree(sub) {
                self->left.lemma_subtree_entries(sub);
            } else {
                self->right.lemma_subtree_entries(sub);
            }
        }
    }

    /// Every vertex of a zip-tree has exactly one entry: the tree has as many
    /// entries as vertices, no two entries have the same key, and the keys of
    /// the entries are the keys of the vertices.
    pub proof fn lemma_kv_entries_cover(self)
        requires
            self.is_zip_tree(),
        ensures
            self.kv_entries().len() == self.size(),
            forall|i: int|
                0 <= i < self.kv_entries().len() ==> self.kv_keys().contains(
                    (#[trigger] self.kv_entries()[i]).0,
                ),
            forall|key: Seq<u8>| #[trigger]
                self.kv_keys().contains(key) ==> exists|i: int|
                    0 <= i < self.kv_entries().len() && (#[trigger] self.kv_entries()[i]).0 == key,
            forall|i: int, j: int|
                0 <= i < j < self.kv_entries().len() ==> (#[trigger] self.kv_entries()[i]).0 != (
                #[trigger] self.kv_entries()[j]).0,
        decreases self, 1int,
    {
        match self {
            ControlNode::Empty => {},
            ControlNode::NonEmpty { key, rank, left, right, .. } => {
                left.lemma_kv_entries_cover();
                right.lemma_kv_entries_cover();
                self.lemma_subtrees_apart();
                let all = self.kv_entries();
                let l = left.kv_entries();
                let r = right.kv_entries();
                let n = l.len() as int;
                assert(all[0].0 == key_of(key, rank));
                assert(self.entries().contains_key(key));
                assert forall|i: int| 0 <= i < all.len() implies self.kv_keys().contains(
                    (#[trigger] all[i]).0,
                ) by {
                    if 1 <= i <= n {
                        assert(all[i] == l[i - 1]);
                        assert(left.kv_keys().contains(l[i - 1].0));
                        let p = choose|p: Point3d<X, Y, Z>| #[trigger]
                            left.entries().contains_key(p) && l[i - 1].0 == key_of(
                                p,
                                left.entries()[p].1,
                            );
                        assert(self.entries().contains_key(p));
                    } else if i > n {
                        assert(all[i] == r[i - 1 - n]);
                        assert(right.kv_keys().contains(r[i - 1 - n].0));
                        let p = choose|p: Point3d<X, Y, Z>| #[trigger]
                            right.entries().contains_key(p) && r[i - 1 - n].0 == key_of(
                                p,
                                right.entries()[p].1,
                            );
                        assert(self.entries().contains_key(p));
                    }
                }
                assert forall|k: Seq<u8>| #[trigger] self.kv_keys().contains(k) implies exists|
                    i: int,
                | 0 <= i < all.len() && (#[trigger] all[i]).0 == k by {
                    let p = choose|p: Point3d<X, Y, Z>| #[trigger]
                        self.entries().contains_key(p) && k == key_of(p, self.entries()[p].1);
                    if p == key {
                        assert(all[0].0 == k);
                    } else if left.entries().contains_key(p) {
                        assert(left.kv_keys().contains(k));
                        let i = choose|i: int| 0 <= i < l.len() && (#[trigger] l[i]).0 == k;
                        assert(all[i + 1] == l[i]);
                    } else {
                        assert(right.entries().contains_key(p));
                        assert(right.kv_keys().contains(k));
                        let i = choose|i: int| 0 <= i < r.len() && (#[trigger] r[i]).0 == k;
                        assert(all[i + 1 + n] == r[i]);
                    }
                }
                assert forall|i: int, j: int| 0 <= i < j < all.len() implies (#[trigger] all[i]).0
                    != (#[trigger] all[j]).0 by {
                    let pi = choose|p: Point3d<X, Y, Z>| #[trigger]
                        self.entries().contains_key(p) && all[i].0 == key_of(
                            p,
                            self.entries()[p].1,
                        );
                    let pj = choose|p: Point3d<X, Y, Z>| #[trigger]
                        self.entries().contains_key(p) && all[j].0 == key_of(
                            p,
                            self.entries()[p].1,
                        );
                    if all[i].0 == all[j].0 {
                        lemma_key_injective(pi, self.entries()[pi].1, pj, self.entries()[pj].1);
                        self.lemma_entry_side(i);
                        self.lemma_entry_side(j);
                    }
                }
            },
        }
    }

    /// The point of an entry of a zip-tree is the point of the root for the
    /// first entry, a point of the left subtree for the entries that follow
    /// as far as that subtree has vertices, and a point of the right subtree
    /// for the rest.
    proof fn lemma_entry_side(self, i: int)
        requires
            self.is_zip_tree(),
            self is NonEmpty,
            0 <= i < self.kv_entries().len(),
        ensures
            forall|p: Point3d<X, Y, Z>|
                self.entries().contains_key(p) && self.kv_entries()[i].0 == #[trigger] key_of(
                    p,
                    self.entries()[p].1,
                ) ==> {
                    if i == 0 {
                        p == self->key
                    } else if i <= self.left_subtree().kv_entries().len() {
                        self.left_subtree().entries().contains_key(p)
                    } else {
                        self.right_subtree().entries().contains_key(p)
                    }
                },
        decreases self, 0int,
    {
        let left = self.left_subtree();
        let right = self.right_subtree();
        let all = self.kv_entries();
        let n = left.kv_entries().len() as int;
        left.lemma_kv_entries_cover();
        right.lemma_kv_entries_cover();
        self.lemma_subtrees_apart();
        assert forall|p: Point3d<X, Y, Z>|
            self.entries().contains_key(p) && all[i].0 == #[trigger] key_of(
                p,
                self.entries()[p].1,
            ) implies {
            if i == 0 {
                p == self->key
            } else if i <= n {
                left.entries().contains_key(p)
            } else {
                right.entries().contains_key(p)
            }
        } by {
            if i == 0 {
                lemma_key_injective(p, self.entries()[p].1, self->key, self->rank);
            } else if i <= n {
                assert(all[i] == left.kv_entries()[i - 1]);
                assert(left.kv_keys().contains(all[i].0));
                let q = choose|q: Point3d<X, Y, Z>| #[trigger]
                    left.entries().contains_key(q) && all[i].0 == key_of(q, left.entries()[q].1);
                lemma_key_injective(p, self.entries()[p].1, q, left.entries()[q].1);
            } else {
                assert(all[i] == right.kv_entries()[i - 1 - n]);
                assert(right.kv_keys().contains(all[i].0));
                let q = choose|q: Point3d<X, Y, Z>| #[trigger]
                    right.entries().contains_key(q) && all[i].0 == key_of(
                        q,
                        right.entries()[q].1,
                    );
                lemma_key_injective(p, self.entries()[p].1, q, right.entries()[q].1);
            }
        }
    }

    /// In a storable tree the entry of a vertex tells which children the
    /// vertex has: it records `NO_CHILD` for a child exactly where the vertex
    /// has no such child.
    pub proof fn lemma_recorded_children(self)
        requires
            self.is_storable(),
            self is NonEmpty,
        ensures
            self.left_subtree().recorded_rank() == NO_CHILD <==> self.left_subtree() is Empty,
            self.right_subtree().recorded_rank() == NO_CHILD <==> self.right_subtree() is Empty,
    {
        assert(self.left_subtree().is_storable());
        assert(self.right_subtree().is_storable());
    }

    /// When the look-up of a left child finds it.
    ///
    /// Take a vertex of a zip-tree that has a left child, and the key that the
    /// point of the vertex would have with the rank of that child. No vertex
    /// has that key. The greatest key of the tree strictly below it is the
    /// key of the left child exactly when, in the ordering that the rank of
    /// the child selects, the child comes before the vertex and no vertex of
    /// the tree with the rank of the child lies between the two.
    pub proof fn lemma_left_child_lookup(self, vertex: Self)
        requires
            self.is_zip_tree(),
            self.has_subtree(vertex),
            vertex is NonEmpty,
            vertex.left_subtree() is NonEmpty,
        ensures
            !self.kv_keys().contains(key_of(vertex->key, vertex.left_subtree()->rank)),
            is_predecessor(
                self.kv_keys(),
                key_of(vertex->key, vertex.left_subtree()->rank),
                key_of(vertex.left_subtree()->key, vertex.left_subtree()->rank),
            ) <==> {
                &&& vertex.left_subtree()->key.precedes(Rotation::of_rank(vertex.left_subtree()->rank), &vertex->key)
                &&& forall|q: Point3d<X, Y, Z>| #[trigger]
                    self.entries().contains_key(q) && self.entries()[q].1 == vertex.left_subtree()->rank
                        ==> !(vertex.left_subtree()->key.precedes(Rotation::of_rank(vertex.left_subtree()->rank), &q)
                        && q.precedes(Rotation::of_rank(vertex.left_subtree()->rank), &vertex->key))
            },
    {
        let parent = vertex->key;
        let child = vertex.left_subtree()->key;
        let rank = vertex.left_subtree()->rank;
        let rotation = Rotation::of_rank(rank);
        let keys = self.kv_keys();
        let bound = key_of(parent, rank);
        let found = key_of(child, rank);
        self.lemma_subtree_entries(vertex);
        vertex.lemma_subtrees_apart();
        assert(vertex.left_subtree().entries().contains_key(child));
        assert(vertex.entries().contains_key(child));
        assert(vertex.entries().contains_key(parent));
        assert(self.entries().contains_key(child) && self.entries()[child].1 == rank);
        assert(keys.contains(found));
        if keys.contains(bound) {
            let p = choose|p: Point3d<X, Y, Z>| #[trigger]
                self.entries().contains_key(p) && bound == key_of(p, self.entries()[p].1);
            lemma_key_injective(p, self.entries()[p].1, parent, rank);
        }
        lemma_key_order(child, rank, parent, rank);
        let near = child.precedes(rotation, &parent) && forall|q: Point3d<X, Y, Z>| #[trigger]
            self.entries().contains_key(q) && self.entries()[q].1 == rank ==> !(child.precedes(
                rotation,
                &q,
            ) && q.precedes(rotation, &parent));
        if near {
            assert forall|other: Seq<u8>| #[trigger]
                keys.contains(other) && lex_lt(other, bound) implies lex_le(other, found) by {
                let q = choose|q: Point3d<X, Y, Z>| #[trigger]
                    self.entries().contains_key(q) && other == key_of(q, self.entries()[q].1);
                let rq = self.entries()[q].1;
                lemma_key_order(q, rq, parent, rank);
                lemma_key_order(q, rq, child, rank);
                q.lemma_precedes_trichotomy(rotation, &child);
            }
        }
        if is_predecessor(keys, bound, found) {
            assert forall|q: Point3d<X, Y, Z>| #[trigger]
                self.entries().contains_key(q) && self.entries()[q].1 == rank implies !(
            child.precedes(rotation, &q) && q.precedes(rotation, &parent)) by {
                if child.precedes(rotation, &q) && q.precedes(rotation, &parent) {
                    let other = key_of(q, rank);
                    assert(keys.contains(other));
                    lemma_key_order(q, rank, parent, rank);
                    lemma_key_order(child, rank, q, rank);
                    lemma_lex_irreflexive(found);
                    lemma_lex_asymmetric(found, other);
                }
            }
        }
    }

    /// When the look-up of a right child finds it.
    ///
    /// Take a vertex of a zip-tree that has a right child, and the key that
    /// the point of the vertex would have with the rank of that child. The
    /// least key of the tree strictly above it is the key of the right child
    /// exactly when, in the ordering that the rank of the child selects, the
    /// child comes after the vertex and no vertex of the tree with the rank
    /// of the child lies between the two.
    pub proof fn lemma_right_child_lookup(self, vertex: Self)
        requires
            self.is_zip_tree(),
            self.has_subtree(vertex),
            vertex is NonEmpty,
            vertex.right_subtree() is NonEmpty,
        ensures
            is_successor(
                self.kv_keys(),
                key_of(vertex->key, vertex.right_subtree()->rank),
                key_of(vertex.right_subtree()->key, vertex.right_subtree()->rank),
            ) <==> {
                &&& vertex->key.precedes(Rotation::of_rank(vertex.right_subtree()->rank), &vertex.right_subtree()->key)
                &&& forall|q: Point3d<X, Y, Z>| #[trigger]
                    self.entries().contains_key(q) && self.entries()[q].1 == vertex.right_subtree()->rank
                        ==> !(vertex->key.precedes(Rotation::of_rank(vertex.right_subtree()->rank), &q)
                        && q.precedes(Rotation::of_rank(vertex.right_subtree()->rank), &vertex.right_subtree()->key))
            },
    {
        let parent = vertex->key;
        let child = vertex.right_subtree()->key;
        let rank = vertex.right_subtree()->rank;
        let rotation = Rotation::of_rank(rank);
        let keys = self.kv_keys();
        let bound = key_of(parent, rank);
        let found = key_of(child, rank);
        self.lemma_subtree_entries(vertex);
        vertex.lemma_subtrees_apart();
        assert(vertex.right_subtree().entries().contains_key(child));
        assert(vertex.entries().contains_key(child));
        assert(self.entries().contains_key(child) && self.entries()[child].1 == rank);
        assert(keys.contains(found));
        lemma_key_order(parent, rank, child, rank);
        let near = parent.precedes(rotation, &child) && forall|q: Point3d<X, Y, Z>| #[trigger]
            self.entries().contains_key(q) && self.entries()[q].1 == rank ==> !(parent.precedes(
                rotation,
                &q,
            ) && q.precedes(rotation, &child));
        if near {
            assert forall|other: Seq<u8>| #[trigger]
                keys.contains(other) && lex_lt(bound, other) implies lex_le(found, other) by {
                let q = choose|q: Point3d<X, Y, Z>| #[trigger]
                    self.entries().contains_key(q) && other == key_of(q, self.entries()[q].1);
                let rq = self.entries()[q].1;
                lemma_key_order(parent, rank, q, rq);
                lemma_key_order(child, rank, q, rq);
                q.lemma_precedes_trichotomy(rotation, &child);
            }
        }
        if is_successor(keys, bound, found) {
            assert forall|q: Point3d<X, Y, Z>| #[trigger]
                self.entries().contains_key(q) && self.entries()[q].1 == rank implies !(
            parent.precedes(rotation, &q) && q.precedes(rotation, &child)) by {
                if parent.precedes(rotation, &q) && q.precedes(rotation, &child) {
                    let other = key_of(q, rank);
                    assert(keys.contains(other));
                    lemma_key_order(parent, rank, q, rank);
                    lemma_key_order(q, rank, child, rank);
                    lemma_lex_irreflexive(found);
                    lemma_lex_asymmetric(other, found);
                }
            }
        }
    }
}

} // verus!
