//! The ordered key-value store that a tree is laid out in.

use crate::bytes::{lemma_lex_asymmetric, lemma_lex_successor, lex_le, lex_lt};
use crate::dimension::Dimension;
use crate::kv_tree::{
    entries_view, is_predecessor, is_successor, key_of, left_child_bound, max_key_len,
    right_child_bound, KvValue, NO_CHILD,
};
use crate::monoid::LiftingCommutativeMonoid;
use crate::point::{Point3d, Rotation};
use crate::tree::ControlNode;
use vstd::prelude::*;

verus! {

/// What a map holds for a key, if anything.
pub open spec fn value_at<V>(contents: Map<Seq<u8>, V>, key: Seq<u8>) -> Option<V> {
    if contents.contains_key(key) {
        Some(contents[key])
    } else {
        None
    }
}

/// `key` is the greatest of `keys` that does not come after `bound`.
pub open spec fn is_greatest_at_most(keys: Set<Seq<u8>>, bound: Seq<u8>, key: Seq<u8>) -> bool {
    &&& keys.contains(key)
    &&& lex_le(key, bound)
    &&& forall|other: Seq<u8>| #[trigger] keys.contains(other) && lex_le(other, bound) ==> lex_le(other, key)
}

/// `key` is the least of `keys` that does not come before `bound`.
pub open spec fn is_least_at_least(keys: Set<Seq<u8>>, bound: Seq<u8>, key: Seq<u8>) -> bool {
    &&& keys.contains(key)
    &&& lex_le(bound, key)
    &&& forall|other: Seq<u8>| #[trigger] keys.contains(other) && lex_le(bound, other) ==> lex_le(key, other)
}

/// No key of `keys` comes before `bound` or equals it.
pub open spec fn none_at_most(keys: Set<Seq<u8>>, bound: Seq<u8>) -> bool {
    forall|other: Seq<u8>| #[trigger] keys.contains(other) ==> !lex_le(other, bound)
}

/// No key of `keys` comes after `bound` or equals it.
pub open spec fn none_at_least(keys: Set<Seq<u8>>, bound: Seq<u8>) -> bool {
    forall|other: Seq<u8>| #[trigger] keys.contains(other) ==> !lex_le(bound, other)
}

/// A storage backend that maps bytestring keys to values of some type `V`,
/// and allows for access based on the lexicographic ordering of the keys.
///
/// Every operation can fail with an error of the backend; nothing is said of
/// an operation that failed. The operations hand their results back when they
/// are done: a backend that works asynchronously is waited for by its
/// implementation.
pub trait BackEnd<V> {
    /// Type of errors that can occur when interacting with the backend.
    type Error;

    /// What the backend holds, all mutations so far included, whether they
    /// have been persisted or not. An implementation that is verified says
    /// here what it holds; of one that is not, nothing is known.
    open spec fn contents(&self) -> Map<Seq<u8>, V> {
        arbitrary()
    }

    /// Insert a kv pair. Returns the old value for that key, if there was any.
    fn insert(&mut self, key: &[u8], value: V) -> (r: Result<Option<V>, Self::Error>)
        ensures
            r matches Ok(previous) ==> final(self).contents() == old(self).contents().insert(
                key@,
                value,
            ) && previous == value_at(old(self).contents(), key@),
    ;

    /// Delete a kv pair. Returns the old value for that key, if there was any.
    fn delete(&mut self, key: &[u8]) -> (r: Result<Option<V>, Self::Error>)
        ensures
            r matches Ok(previous) ==> final(self).contents() == old(self).contents().remove(key@)
                && previous == value_at(old(self).contents(), key@),
    ;

    /// Persist all mutations that have been performed so far. This changes
    /// nothing of what the backend holds.
    fn flush(&mut self) -> (r: Result<(), Self::Error>)
        ensures
            r is Ok ==> final(self).contents() == old(self).contents(),
    ;

    /// Get the value associated with the given key, if there is any.
    fn get(&self, key: &[u8]) -> (r: Result<Option<V>, Self::Error>)
        ensures
            r matches Ok(found) ==> found == value_at(self.contents(), key@),
    ;

    /// Get the greatest kv pair whose key is less than or equal to the given
    /// key, if there is any.
    fn find_lte<'a>(&'a self, key: &[u8]) -> (r: Result<Option<(&'a [u8], V)>, Self::Error>)
        ensures
            r matches Ok(found) ==> match found {
                Some((at, value)) => is_greatest_at_most(self.contents().dom(), key@, at@)
                    && value == self.contents()[at@],
                None => none_at_most(self.contents().dom(), key@),
            },
    ;

    /// Get the least kv pair whose key is greater than or equal to the given
    /// key, if there is any.
    fn find_gte<'a>(&'a self, key: &[u8]) -> (r: Result<Option<(&'a [u8], V)>, Self::Error>)
        ensures
            r matches Ok(found) ==> match found {
                Some((at, value)) => is_least_at_least(self.contents().dom(), key@, at@)
                    && value == self.contents()[at@],
                None => none_at_least(self.contents().dom(), key@),
            },
    ;
}

/// Where `bound` is no key, the greatest key that does not come after it is
/// the greatest key strictly below it.
pub proof fn lemma_at_most_is_predecessor(keys: Set<Seq<u8>>, bound: Seq<u8>, key: Seq<u8>)
    requires
        !keys.contains(bound),
    ensures
        is_greatest_at_most(keys, bound, key) <==> is_predecessor(keys, bound, key),
{
}

/// The least key that does not come before `bound + [0]` is the least key
/// strictly above `bound`.
pub proof fn lemma_at_least_is_successor(keys: Set<Seq<u8>>, bound: Seq<u8>, key: Seq<u8>)
    ensures
        is_least_at_least(keys, bound + seq![0u8], key) <==> is_successor(keys, bound, key),
{
    lemma_lex_successor(bound, key);
    assert forall|other: Seq<u8>|
        lex_le(bound + seq![0u8], other) == lex_lt(bound, other) by {
        lemma_lex_successor(bound, other);
    }
}

/// What a backend holds after the entries have been inserted into it, from
/// the first to the last.
pub open spec fn loaded<V>(contents: Map<Seq<u8>, V>, entries: Seq<(Seq<u8>, V)>) -> Map<
    Seq<u8>,
    V,
>
    decreases entries.len(),
{
    if entries.len() == 0 {
        contents
    } else {
        loaded(contents, entries.drop_last()).insert(entries.last().0, entries.last().1)
    }
}

/// A backend that was empty holds, once the entries have been inserted, the
/// keys of those entries and no others.
pub proof fn lemma_loaded_keys<V>(entries: Seq<(Seq<u8>, V)>)
    ensures
        forall|key: Seq<u8>| #[trigger]
            loaded(Map::<Seq<u8>, V>::empty(), entries).contains_key(key) <==> exists|i: int|
                0 <= i < entries.len() && (#[trigger] entries[i]).0 == key,
    decreases entries.len(),
{
    if entries.len() > 0 {
        let front = entries.drop_last();
        lemma_loaded_keys(front);
        let whole = loaded(Map::<Seq<u8>, V>::empty(), entries);
        assert forall|key: Seq<u8>| #[trigger] whole.contains_key(key) implies exists|i: int|
            0 <= i < entries.len() && (#[trigger] entries[i]).0 == key by {
            if key == entries.last().0 {
                assert(entries[entries.len() - 1].0 == key);
            } else {
                assert(loaded(Map::<Seq<u8>, V>::empty(), front).contains_key(key));
                let i = choose|i: int| 0 <= i < front.len() && (#[trigger] front[i]).0 == key;
                assert(entries[i] == front[i]);
            }
        }
        assert forall|key: Seq<u8>|
            (exists|i: int| 0 <= i < entries.len() && (#[trigger] entries[i]).0 == key) implies (
        #[trigger] whole.contains_key(key)) by {
            let i = choose|i: int| 0 <= i < entries.len() && (#[trigger] entries[i]).0 == key;
            if i < entries.len() - 1 {
                assert(front[i] == entries[i]);
                assert(loaded(Map::<Seq<u8>, V>::empty(), front).contains_key(key));
            }
        }
    }
}

/// A backend that was empty and has been loaded with the entries of a
/// zip-tree holds the keys of the vertices of the tree and no others.
pub proof fn lemma_loaded_tree_keys<X, Y, Z, V, M>(tree: ControlNode<X, Y, Z, V, M>) where
    X: Dimension,
    Y: Dimension,
    Z: Dimension,
    M: LiftingCommutativeMonoid<(Point3d<X, Y, Z>, V)>,

    requires
        tree.is_zip_tree(),
    ensures
        loaded(Map::<Seq<u8>, KvValue<V, M>>::empty(), tree.kv_entries()).dom() == tree.kv_keys(),
{
    lemma_loaded_keys(tree.kv_entries());
    tree.lemma_kv_entries_cover();
    assert(loaded(Map::<Seq<u8>, KvValue<V, M>>::empty(), tree.kv_entries()).dom()
        =~= tree.kv_keys());
}

/// Put the entries that stand for the tree into the store, from that of the
/// root on, and persist them. The first error of the store ends the loading
/// and is handed on.
pub fn store_tree<X, Y, Z, V, M, B>(store: &mut B, tree: ControlNode<X, Y, Z, V, M>) -> (r: Result<
    (),
    B::Error,
>) where
    X: Dimension,
    Y: Dimension,
    Z: Dimension,
    M: LiftingCommutativeMonoid<(Point3d<X, Y, Z>, V)>,
    B: BackEnd<KvValue<V, M>>,

    requires
        max_key_len::<X, Y, Z>() <= usize::MAX,
    ensures
        r is Ok ==> final(store).contents() == loaded(old(store).contents(), tree.kv_entries()),
{
    let entries = tree.into_kv_entries();
    let ghost all = entries_view(entries@);
    let ghost before = store.contents();
    assert(all.take(0) =~= Seq::empty());
    for entry in it: entries.into_iter()
        invariant
            all == entries_view(it.seq()),
            store.contents() == loaded(before, all.take(it.index() as int)),
    {
        let ghost done = it.index() as int;
        let (key, value) = entry;
        proof {
            assert(all.take(done + 1).drop_last() =~= all.take(done));
            assert(all.take(done + 1).last() == all[done]);
        }
        match store.insert(key.as_slice(), value) {
            Ok(_) => {},
            Err(e) => {
                return Err(e);
            },
        }
    }
    assert(all.take(all.len() as int) =~= all);
    store.flush()
}

/// Look up the left child of a vertex, given the point of the vertex and the
/// value of its entry: the entry with the greatest key that does not come
/// after the key that the point has with the rank of the left child. Without
/// a left child on record, nothing is looked up.
pub fn find_left_child<'a, X: Dimension, Y: Dimension, Z: Dimension, V, M, B: BackEnd<KvValue<V, M>>>(
    store: &'a B,
    point: &Point3d<X, Y, Z>,
    entry: &KvValue<V, M>,
) -> (r: Result<Option<(&'a [u8], KvValue<V, M>)>, B::Error>)
    requires
        max_key_len::<X, Y, Z>() <= usize::MAX,
    ensures
        entry.left_rank == NO_CHILD ==> r matches Ok(None),
        r matches Ok(found) ==> match found {
            Some((at, value)) => entry.left_rank != NO_CHILD && is_greatest_at_most(
                store.contents().dom(),
                key_of(*point, entry.left_rank),
                at@,
            ) && value == store.contents()[at@],
            None => entry.left_rank == NO_CHILD || none_at_most(
                store.contents().dom(),
                key_of(*point, entry.left_rank),
            ),
        },
{
    match left_child_bound(point, entry) {
        None => Ok(None),
        Some(bound) => store.find_lte(bound.as_slice()),
    }
}

/// Look up the right child of a vertex, given the point of the vertex and the
/// value of its entry: the entry with the least key strictly above the key
/// that the point has with the rank of the right child. Without a right child
/// on record, nothing is looked up.
pub fn find_right_child<'a, X: Dimension, Y: Dimension, Z: Dimension, V, M, B: BackEnd<KvValue<V, M>>>(
    store: &'a B,
    point: &Point3d<X, Y, Z>,
    entry: &KvValue<V, M>,
) -> (r: Result<Option<(&'a [u8], KvValue<V, M>)>, B::Error>)
    requires
        max_key_len::<X, Y, Z>() < usize::MAX,
    ensures
        entry.right_rank == NO_CHILD ==> r matches Ok(None),
        r matches Ok(found) ==> match found {
            Some((at, value)) => entry.right_rank != NO_CHILD && is_successor(
                store.contents().dom(),
                key_of(*point, entry.right_rank),
                at@,
            ) && value == store.contents()[at@],
            None => entry.right_rank == NO_CHILD || forall|other: Seq<u8>| #[trigger]
                store.contents().dom().contains(other) ==> !lex_lt(
                    key_of(*point, entry.right_rank),
                    other,
                ),
        },
{
    match right_child_bound(point, entry) {
        None => Ok(None),
        Some(bound) => {
            let r = store.find_gte(bound.as_slice());
            proof {
                let exact = key_of(*point, entry.right_rank);
                if r is Ok && r->Ok_0 is Some {
                    lemma_at_least_is_successor(
                        store.contents().dom(),
                        exact,
                        r->Ok_0->Some_0.0@,
                    );
                }
                assert forall|other: Seq<u8>| lex_le(bound@, other) == lex_lt(exact, other) by {
                    lemma_lex_successor(exact, other);
                }
            }
            r
        },
    }
}

/// What `find_left_child` finds in a store that holds the entries of a
/// zip-tree and nothing else.
///
/// Take a vertex of the tree that has a left child, and the key `found` that
/// the look-up gives for it. It is the key of the left child exactly when, in
/// the ordering that the rank of the child selects, the child comes before
/// the vertex and no vertex of the tree with the rank of the child lies
/// between the two.
pub proof fn lemma_left_child_found<X, Y, Z, V, M>(
    tree: ControlNode<X, Y, Z, V, M>,
    vertex: ControlNode<X, Y, Z, V, M>,
    stored: Set<Seq<u8>>,
    found: Seq<u8>,
) where
    X: Dimension,
    Y: Dimension,
    Z: Dimension,
    M: LiftingCommutativeMonoid<(Point3d<X, Y, Z>, V)>,

    requires
        tree.is_zip_tree(),
        tree.has_subtree(vertex),
        vertex is NonEmpty,
        vertex.left_subtree() is NonEmpty,
        stored == tree.kv_keys(),
        is_greatest_at_most(
            stored,
            key_of(vertex->key, vertex.left_subtree()->rank),
            found,
        ),
    ensures
        found == key_of(vertex.left_subtree()->key, vertex.left_subtree()->rank) <==> {
            &&& vertex.left_subtree()->key.precedes(
                Rotation::of_rank(vertex.left_subtree()->rank),
                &vertex->key,
            )
            &&& forall|q: Point3d<X, Y, Z>| #[trigger]
                tree.entries().contains_key(q) && tree.entries()[q].1 == vertex.left_subtree()->rank
                    ==> !(vertex.left_subtree()->key.precedes(
                    Rotation::of_rank(vertex.left_subtree()->rank),
                    &q,
                ) && q.precedes(Rotation::of_rank(vertex.left_subtree()->rank), &vertex->key))
        },
{
    let bound = key_of(vertex->key, vertex.left_subtree()->rank);
    let child = key_of(vertex.left_subtree()->key, vertex.left_subtree()->rank);
    tree.lemma_left_child_lookup(vertex);
    lemma_at_most_is_predecessor(stored, bound, found);
    lemma_at_most_is_predecessor(stored, bound, child);
    if is_predecessor(stored, bound, child) && found != child {
        if lex_lt(found, child) {
            lemma_lex_asymmetric(found, child);
        }
    }
}

/// What `find_right_child` finds in a store that holds the entries of a
/// zip-tree and nothing else.
///
/// Take a vertex of the tree that has a right child, and the key `found` that
/// the look-up gives for it. It is the key of the right child exactly when,
/// in the ordering that the rank of the child selects, the child comes after
/// the vertex and no vertex of the tree with the rank of the child lies
/// between the two.
pub proof fn lemma_right_child_found<X, Y, Z, V, M>(
    tree: ControlNode<X, Y, Z, V, M>,
    vertex: ControlNode<X, Y, Z, V, M>,
    stored: Set<Seq<u8>>,
    found: Seq<u8>,
) where
    X: Dimension,
    Y: Dimension,
    Z: Dimension,
    M: LiftingCommutativeMonoid<(Point3d<X, Y, Z>, V)>,

    requires
        tree.is_zip_tree(),
        tree.has_subtree(vertex),
        vertex is NonEmpty,
        vertex.right_subtree() is NonEmpty,
        stored == tree.kv_keys(),
        is_successor(stored, key_of(vertex->key, vertex.right_subtree()->rank), found),
    ensures
        found == key_of(vertex.right_subtree()->key, vertex.right_subtree()->rank) <==> {
            &&& vertex->key.precedes(
                Rotation::of_rank(vertex.right_subtree()->rank),
                &vertex.right_subtree()->key,
            )
            &&& forall|q: Point3d<X, Y, Z>| #[trigger]
                tree.entries().contains_key(q) && tree.entries()[q].1
                    == vertex.right_subtree()->rank ==> !(vertex->key.precedes(
                    Rotation::of_rank(vertex.right_subtree()->rank),
                    &q,
                ) && q.precedes(
                    Rotation::of_rank(vertex.right_subtree()->rank),
                    &vertex.right_subtree()->key,
                ))
        },
{
    let bound = key_of(vertex->key, vertex.right_subtree()->rank);
    let child = key_of(vertex.right_subtree()->key, vertex.right_subtree()->rank);
    tree.lemma_right_child_lookup(vertex);
    if is_successor(stored, bound, child) && found != child {
        if lex_lt(found, child) {
            lemma_lex_asymmetric(found, child);
        }
    }
}

} // verus!
