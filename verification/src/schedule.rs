//! The order in which the vertices of a zip-tree are added to it: by
//! descending rank, and among vertices of one rank by ascending point in the
//! ordering of that rank.

use crate::dimension::Dimension;
use crate::point::{Point3d, Rotation};
use crate::tree_laws::{lemma_ranked_before_total, lemma_ranked_before_transitive, ranked_before};
use vstd::prelude::*;

verus! {

/// What a sequence of points with values and ranks amounts to where a point
/// occurs more than once: each point with the value and the rank of its first
/// occurrence.
pub open spec fn entries_of<X: Dimension, Y: Dimension, Z: Dimension, V>(
    items: Seq<(Point3d<X, Y, Z>, V, u8)>,
) -> Map<Point3d<X, Y, Z>, (V, u8)>
    decreases items.len(),
{
    if items.len() == 0 {
        Map::empty()
    } else {
        entries_of(items.drop_first()).insert(items[0].0, (items[0].1, items[0].2))
    }
}

/// No two items have the same point.
pub open spec fn has_distinct_points<X: Dimension, Y: Dimension, Z: Dimension, V>(
    items: Seq<(Point3d<X, Y, Z>, V, u8)>,
) -> bool {
    forall|i: int, j: int|
        0 <= i < j < items.len() ==> (#[trigger] items[i]).0 != (#[trigger] items[j]).0
}

/// `i` is the index of the first item with its point.
pub open spec fn is_first_occurrence<X: Dimension, Y: Dimension, Z: Dimension, V>(
    items: Seq<(Point3d<X, Y, Z>, V, u8)>,
    i: int,
) -> bool {
    0 <= i < items.len() && forall|j: int| 0 <= j < i ==> (#[trigger] items[j]).0 != items[i].0
}

/// What a sequence of items amounts to holds the points of its items and no
/// others, each with the value and the rank of the first item that has it.
pub proof fn lemma_entries_of_first<X: Dimension, Y: Dimension, Z: Dimension, V>(
    items: Seq<(Point3d<X, Y, Z>, V, u8)>,
)
    ensures
        forall|p: Point3d<X, Y, Z>| #[trigger]
            entries_of(items).contains_key(p) <==> exists|i: int|
                0 <= i < items.len() && (#[trigger] items[i]).0 == p,
        forall|i: int| #[trigger]
            is_first_occurrence(items, i) ==> entries_of(items)[items[i].0] == (
                items[i].1,
                items[i].2,
            ),
    decreases items.len(),
{
    if items.len() > 0 {
        let rest = items.drop_first();
        lemma_entries_of_first(rest);
        assert(entries_of(items) == entries_of(rest).insert(items[0].0, (items[0].1, items[0].2)));
        assert forall|p: Point3d<X, Y, Z>| #[trigger]
            entries_of(items).contains_key(p) implies exists|i: int|
            0 <= i < items.len() && (#[trigger] items[i]).0 == p by {
            if p == items[0].0 {
                assert(items[0].0 == p);
            } else {
                assert(entries_of(rest).contains_key(p));
                let i = choose|i: int| 0 <= i < rest.len() && (#[trigger] rest[i]).0 == p;
                assert(items[i + 1] == rest[i]);
                assert(items[i + 1].0 == p);
            }
        }
        assert forall|p: Point3d<X, Y, Z>|
            (exists|i: int| 0 <= i < items.len() && (#[trigger] items[i]).0 == p) implies (
        #[trigger] entries_of(items).contains_key(p)) by {
            let i = choose|i: int| 0 <= i < items.len() && (#[trigger] items[i]).0 == p;
            if i > 0 {
                assert(rest[i - 1] == items[i]);
                assert(rest[i - 1].0 == p);
                assert(entries_of(rest).contains_key(p));
            }
        }
        assert forall|i: int| #[trigger] is_first_occurrence(items, i) implies entries_of(
            items,
        )[items[i].0] == (items[i].1, items[i].2) by {
            if i > 0 {
                assert(rest[i - 1] == items[i]);
                assert(items[0].0 != items[i].0);
                assert(is_first_occurrence(rest, i - 1)) by {
                    assert forall|j: int| 0 <= j < i - 1 implies (#[trigger] rest[j]).0 != rest[i
                        - 1].0 by {
                        assert(rest[j] == items[j + 1]);
                    }
                }
            }
        }
    }
}

/// Items with distinct points amount to as many points as there are items.
pub proof fn lemma_entries_of_len<X: Dimension, Y: Dimension, Z: Dimension, V>(
    items: Seq<(Point3d<X, Y, Z>, V, u8)>,
)
    requires
        has_distinct_points(items),
    ensures
        entries_of(items).dom().finite(),
        entries_of(items).dom().len() == items.len(),
    decreases items.len(),
{
    if items.len() == 0 {
        assert(entries_of(items).dom() =~= Set::empty());
    } else {
        let rest = items.drop_first();
        assert(has_distinct_points(rest)) by {
            assert forall|i: int, j: int| 0 <= i < j < rest.len() implies (#[trigger] rest[i]).0
                != (#[trigger] rest[j]).0 by {
                assert(rest[i] == items[i + 1]);
                assert(rest[j] == items[j + 1]);
            }
        }
        lemma_entries_of_len(rest);
        lemma_entries_of_first(rest);
        if entries_of(rest).contains_key(items[0].0) {
            let i = choose|i: int| 0 <= i < rest.len() && (#[trigger] rest[i]).0 == items[0].0;
            assert(rest[i] == items[i + 1]);
        }
        assert(entries_of(items).dom() =~= entries_of(rest).dom().insert(items[0].0));
    }
}

/// An item of a sequence is an item of every sequence with the same items.
proof fn lemma_same_items<T>(a: Seq<T>, b: Seq<T>, item: T)
    requires
        a.to_multiset() == b.to_multiset(),
        a.contains(item),
    ensures
        b.contains(item),
{
    a.to_multiset_ensures();
    b.to_multiset_ensures();
    assert(a.to_multiset().count(item) > 0);
    assert(b.to_multiset().count(item) > 0);
}

/// The order of the items does not matter where no point occurs twice: two
/// sequences that hold the same items amount to the same.
pub proof fn lemma_entries_of_any_order<X: Dimension, Y: Dimension, Z: Dimension, V>(
    a: Seq<(Point3d<X, Y, Z>, V, u8)>,
    b: Seq<(Point3d<X, Y, Z>, V, u8)>,
)
    requires
        has_distinct_points(a),
        a.to_multiset() == b.to_multiset(),
    ensures
        has_distinct_points(b),
        entries_of(a) == entries_of(b),
{
    a.to_multiset_ensures();
    b.to_multiset_ensures();
    assert(a.no_duplicates());
    a.lemma_multiset_has_no_duplicates();
    b.lemma_multiset_has_no_duplicates_conv();
    assert forall|i: int, j: int| 0 <= i < j < b.len() implies (#[trigger] b[i]).0 != (
    #[trigger] b[j]).0 by {
        lemma_same_items(b, a, b[i]);
        lemma_same_items(b, a, b[j]);
        let ia = choose|k: int| 0 <= k < a.len() && a[k] == b[i];
        let ja = choose|k: int| 0 <= k < a.len() && a[k] == b[j];
        if b[i].0 == b[j].0 {
            assert(ia == ja);
        }
    }
    lemma_entries_of_first(a);
    lemma_entries_of_first(b);
    assert forall|p: Point3d<X, Y, Z>|
        entries_of(a).contains_key(p) == entries_of(b).contains_key(p) by {
        if entries_of(a).contains_key(p) {
            let i = choose|i: int| 0 <= i < a.len() && (#[trigger] a[i]).0 == p;
            lemma_same_items(a, b, a[i]);
            let j = choose|k: int| 0 <= k < b.len() && b[k] == a[i];
            assert(b[j].0 == p);
        }
        if entries_of(b).contains_key(p) {
            let i = choose|i: int| 0 <= i < b.len() && (#[trigger] b[i]).0 == p;
            lemma_same_items(b, a, b[i]);
            let j = choose|k: int| 0 <= k < a.len() && a[k] == b[i];
            assert(a[j].0 == p);
        }
    }
    assert forall|p: Point3d<X, Y, Z>| entries_of(a).contains_key(p) implies entries_of(a)[p]
        == entries_of(b)[p] by {
        let i = choose|i: int| 0 <= i < a.len() && (#[trigger] a[i]).0 == p;
        lemma_same_items(a, b, a[i]);
        let j = choose|k: int| 0 <= k < b.len() && b[k] == a[i];
        assert(is_first_occurrence(a, i));
        assert(is_first_occurrence(b, j));
    }
    assert(entries_of(a) =~= entries_of(b));
}

/// `pending` holds exactly the points of `target`, each once and with its
/// value and rank, in the reverse of the order in which they are added to a
/// tree: the last item is added first.
pub open spec fn is_schedule<X: Dimension, Y: Dimension, Z: Dimension, V>(
    pending: Seq<(Point3d<X, Y, Z>, V, u8)>,
    target: Map<Point3d<X, Y, Z>, (V, u8)>,
) -> bool {
    &&& forall|i: int|
        0 <= i < pending.len() ==> target.contains_key((#[trigger] pending[i]).0) && target[pending[i].0]
            == (pending[i].1, pending[i].2)
    &&& forall|p: Point3d<X, Y, Z>| #[trigger]
        target.contains_key(p) ==> exists|i: int| 0 <= i < pending.len() && (#[trigger] pending[i]).0 == p
    &&& forall|i: int, j: int|
        0 <= i < j < pending.len() ==> ranked_before(
            (#[trigger] pending[j]).0,
            pending[j].2,
            (#[trigger] pending[i]).0,
            pending[i].2,
        )
}

/// No two items of a schedule share a point.
pub proof fn lemma_schedule_distinct<X: Dimension, Y: Dimension, Z: Dimension, V>(
    pending: Seq<(Point3d<X, Y, Z>, V, u8)>,
    target: Map<Point3d<X, Y, Z>, (V, u8)>,
    i: int,
    j: int,
)
    requires
        is_schedule(pending, target),
        0 <= i < j < pending.len(),
    ensures
        pending[i].0 != pending[j].0,
{
    let p = pending[j].0;
    p.lemma_precedes_trichotomy(Rotation::of_rank(pending[j].2), &p);
}

/// A schedule without the item at `j` is a schedule for the target without
/// the point of that item.
pub proof fn lemma_schedule_remove<X: Dimension, Y: Dimension, Z: Dimension, V>(
    pending: Seq<(Point3d<X, Y, Z>, V, u8)>,
    target: Map<Point3d<X, Y, Z>, (V, u8)>,
    j: int,
)
    requires
        is_schedule(pending, target),
        0 <= j < pending.len(),
    ensures
        is_schedule(pending.remove(j), target.remove(pending[j].0)),
{
    let rest = pending.remove(j);
    let gone = pending[j].0;
    let smaller = target.remove(gone);
    assert forall|i: int| 0 <= i < rest.len() implies smaller.contains_key((#[trigger] rest[i]).0)
        && smaller[rest[i].0] == (rest[i].1, rest[i].2) by {
        if i < j {
            assert(rest[i] == pending[i]);
            lemma_schedule_distinct(pending, target, i, j);
        } else {
            assert(rest[i] == pending[i + 1]);
            lemma_schedule_distinct(pending, target, j, i + 1);
        }
    }
    assert forall|p: Point3d<X, Y, Z>| #[trigger] smaller.contains_key(p) implies exists|i: int|
        0 <= i < rest.len() && (#[trigger] rest[i]).0 == p by {
        assert(target.contains_key(p));
        let i = choose|i: int| 0 <= i < pending.len() && (#[trigger] pending[i]).0 == p;
        if i < j {
            assert(rest[i] == pending[i]);
        } else {
            assert(rest[i - 1] == pending[i]);
        }
    }
    assert forall|a: int, b: int| 0 <= a < b < rest.len() implies ranked_before(
        (#[trigger] rest[b]).0,
        rest[b].2,
        (#[trigger] rest[a]).0,
        rest[a].2,
    ) by {
        let a0 = if a < j { a } else { a + 1 };
        let b0 = if b < j { b } else { b + 1 };
        assert(rest[a] == pending[a0]);
        assert(rest[b] == pending[b0]);
    }
}

/// A schedule that holds no item with the point `p` is a schedule for a
/// target without `p`.
pub proof fn lemma_schedule_lacks<X: Dimension, Y: Dimension, Z: Dimension, V>(
    pending: Seq<(Point3d<X, Y, Z>, V, u8)>,
    target: Map<Point3d<X, Y, Z>, (V, u8)>,
    p: Point3d<X, Y, Z>,
)
    requires
        is_schedule(pending, target),
        forall|i: int| 0 <= i < pending.len() ==> (#[trigger] pending[i]).0 != p,
    ensures
        !target.contains_key(p),
        target.remove(p) == target,
{
    assert(target.remove(p) =~= target);
}

/// A schedule takes a new item at the index in front of which every item is
/// added after the new one, and from which on every item is added before it.
pub proof fn lemma_schedule_insert<X: Dimension, Y: Dimension, Z: Dimension, V>(
    pending: Seq<(Point3d<X, Y, Z>, V, u8)>,
    target: Map<Point3d<X, Y, Z>, (V, u8)>,
    slot: int,
    item: (Point3d<X, Y, Z>, V, u8),
)
    requires
        is_schedule(pending, target),
        !target.contains_key(item.0),
        0 <= slot <= pending.len(),
        forall|i: int|
            0 <= i < slot ==> ranked_before(item.0, item.2, (#[trigger] pending[i]).0, pending[i].2),
        slot < pending.len() ==> !ranked_before(
            item.0,
            item.2,
            pending[slot].0,
            pending[slot].2,
        ),
    ensures
        is_schedule(pending.insert(slot, item), target.insert(item.0, (item.1, item.2))),
{
    let more = pending.insert(slot, item);
    let larger = target.insert(item.0, (item.1, item.2));
    assert forall|i: int| 0 <= i < pending.len() implies (#[trigger] pending[i]).0 != item.0 by {}
    assert forall|i: int| 0 <= i < more.len() implies larger.contains_key((#[trigger] more[i]).0)
        && larger[more[i].0] == (more[i].1, more[i].2) by {
        if i < slot {
            assert(more[i] == pending[i]);
        } else if i > slot {
            assert(more[i] == pending[i - 1]);
        }
    }
    assert forall|p: Point3d<X, Y, Z>| #[trigger] larger.contains_key(p) implies exists|i: int|
        0 <= i < more.len() && (#[trigger] more[i]).0 == p by {
        if p == item.0 {
            assert(more[slot] == item);
        } else {
            let i = choose|i: int| 0 <= i < pending.len() && (#[trigger] pending[i]).0 == p;
            if i < slot {
                assert(more[i] == pending[i]);
            } else {
                assert(more[i + 1] == pending[i]);
            }
        }
    }
    assert forall|a: int, b: int| 0 <= a < b < more.len() implies ranked_before(
        (#[trigger] more[b]).0,
        more[b].2,
        (#[trigger] more[a]).0,
        more[a].2,
    ) by {
        if b == slot {
            assert(more[a] == pending[a]);
        } else if a == slot {
            assert(more[b] == pending[b - 1]);
            let at = pending[slot];
            lemma_ranked_before_total(item.0, item.2, at.0, at.2);
            if b - 1 > slot {
                lemma_ranked_before_transitive(
                    pending[b - 1].0,
                    pending[b - 1].2,
                    at.0,
                    at.2,
                    item.0,
                    item.2,
                );
            }
        } else {
            let a0 = if a < slot { a } else { a - 1 };
            let b0 = if b < slot { b } else { b - 1 };
            assert(more[a] == pending[a0]);
            assert(more[b] == pending[b0]);
        }
    }
}

/// The index of the item of `pending` that has the point `point`, or the
/// length of `pending` where none has.
pub(crate) fn position_of<X: Dimension, Y: Dimension, Z: Dimension, V>(
    pending: &Vec<(Point3d<X, Y, Z>, V, u8)>,
    point: &Point3d<X, Y, Z>,
) -> (j: usize)
    ensures
        j <= pending@.len(),
        forall|i: int| 0 <= i < j ==> (#[trigger] pending@[i]).0 != *point,
        j < pending@.len() ==> pending@[j as int].0 == *point,
{
    let mut j: usize = 0;
    while j < pending.len() && !pending[j].0.same_as(point)
        invariant
            j <= pending@.len(),
            forall|i: int| 0 <= i < j ==> (#[trigger] pending@[i]).0 != *point,
        decreases pending@.len() - j,
    {
        j += 1;
    }
    j
}

/// The first index of `pending` whose item is added to a tree before a vertex
/// with the given point and rank, or the length of `pending` where every item
/// is added after it.
pub(crate) fn slot_for<X: Dimension, Y: Dimension, Z: Dimension, V>(
    pending: &Vec<(Point3d<X, Y, Z>, V, u8)>,
    point: &Point3d<X, Y, Z>,
    rank: u8,
) -> (slot: usize)
    ensures
        slot <= pending@.len(),
        forall|i: int|
            0 <= i < slot ==> ranked_before(*point, rank, (#[trigger] pending@[i]).0, pending@[i].2),
        slot < pending@.len() ==> !ranked_before(
            *point,
            rank,
            pending@[slot as int].0,
            pending@[slot as int].2,
        ),
{
    let mut slot: usize = 0;
    while slot < pending.len() && goes_first(point, rank, &pending[slot].0, pending[slot].2)
        invariant
            slot <= pending@.len(),
            forall|i: int|
                0 <= i < slot ==> ranked_before(
                    *point,
                    rank,
                    (#[trigger] pending@[i]).0,
                    pending@[i].2,
                ),
        decreases pending@.len() - slot,
    {
        slot += 1;
    }
    slot
}

/// Is a vertex with the point `p` and the rank `rp` added to a tree before one
/// with the point `q` and the rank `rq`?
pub(crate) fn goes_first<X: Dimension, Y: Dimension, Z: Dimension>(
    p: &Point3d<X, Y, Z>,
    rp: u8,
    q: &Point3d<X, Y, Z>,
    rq: u8,
) -> (first: bool)
    ensures
        first == ranked_before(*p, rp, *q, rq),
{
    if rp > rq {
        true
    } else if rp == rq {
        p.comes_before(Rotation::for_rank(rp), q)
    } else {
        false
    }
}

} // verus!
