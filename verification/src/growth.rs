//! Which tree a sequence of points grows into, and what follows for its
//! leaves, its keys and its dividers.

use vstd::prelude::*;
use crate::input::{
    key_in, keeps_order, keys_fresh, lemma_halves, lemma_keys_fresh_narrow, lemma_rearranged,
    lemma_sides_apart, lists, names, names_distinct, point_at, sorted_on,
};
use crate::point::Point;
use crate::shape::{coord, Shape};

verus! {

/// `after` is `before` sorted on `axis`, equal points in their old order.
pub open spec fn stably_sorted(before: Seq<Point>, after: Seq<Point>, axis: int) -> bool {
    &&& after.to_multiset() == before.to_multiset()
    &&& sorted_on(after, axis)
    &&& keeps_order(before, after, axis)
}

/// An inner node with this key and this doubled divider splits `pts`,
/// sorted on `axis` into `sorted`, at the middle: the key is `keys[base]` and
/// the divider is the midpoint of the two middle coordinates.
pub open spec fn splits(
    key: Seq<char>,
    div: int,
    pts: Seq<Point>,
    keys: Seq<String>,
    base: int,
    axis: int,
    sorted: Seq<Point>,
) -> bool {
    let mid = pts.len() as int / 2;
    &&& pts.len() >= 2
    &&& 0 <= base < keys.len()
    &&& key == keys[base]@
    &&& stably_sorted(pts, sorted, axis)
    &&& div == sorted[mid - 1].p[axis] + sorted[mid].p[axis]
}

/// `s` is the tree that `pts` grow into when the top node splits on `axis`
/// and takes its keys from `keys[base..]`. A single point is a leaf. More
/// points are sorted on the axis and split at the middle; the lower half
/// grows into `less` and the upper half into `more`, both on the other axis,
/// and the keys after the first go to the lower half first.
pub open spec fn grown_from(s: Shape, pts: Seq<Point>, keys: Seq<String>, base: int, axis: int) -> bool
    decreases s,
{
    match s {
        Shape::Leaf { name, x, y } => pts.len() == 1 && point_at(pts[0], name, x, y),
        Shape::Inner { key, div, less, more } => exists|sorted: Seq<Point>|
            {
                &&& #[trigger] splits(key, div, pts, keys, base, axis, sorted)
                &&& grown_from(
                    *less,
                    sorted.subrange(0, pts.len() as int / 2),
                    keys,
                    base + 1,
                    1 - axis,
                )
                &&& grown_from(
                    *more,
                    sorted.subrange(pts.len() as int / 2, pts.len() as int),
                    keys,
                    base + pts.len() as int / 2,
                    1 - axis,
                )
            },
    }
}

/// Two grown halves under a node that splits make a grown tree.
pub proof fn lemma_grown_inner(
    s: Shape,
    pts: Seq<Point>,
    keys: Seq<String>,
    base: int,
    axis: int,
    sorted: Seq<Point>,
)
    requires
        s is Inner,
        splits(s->key, s->div, pts, keys, base, axis, sorted),
        grown_from(*s->less, sorted.subrange(0, pts.len() as int / 2), keys, base + 1, 1 - axis),
        grown_from(
            *s->more,
            sorted.subrange(pts.len() as int / 2, pts.len() as int),
            keys,
            base + pts.len() as int / 2,
            1 - axis,
        ),
    ensures
        grown_from(s, pts, keys, base, axis),
{
}

/// The sorted points by which the top node of a grown tree splits.
pub open spec fn split_order(s: Shape, pts: Seq<Point>, keys: Seq<String>, base: int, axis: int) -> Seq<
    Point,
> {
    choose|sorted: Seq<Point>|
        {
            &&& #[trigger] splits(s->key, s->div, pts, keys, base, axis, sorted)
            &&& grown_from(
                *s->less,
                sorted.subrange(0, pts.len() as int / 2),
                keys,
                base + 1,
                1 - axis,
            )
            &&& grown_from(
                *s->more,
                sorted.subrange(pts.len() as int / 2, pts.len() as int),
                keys,
                base + pts.len() as int / 2,
                1 - axis,
            )
        }
}

/// The leaves of a grown tree are the points it grew from, one leaf for each
/// point: none is left out, none is added, and there are as many.
pub proof fn lemma_grown_leaves(s: Shape, pts: Seq<Point>, keys: Seq<String>, base: int, axis: int)
    requires
        grown_from(s, pts, keys, base, axis),
    ensures
        forall|n: Seq<char>, x: int, y: int| #[trigger] s.has_leaf(n, x, y) <==> lists(pts, n, x, y),
        forall|k: Seq<char>| #[trigger] s.has_name(k) <==> names(pts, k),
        s.size() == pts.len(),
    decreases s,
{
    match s {
        Shape::Leaf { name, x, y } => {
            assert forall|n: Seq<char>, x: int, y: int| #[trigger]
                s.has_leaf(n, x, y) <==> lists(pts, n, x, y) by {
                if s.has_leaf(n, x, y) {
                    assert(point_at(pts[0], n, x, y));
                }
            }
            assert forall|k: Seq<char>| #[trigger] s.has_name(k) <==> names(pts, k) by {
                if s.has_name(k) {
                    assert(pts[0].name@ == k);
                }
            }
        },
        Shape::Inner { less, more, .. } => {
            let sorted = split_order(s, pts, keys, base, axis);
            let mid = pts.len() as int / 2;
            lemma_rearranged(pts, sorted);
            lemma_halves(sorted, mid);
            let left = sorted.subrange(0, mid);
            let right = sorted.subrange(mid, pts.len() as int);
            lemma_grown_leaves(*less, left, keys, base + 1, 1 - axis);
            lemma_grown_leaves(*more, right, keys, base + mid, 1 - axis);
            assert forall|n: Seq<char>, x: int, y: int| #[trigger]
                s.has_leaf(n, x, y) <==> lists(pts, n, x, y) by {
                assert(lists(sorted, n, x, y) <==> lists(pts, n, x, y));
                assert(lists(sorted, n, x, y) <==> lists(left, n, x, y) || lists(right, n, x, y));
                assert(less.has_leaf(n, x, y) <==> lists(left, n, x, y));
                assert(more.has_leaf(n, x, y) <==> lists(right, n, x, y));
            }
            assert forall|k: Seq<char>| #[trigger] s.has_name(k) <==> names(pts, k) by {
                assert(names(sorted, k) <==> names(pts, k));
                assert(names(sorted, k) <==> names(left, k) || names(right, k));
                assert(less.has_name(k) <==> names(left, k));
                assert(more.has_name(k) <==> names(right, k));
            }
        },
    }
}

/// In a grown tree every divider separates its two sides.
pub proof fn lemma_grown_partitioned(
    s: Shape,
    pts: Seq<Point>,
    keys: Seq<String>,
    base: int,
    axis: int,
)
    requires
        grown_from(s, pts, keys, base, axis),
        0 <= axis < 2,
    ensures
        s.partitioned(axis),
    decreases s,
{
    match s {
        Shape::Leaf { .. } => {},
        Shape::Inner { div, less, more, .. } => {
            let sorted = split_order(s, pts, keys, base, axis);
            let mid = pts.len() as int / 2;
            lemma_rearranged(pts, sorted);
            let left = sorted.subrange(0, mid);
            let right = sorted.subrange(mid, pts.len() as int);
            lemma_grown_leaves(*less, left, keys, base + 1, 1 - axis);
            lemma_grown_leaves(*more, right, keys, base + mid, 1 - axis);
            lemma_grown_partitioned(*less, left, keys, base + 1, 1 - axis);
            lemma_grown_partitioned(*more, right, keys, base + mid, 1 - axis);
            assert forall|n: Seq<char>, x: int, y: int| #[trigger]
                less.has_leaf(n, x, y) implies 2 * coord(x, y, axis) <= div by {
                assert(lists(left, n, x, y));
                let i = choose|i: int| 0 <= i < left.len() && point_at(#[trigger] left[i], n, x, y);
                assert(sorted[i].p[axis] <= sorted[mid - 1].p[axis]);
                assert(sorted[mid - 1].p[axis] <= sorted[mid].p[axis]);
            }
            assert forall|n: Seq<char>, x: int, y: int| #[trigger]
                more.has_leaf(n, x, y) implies 2 * coord(x, y, axis) >= div by {
                assert(lists(right, n, x, y));
                let i = choose|i: int|
                    0 <= i < right.len() && point_at(#[trigger] right[i], n, x, y);
                assert(sorted[mid].p[axis] <= sorted[i + mid].p[axis]);
                assert(sorted[mid - 1].p[axis] <= sorted[mid].p[axis]);
            }
        },
    }
}

/// The keys of a grown tree are the names of its points and the keys of its
/// inner nodes, which are the next `pts.len() - 1` of `keys` from `base` on.
pub proof fn lemma_grown_keys(s: Shape, pts: Seq<Point>, keys: Seq<String>, base: int, axis: int)
    requires
        grown_from(s, pts, keys, base, axis),
        0 <= base,
    ensures
        forall|k: Seq<char>| #[trigger]
            s.has_key(k) <==> names(pts, k) || key_in(keys, base, base + pts.len() - 1, k),
    decreases s,
{
    match s {
        Shape::Leaf { name, .. } => {
            assert forall|k: Seq<char>| #[trigger]
                s.has_key(k) <==> names(pts, k) || key_in(keys, base, base + pts.len() - 1, k) by {
                if s.has_key(k) {
                    assert(pts[0].name@ == k);
                }
            }
        },
        Shape::Inner { key, less, more, .. } => {
            let sorted = split_order(s, pts, keys, base, axis);
            let n = pts.len() as int;
            let mid = n / 2;
            lemma_rearranged(pts, sorted);
            lemma_halves(sorted, mid);
            let left = sorted.subrange(0, mid);
            let right = sorted.subrange(mid, n);
            lemma_grown_keys(*less, left, keys, base + 1, 1 - axis);
            lemma_grown_keys(*more, right, keys, base + mid, 1 - axis);
            assert forall|k: Seq<char>| #[trigger]
                s.has_key(k) <==> names(pts, k) || key_in(keys, base, base + n - 1, k) by {
                assert(names(sorted, k) <==> names(pts, k));
                assert(names(sorted, k) <==> names(left, k) || names(right, k));
                assert(less.has_key(k) <==> names(left, k) || key_in(
                    keys,
                    base + 1,
                    base + mid,
                    k,
                ));
                assert(more.has_key(k) <==> names(right, k) || key_in(
                    keys,
                    base + mid,
                    base + n - 1,
                    k,
                ));
                if key_in(keys, base, base + n - 1, k) {
                    let j = choose|j: int|
                        base <= j < base + n - 1 && 0 <= j < keys.len() && (#[trigger] keys[j])@
                            == k;
                    if j == base {
                    } else if j < base + mid {
                        assert(key_in(keys, base + 1, base + mid, k));
                    } else {
                        assert(key_in(keys, base + mid, base + n - 1, k));
                    }
                }
                if key_in(keys, base + 1, base + mid, k) {
                    let j = choose|j: int|
                        base + 1 <= j < base + mid && 0 <= j < keys.len() && (#[trigger] keys[j])@
                            == k;
                    assert(keys[j]@ == k);
                }
                if key_in(keys, base + mid, base + n - 1, k) {
                    let j = choose|j: int|
                        base + mid <= j < base + n - 1 && 0 <= j < keys.len() && (
                        #[trigger] keys[j])@ == k;
                    assert(keys[j]@ == k);
                }
                if k == key {
                    assert(keys[base]@ == k);
                }
            }
        },
    }
}

/// A tree grown from points with different names and fresh keys has no key
/// twice.
pub proof fn lemma_grown_distinct(
    s: Shape,
    pts: Seq<Point>,
    keys: Seq<String>,
    base: int,
    axis: int,
)
    requires
        grown_from(s, pts, keys, base, axis),
        names_distinct(pts),
        keys_fresh(keys, base, base + pts.len() - 1, pts),
    ensures
        s.distinct(),
    decreases s,
{
    match s {
        Shape::Leaf { .. } => {},
        Shape::Inner { key, less, more, .. } => {
            let sorted = split_order(s, pts, keys, base, axis);
            let n = pts.len() as int;
            let mid = n / 2;
            lemma_rearranged(pts, sorted);
            lemma_halves(sorted, mid);
            let left = sorted.subrange(0, mid);
            let right = sorted.subrange(mid, n);
            lemma_keys_fresh_narrow(keys, base, base + n - 1, pts, base, base + n - 1, sorted);
            assert forall|k: Seq<char>| #[trigger] names(left, k) implies names(sorted, k) by {
                assert(names(sorted, k) <==> names(left, k) || names(right, k));
            }
            assert forall|k: Seq<char>| #[trigger] names(right, k) implies names(sorted, k) by {
                assert(names(sorted, k) <==> names(left, k) || names(right, k));
            }
            lemma_keys_fresh_narrow(keys, base, base + n - 1, sorted, base + 1, base + mid, left);
            lemma_keys_fresh_narrow(
                keys,
                base,
                base + n - 1,
                sorted,
                base + mid,
                base + n - 1,
                right,
            );
            lemma_sides_apart(keys, base, sorted, mid);
            lemma_grown_keys(*less, left, keys, base + 1, 1 - axis);
            lemma_grown_keys(*more, right, keys, base + mid, 1 - axis);
            lemma_grown_distinct(*less, left, keys, base + 1, 1 - axis);
            lemma_grown_distinct(*more, right, keys, base + mid, 1 - axis);
            assert(!names(left, key) && !names(right, key));
            assert(!key_in(keys, base + 1, base + mid, key));
            assert(!key_in(keys, base + mid, base + n - 1, key));
            assert forall|k: Seq<char>| !(#[trigger] less.has_key(k) && more.has_key(k)) by {
                assert(!((names(left, k) || key_in(keys, base + 1, base + mid, k)) && (names(
                    right,
                    k,
                ) || key_in(keys, base + mid, base + n - 1, k))));
            }
        },
    }
}

} // verus!
