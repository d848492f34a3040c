//! The pruned walk for the nearest dominated leaf: what it finds in a tree,
//! and why that is sound and, between true dividers, the nearest.

use vstd::prelude::*;
use crate::node::InternalNode;
use crate::point::{dominates, sq_dist, LeafNode, LeafView};
use crate::shape::{coord, Shape};

verus! {

/// The view of an optional leaf.
pub open spec fn leaf_view(l: Option<&LeafNode>) -> Option<LeafView> {
    match l {
        Some(n) => Some(n@),
        None => None,
    }
}

/// The nearer of two candidates to `(qx, qy)`: an absent one loses to a
/// present one, and on equal distances the second is kept.
pub open spec fn closer(first: Option<LeafView>, second: Option<LeafView>, qx: int, qy: int) -> Option<
    LeafView,
> {
    match (first, second) {
        (None, _) => second,
        (_, None) => first,
        (Some(f), Some(s)) => if sq_dist(f.x, f.y, qx, qy) < sq_dist(s.x, s.y, qx, qy) {
            first
        } else {
            second
        },
    }
}

/// `(qx, qy)` lies where the forward side of a divider cannot serve it: at
/// or beyond the divider on axis 0, at or below it on axis 1. `div` is twice
/// the divider.
pub open spec fn inside(qx: int, qy: int, div: int, axis: int) -> bool {
    if axis == 0 {
        2 * qx >= div
    } else {
        2 * qy <= div
    }
}

/// The reverse side of a divider is still worth a visit: always when there is
/// no candidate yet, else when the divider is strictly nearer to `(qx, qy)`
/// than the candidate. `div` is twice the divider.
pub open spec fn worth_crossing(best: Option<LeafView>, qx: int, qy: int, div: int, axis: int) -> bool {
    match best {
        None => true,
        Some(c) => (2 * coord(qx, qy, axis) - div) * (2 * coord(qx, qy, axis) - div) < 4 * sq_dist(
            qx,
            qy,
            c.x,
            c.y,
        ),
    }
}

impl Shape {
    /// The side of an inner node that is walked first on `axis`: `less` on
    /// axis 0, `more` on axis 1.
    pub open spec fn forward(self, axis: int) -> Shape {
        if axis == 0 {
            *self->less
        } else {
            *self->more
        }
    }

    /// The other side.
    pub open spec fn reverse(self, axis: int) -> Shape {
        if axis == 0 {
            *self->more
        } else {
            *self->less
        }
    }

    /// What the walk for `(qx, qy)` finds in this tree, which hangs below
    /// `parent` and whose top node splits on `axis`. A leaf is found if it is
    /// dominated. At an inner node a query inside goes to the reverse side
    /// alone. Any other goes to the forward side, and then to the reverse
    /// side as well if that is still worth a visit, and keeps the nearer of
    /// the two finds.
    pub open spec fn found(self, parent: Option<Seq<char>>, qx: int, qy: int, axis: int) -> Option<
        LeafView,
    >
        decreases self,
    {
        match self {
            Shape::Leaf { name, x, y } => if dominates(qx, qy, x, y) {
                Some(LeafView { name: name, parent: parent, x: x, y: y })
            } else {
                None
            },
            Shape::Inner { key, div, less, more } => {
                let low = less.found(Some(key), qx, qy, 1 - axis);
                let high = more.found(Some(key), qx, qy, 1 - axis);
                let first = if axis == 0 {
                    low
                } else {
                    high
                };
                let second = if axis == 0 {
                    high
                } else {
                    low
                };
                if inside(qx, qy, div, axis) {
                    second
                } else if worth_crossing(first, qx, qy, div, axis) {
                    closer(first, second, qx, qy)
                } else {
                    first
                }
            },
        }
    }
}

/// For `0 <= a <= b`, `a * a <= b * b`.
pub proof fn lemma_square_monotone(a: int, b: int)
    requires
        0 <= a <= b,
    ensures
        a * a <= b * b,
{
    assert(a * a <= b * b) by (nonlinear_arith)
        requires
            0 <= a <= b,
    ;
}

/// A squared distance is the same in both directions.
pub proof fn lemma_sq_dist_symmetric(ax: int, ay: int, bx: int, by: int)
    ensures
        sq_dist(ax, ay, bx, by) == sq_dist(bx, by, ax, ay),
{
    assert((bx - ax) * (bx - ax) == (ax - bx) * (ax - bx)) by (nonlinear_arith);
    assert((by - ay) * (by - ay) == (ay - by) * (ay - by)) by (nonlinear_arith);
}

/// A squared distance is at least the square of the offset on either axis.
pub proof fn lemma_sq_dist_bounds(ax: int, ay: int, bx: int, by: int)
    ensures
        sq_dist(ax, ay, bx, by) >= (bx - ax) * (bx - ax),
        sq_dist(ax, ay, bx, by) >= (by - ay) * (by - ay),
{
    assert((bx - ax) * (bx - ax) >= 0) by (nonlinear_arith);
    assert((by - ay) * (by - ay) >= 0) by (nonlinear_arith);
}

/// Soundness: whatever the walk finds is a leaf of the tree that the query
/// dominates, whether or not the dividers are true.
pub proof fn lemma_found_admits(s: Shape, parent: Option<Seq<char>>, qx: int, qy: int, axis: int)
    ensures
        s.admits(qx, qy, s.found(parent, qx, qy, axis)),
    decreases s,
{
    match s {
        Shape::Leaf { .. } => {},
        Shape::Inner { key, less, more, .. } => {
            lemma_found_admits(*less, Some(key), qx, qy, 1 - axis);
            lemma_found_admits(*more, Some(key), qx, qy, 1 - axis);
        },
    }
}

/// Completeness: where every divider separates its two sides, the walk
/// finds a dominated leaf if there is one, and none is nearer to the query
/// than the one it finds.
pub proof fn lemma_found_nearest(s: Shape, parent: Option<Seq<char>>, qx: int, qy: int, axis: int)
    requires
        s.partitioned(axis),
        0 <= axis < 2,
    ensures
        s.nearest(qx, qy, s.found(parent, qx, qy, axis)),
    decreases s,
{
    match s {
        Shape::Leaf { .. } => {},
        Shape::Inner { key, div, less, more } => {
            lemma_found_nearest(*less, Some(key), qx, qy, 1 - axis);
            lemma_found_nearest(*more, Some(key), qx, qy, 1 - axis);
            let good = s.forward(axis);
            let bad = s.reverse(axis);
            let first = good.found(Some(key), qx, qy, 1 - axis);
            let second = bad.found(Some(key), qx, qy, 1 - axis);
            let res = s.found(parent, qx, qy, axis);
            assert(good.nearest(qx, qy, first));
            assert(bad.nearest(qx, qy, second));
            assert forall|n: Seq<char>, x: int, y: int| #[trigger]
                s.has_leaf(n, x, y) implies good.has_leaf(n, x, y) || bad.has_leaf(n, x, y) by {}
            if inside(qx, qy, div, axis) {
                assert forall|n: Seq<char>, x: int, y: int| #[trigger]
                    good.has_leaf(n, x, y) implies !dominates(qx, qy, x, y) by {}
            } else if worth_crossing(first, qx, qy, div, axis) {
                if first is Some {
                    lemma_sq_dist_symmetric(qx, qy, first->0.x, first->0.y);
                }
                if second is Some {
                    lemma_sq_dist_symmetric(qx, qy, second->0.x, second->0.y);
                }
            } else {
                let c = first->0;
                let q = coord(qx, qy, axis);
                assert forall|n: Seq<char>, x: int, y: int| #[trigger]
                    bad.has_leaf(n, x, y) && dominates(qx, qy, x, y) implies sq_dist(
                    qx,
                    qy,
                    c.x,
                    c.y,
                ) <= sq_dist(qx, qy, x, y) by {
                    let v = coord(x, y, axis);
                    lemma_sq_dist_bounds(qx, qy, x, y);
                    if axis == 0 {
                        lemma_square_monotone(div - 2 * q, 2 * v - 2 * q);
                    } else {
                        lemma_square_monotone(2 * q - div, 2 * q - 2 * v);
                    }
                    assert((2 * v - 2 * q) * (2 * v - 2 * q) == 4 * ((v - q) * (v - q)))
                        by (nonlinear_arith);
                    assert((2 * q - 2 * v) * (2 * q - 2 * v) == 4 * ((v - q) * (v - q)))
                        by (nonlinear_arith);
                    assert((div - 2 * q) * (div - 2 * q) == (2 * q - div) * (2 * q - div))
                        by (nonlinear_arith);
                }
            }
        },
    }
}

/// The nearer of two candidates to `point`; an absent one loses to a present
/// one, and on equal distances the second is kept.
pub fn get_closer<'a>(
    first: Option<&'a LeafNode>,
    second: Option<&'a LeafNode>,
    point: &LeafNode,
) -> (res: Option<&'a LeafNode>)
    ensures
        res == match (first, second) {
            (None, _) => second,
            (_, None) => first,
            (Some(f), Some(s)) => if sq_dist(f@.x, f@.y, point@.x, point@.y) < sq_dist(
                s@.x,
                s@.y,
                point@.x,
                point@.y,
            ) {
                first
            } else {
                second
            },
        },
        leaf_view(res) == closer(leaf_view(first), leaf_view(second), point@.x, point@.y),
{
    match (first, second) {
        (None, _) => second,
        (_, None) => first,
        (Some(f), Some(s)) => if f.dist(point) < s.dist(point) {
            first
        } else {
            second
        },
    }
}

/// Whether the far side of a divider can still hold a leaf nearer to `node`
/// than `closest`. `div` is twice the divider.
pub fn should_check_bad_side(closest: Option<&LeafNode>, node: &LeafNode, div: i64, axis: usize) -> (b:
    bool)
    requires
        axis < 2,
    ensures
        b == worth_crossing(leaf_view(closest), node@.x, node@.y, div as int, axis as int),
{
    match closest {
        None => true,
        Some(c) => {
            let gap: i128 = 2 * (node.point[axis] as i128) - (div as i128);
            assert(0 <= gap * gap <= 0x4000_0001_0000_0001_0000_0000_0000_0000) by (nonlinear_arith)
                requires
                    -0x8000_0001_0000_0000 <= gap <= 0x8000_0001_0000_0000,
            ;
            let d: u128 = node.dist(c);
            assert(d as int <= 2 * (0x1_0000_0000 * 0x1_0000_0000)) by (nonlinear_arith)
                requires
                    d as int == sq_dist(node@.x, node@.y, c@.x, c@.y),
                    -0x8000_0000 <= node@.x < 0x8000_0000,
                    -0x8000_0000 <= node@.y < 0x8000_0000,
                    -0x8000_0000 <= c@.x < 0x8000_0000,
                    -0x8000_0000 <= c@.y < 0x8000_0000,
            ;
            (gap * gap) < 4 * (d as i128)
        },
    }
}

/// Whether `point` lies where the forward side of a divider cannot serve it.
/// `div` is twice the divider.
pub fn is_inside(point: &LeafNode, div: i64, axis: usize) -> (b: bool)
    requires
        axis < 2,
    ensures
        b == inside(point@.x, point@.y, div as int, axis as int),
{
    if axis == 0 {
        2 * (point.point[axis] as i64) >= div
    } else {
        2 * (point.point[axis] as i64) <= div
    }
}

/// The keys of the forward and of the reverse child, in this order: on axis 0
/// the forward child is `less`, on axis 1 it is `more`.
pub fn get_sides(in_node: &InternalNode, axis: usize) -> (sides: (String, String))
    ensures
        sides.0@ == (if axis == 0 {
            in_node@.less
        } else {
            in_node@.more
        }),
        sides.1@ == (if axis == 0 {
            in_node@.more
        } else {
            in_node@.less
        }),
{
    if axis == 0 {
        (in_node.less.clone(), in_node.more.clone())
    } else {
        (in_node.more.clone(), in_node.less.clone())
    }
}

} // verus!
