//! Points, cataloged leaves and the geometry the search relies on.

use vstd::prelude::*;

verus! {

/// Squared Euclidean distance between `(ax, ay)` and `(bx, by)`.
pub open spec fn sq_dist(ax: int, ay: int, bx: int, by: int) -> int {
    (bx - ax) * (bx - ax) + (by - ay) * (by - ay)
}

/// `(qx, qy)` dominates `(lx, ly)`: the latter lies strictly further along
/// axis 0 and strictly lower on axis 1.
pub open spec fn dominates(qx: int, qy: int, lx: int, ly: int) -> bool {
    lx > qx && ly < qy
}

/// A named input point.
#[derive(Clone, Debug)]
pub struct Point {
    pub name: String,
    pub p: [i32; 2],
}

impl Point {
    /// A copy of this point.
    pub fn duplicate(&self) -> (c: Point)
        ensures
            c == *self,
    {
        Point { name: self.name.clone(), p: self.p }
    }
}

/// What a leaf is, as plain values.
pub ghost struct LeafView {
    pub name: Seq<char>,
    pub parent: Option<Seq<char>>,
    pub x: int,
    pub y: int,
}

/// A cataloged point together with the key of the internal node above it.
#[derive(Clone, Debug)]
pub struct LeafNode {
    pub name: String,
    pub parent: Option<String>,
    pub point: [i32; 2],
}

/// The view of an optional key.
pub open spec fn key_view(k: Option<String>) -> Option<Seq<char>> {
    match k {
        Some(s) => Some(s@),
        None => None,
    }
}

impl View for LeafNode {
    type V = LeafView;

    open spec fn view(&self) -> LeafView {
        LeafView {
            name: self.name@,
            parent: key_view(self.parent),
            x: self.point[0] as int,
            y: self.point[1] as int,
        }
    }
}

impl LeafNode {
    /// A parentless leaf at `(x, y)`.
    pub fn new(name: String, x: i32, y: i32) -> (leaf: Self)
        ensures
            leaf@ == (LeafView { name: name@, parent: None, x: x as int, y: y as int }),
            leaf.name == name,
    {
        Self { name: name, parent: None, point: [x, y] }
    }

    /// The squared Euclidean distance from `self` to `n`.
    pub fn dist(&self, n: &LeafNode) -> (d: u128)
        ensures
            d as int == sq_dist(self@.x, self@.y, n@.x, n@.y),
    {
        let dx: i64 = n.point[0] as i64 - self.point[0] as i64;
        let dy: i64 = n.point[1] as i64 - self.point[1] as i64;
        assert(0 <= dx * dx <= 0x1_0000_0000 * 0x1_0000_0000) by (nonlinear_arith)
            requires
                -0x1_0000_0000 <= dx <= 0x1_0000_0000,
        ;
        assert(0 <= dy * dy <= 0x1_0000_0000 * 0x1_0000_0000) by (nonlinear_arith)
            requires
                -0x1_0000_0000 <= dy <= 0x1_0000_0000,
        ;
        let sx: i128 = (dx as i128) * (dx as i128);
        let sy: i128 = (dy as i128) * (dy as i128);
        (sx + sy) as u128
    }

    /// Whether `self` dominates `n`.
    pub fn contains(&self, n: &LeafNode) -> (b: bool)
        ensures
            b == dominates(self@.x, self@.y, n@.x, n@.y),
    {
        n.point[0] > self.point[0] && n.point[1] < self.point[1]
    }
}

} // verus!
