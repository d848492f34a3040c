//! The index as a mathematical tree, and what it means for a store of keyed
//! nodes to hold that tree.

use vstd::prelude::*;
use crate::node::{InternalView, Node, NodeView};
use crate::point::{dominates, sq_dist, LeafView};

verus! {

/// A binary tree whose leaves are named points and whose inner nodes carry a
/// key and twice their divider.
pub ghost enum Shape {
    Leaf { name: Seq<char>, x: int, y: int },
    Inner { key: Seq<char>, div: int, less: Box<Shape>, more: Box<Shape> },
}

/// The coordinate of `(x, y)` on `axis`.
pub open spec fn coord(x: int, y: int, axis: int) -> int {
    if axis == 0 {
        x
    } else {
        y
    }
}

impl Shape {
    /// The key under which the top node is stored.
    pub open spec fn key(self) -> Seq<char> {
        match self {
            Shape::Leaf { name, .. } => name,
            Shape::Inner { key, .. } => key,
        }
    }

    /// Whether some node of the tree, leaf or inner, is stored under `k`.
    pub open spec fn has_key(self, k: Seq<char>) -> bool
        decreases self,
    {
        match self {
            Shape::Leaf { name, .. } => k == name,
            Shape::Inner { key, less, more, .. } => k == key || less.has_key(k) || more.has_key(k),
        }
    }

    /// Whether the tree has a leaf `name` at `(x, y)`.
    pub open spec fn has_leaf(self, name: Seq<char>, x: int, y: int) -> bool
        decreases self,
    {
        match self {
            Shape::Leaf { name: n, x: lx, y: ly } => name == n && x == lx && y == ly,
            Shape::Inner { less, more, .. } => less.has_leaf(name, x, y) || more.has_leaf(
                name,
                x,
                y,
            ),
        }
    }

    /// Whether a leaf is called `name`.
    pub open spec fn has_name(self, name: Seq<char>) -> bool
        decreases self,
    {
        match self {
            Shape::Leaf { name: n, .. } => name == n,
            Shape::Inner { less, more, .. } => less.has_name(name) || more.has_name(name),
        }
    }

    /// The number of leaves.
    pub open spec fn size(self) -> nat
        decreases self,
    {
        match self {
            Shape::Leaf { .. } => 1,
            Shape::Inner { less, more, .. } => less.size() + more.size(),
        }
    }

    /// The number of links on the longest way down.
    pub open spec fn height(self) -> nat
        decreases self,
    {
        match self {
            Shape::Leaf { .. } => 0,
            Shape::Inner { less, more, .. } => if less.height() >= more.height() {
                less.height() + 1
            } else {
                more.height() + 1
            },
        }
    }

    /// The keys from the top down: a node, then its `less` side, then its
    /// `more` side.
    pub open spec fn preorder(self) -> Seq<Seq<char>>
        decreases self,
    {
        match self {
            Shape::Leaf { name, .. } => seq![name],
            Shape::Inner { key, less, more, .. } => seq![key] + less.preorder() + more.preorder(),
        }
    }

    /// No key occurs twice.
    pub open spec fn distinct(self) -> bool
        decreases self,
    {
        match self {
            Shape::Leaf { .. } => true,
            Shape::Inner { key, less, more, .. } => {
                &&& !less.has_key(key)
                &&& !more.has_key(key)
                &&& forall|k: Seq<char>| !(#[trigger] less.has_key(k) && more.has_key(k))
                &&& less.distinct()
                &&& more.distinct()
            },
        }
    }

    /// Every divider separates its two sides on the axis of its depth, where
    /// the top node splits on `axis` and the axes alternate downwards.
    pub open spec fn partitioned(self, axis: int) -> bool
        decreases self,
    {
        match self {
            Shape::Leaf { .. } => true,
            Shape::Inner { div, less, more, .. } => {
                &&& forall|n: Seq<char>, x: int, y: int| #[trigger]
                    less.has_leaf(n, x, y) ==> 2 * coord(x, y, axis) <= div
                &&& forall|n: Seq<char>, x: int, y: int| #[trigger]
                    more.has_leaf(n, x, y) ==> 2 * coord(x, y, axis) >= div
                &&& less.partitioned(1 - axis)
                &&& more.partitioned(1 - axis)
            },
        }
    }

    /// `res`, if present, is a leaf of the tree that `(qx, qy)` dominates.
    pub open spec fn admits(self, qx: int, qy: int, res: Option<LeafView>) -> bool {
        match res {
            Some(l) => self.has_leaf(l.name, l.x, l.y) && dominates(qx, qy, l.x, l.y),
            None => true,
        }
    }

    /// No leaf that `(qx, qy)` dominates is nearer to it than `res`; `res` is
    /// present if there is such a leaf.
    pub open spec fn nearest(self, qx: int, qy: int, res: Option<LeafView>) -> bool {
        forall|n: Seq<char>, x: int, y: int| #[trigger]
            self.has_leaf(n, x, y) && dominates(qx, qy, x, y) ==> match res {
                Some(l) => sq_dist(qx, qy, l.x, l.y) <= sq_dist(qx, qy, x, y),
                None => false,
            }
    }

    /// The tree once the leaf `name` has left it and the sibling of that leaf
    /// has taken the place of their parent. A tree that is a single leaf, or
    /// that has no such leaf, is returned as it is.
    pub open spec fn without(self, name: Seq<char>) -> Shape
        decreases self,
    {
        match self {
            Shape::Leaf { .. } => self,
            Shape::Inner { key, div, less, more } => if *less is Leaf && less.key() == name {
                *more
            } else if *more is Leaf && more.key() == name {
                *less
            } else {
                Shape::Inner {
                    key: key,
                    div: div,
                    less: Box::new(less.without(name)),
                    more: Box::new(more.without(name)),
                }
            },
        }
    }
}

/// The store `m` holds the tree `s` below `parent`: each node of `s` is stored
/// under its key, names its children by their keys, and names the node above.
pub open spec fn represents(m: Map<Seq<char>, Node>, s: Shape, parent: Option<Seq<char>>) -> bool
    decreases s,
{
    match s {
        Shape::Leaf { name, x, y } => m.contains_key(name) && m[name]@ == NodeView::Leaf(
            LeafView { name: name, parent: parent, x: x, y: y },
        ),
        Shape::Inner { key, div, less, more } => {
            &&& m.contains_key(key)
            &&& m[key]@ == NodeView::Internal(
                InternalView { parent: parent, div: div, less: less.key(), more: more.key() },
            )
            &&& represents(m, *less, Some(key))
            &&& represents(m, *more, Some(key))
        },
    }
}

/// A leaf is a key.
pub proof fn lemma_name_is_key(s: Shape, name: Seq<char>)
    requires
        s.has_name(name),
    ensures
        s.has_key(name),
    decreases s,
{
    match s {
        Shape::Leaf { .. } => {},
        Shape::Inner { less, more, .. } => {
            if less.has_name(name) {
                lemma_name_is_key(*less, name);
            } else {
                lemma_name_is_key(*more, name);
            }
        },
    }
}

/// A leaf at a place is a leaf by name.
pub proof fn lemma_leaf_has_name(s: Shape, name: Seq<char>, x: int, y: int)
    requires
        s.has_leaf(name, x, y),
    ensures
        s.has_name(name),
    decreases s,
{
    match s {
        Shape::Leaf { .. } => {},
        Shape::Inner { less, more, .. } => {
            if less.has_leaf(name, x, y) {
                lemma_leaf_has_name(*less, name, x, y);
            } else {
                lemma_leaf_has_name(*more, name, x, y);
            }
        },
    }
}

/// A tree holds its own top key.
pub proof fn lemma_has_own_key(s: Shape)
    ensures
        s.has_key(s.key()),
{
}

/// A store that agrees with `m` on the keys of `s` holds `s` as well.
pub proof fn lemma_frame(
    m: Map<Seq<char>, Node>,
    m2: Map<Seq<char>, Node>,
    s: Shape,
    parent: Option<Seq<char>>,
)
    requires
        represents(m, s, parent),
        forall|k: Seq<char>| #[trigger] s.has_key(k) ==> m2.contains_key(k) && m2[k]@ == m[k]@,
    ensures
        represents(m2, s, parent),
    decreases s,
{
    lemma_has_own_key(s);
    match s {
        Shape::Leaf { .. } => {},
        Shape::Inner { key, less, more, .. } => {
            assert forall|k: Seq<char>| #[trigger] less.has_key(k) implies m2.contains_key(k)
                && m2[k]@ == m[k]@ by {
                assert(s.has_key(k));
            }
            assert forall|k: Seq<char>| #[trigger] more.has_key(k) implies m2.contains_key(k)
                && m2[k]@ == m[k]@ by {
                assert(s.has_key(k));
            }
            lemma_frame(m, m2, *less, Some(key));
            lemma_frame(m, m2, *more, Some(key));
        },
    }
}

/// A store that differs from `m`, on the keys of `s`, only in the parent
/// recorded at the top node holds `s` below that other parent.
pub proof fn lemma_reparent(
    m: Map<Seq<char>, Node>,
    m2: Map<Seq<char>, Node>,
    s: Shape,
    parent: Option<Seq<char>>,
    parent2: Option<Seq<char>>,
)
    requires
        represents(m, s, parent),
        s.distinct(),
        m2.contains_key(s.key()),
        m2[s.key()]@ == m[s.key()]@.with_parent(parent2),
        forall|k: Seq<char>| #[trigger]
            s.has_key(k) && k != s.key() ==> m2.contains_key(k) && m2[k]@ == m[k]@,
    ensures
        represents(m2, s, parent2),
{
    match s {
        Shape::Leaf { .. } => {},
        Shape::Inner { key, less, more, .. } => {
            assert forall|k: Seq<char>| #[trigger] less.has_key(k) implies m2.contains_key(k)
                && m2[k]@ == m[k]@ by {
                assert(s.has_key(k));
            }
            assert forall|k: Seq<char>| #[trigger] more.has_key(k) implies m2.contains_key(k)
                && m2[k]@ == m[k]@ by {
                assert(s.has_key(k));
            }
            lemma_frame(m, m2, *less, Some(key));
            lemma_frame(m, m2, *more, Some(key));
        },
    }
}

/// Every key of a stored tree is in the store. The top node records the
/// parent given; any other node records a parent that is an internal node of
/// the tree and has it as a child.
pub proof fn lemma_parent_link(
    m: Map<Seq<char>, Node>,
    s: Shape,
    parent: Option<Seq<char>>,
    k: Seq<char>,
)
    requires
        represents(m, s, parent),
        s.has_key(k),
    ensures
        m.contains_key(k),
        k == s.key() ==> m[k]@.parent() == parent,
        k != s.key() ==> {
            &&& m[k]@.parent() is Some
            &&& s.has_key(m[k]@.parent()->0)
            &&& m.contains_key(m[k]@.parent()->0)
            &&& m[m[k]@.parent()->0]@ is Internal
            &&& (m[m[k]@.parent()->0]@.inner().less == k || m[m[k]@.parent()->0]@.inner().more
                == k)
        },
    decreases s,
{
    match s {
        Shape::Leaf { .. } => {},
        Shape::Inner { key, less, more, .. } => {
            if k != key {
                if less.has_key(k) {
                    lemma_parent_link(m, *less, Some(key), k);
                } else {
                    lemma_parent_link(m, *more, Some(key), k);
                }
            }
        },
    }
}

/// The children that a stored internal node names are keys of the tree.
pub proof fn lemma_children_are_keys(
    m: Map<Seq<char>, Node>,
    s: Shape,
    parent: Option<Seq<char>>,
    k: Seq<char>,
)
    requires
        represents(m, s, parent),
        s.has_key(k),
        m[k]@ is Internal,
    ensures
        s.has_key(m[k]@.inner().less),
        s.has_key(m[k]@.inner().more),
    decreases s,
{
    match s {
        Shape::Leaf { .. } => {},
        Shape::Inner { key, less, more, .. } => {
            if k == key {
                lemma_has_own_key(*less);
                lemma_has_own_key(*more);
            } else if less.has_key(k) {
                lemma_children_are_keys(m, *less, Some(key), k);
            } else {
                lemma_children_are_keys(m, *more, Some(key), k);
            }
        },
    }
}

/// In a stored tree the leaves are exactly the keys under which a leaf is
/// stored.
pub proof fn lemma_leaf_keys(
    m: Map<Seq<char>, Node>,
    s: Shape,
    parent: Option<Seq<char>>,
    k: Seq<char>,
)
    requires
        represents(m, s, parent),
        s.has_key(k),
    ensures
        s.has_name(k) <==> m[k]@ is Leaf,
    decreases s,
{
    match s {
        Shape::Leaf { .. } => {},
        Shape::Inner { key, less, more, .. } => {
            if less.has_name(k) {
                lemma_name_is_key(*less, k);
                lemma_leaf_keys(m, *less, Some(key), k);
            } else if more.has_name(k) {
                lemma_name_is_key(*more, k);
                lemma_leaf_keys(m, *more, Some(key), k);
            } else if less.has_key(k) {
                lemma_leaf_keys(m, *less, Some(key), k);
            } else if more.has_key(k) {
                lemma_leaf_keys(m, *more, Some(key), k);
            }
        },
    }
}

/// Taking out a name that is no key changes nothing.
pub proof fn lemma_without_absent(s: Shape, name: Seq<char>)
    requires
        !s.has_key(name),
    ensures
        s.without(name) == s,
    decreases s,
{
    match s {
        Shape::Leaf { .. } => {},
        Shape::Inner { key, less, more, .. } => {
            lemma_has_own_key(*less);
            lemma_has_own_key(*more);
            lemma_without_absent(*less, name);
            lemma_without_absent(*more, name);
        },
    }
}

/// The store `m2` is `m` after the leaf `name` below the internal node `p`
/// has left: both are gone, the sibling `sib` records the parent of `p` as its
/// own, the parent of `p`, if any, names `sib` where it named `p`, and nothing
/// else has changed.
pub open spec fn relinked(
    m: Map<Seq<char>, Node>,
    m2: Map<Seq<char>, Node>,
    name: Seq<char>,
    p: Seq<char>,
    sib: Seq<char>,
) -> bool {
    let g = m[p]@.parent();
    &&& forall|k: Seq<char>| #[trigger]
        m2.contains_key(k) <==> m.contains_key(k) && k != name && k != p
    &&& forall|k: Seq<char>| #[trigger]
        m2.contains_key(k) && k != sib && g != Some(k) ==> m2[k] == m[k]
    &&& sib != name && sib != p && g != Some(sib) ==> m2[sib]@ == m[sib]@.with_parent(g)
    &&& g is Some && g->0 != name && g->0 != p && g->0 != sib ==> m2[g->0]@
        == m[g->0]@.with_child(p, sib)
}

/// Sibling promotion keeps the tree: after the leaf `name` has left a stored
/// tree of more than one node, the relinked store holds the tree without
/// that leaf, whose keys are the old ones but for the leaf and its parent.
pub proof fn lemma_relinked(
    m: Map<Seq<char>, Node>,
    m2: Map<Seq<char>, Node>,
    s: Shape,
    parent: Option<Seq<char>>,
    name: Seq<char>,
    p: Seq<char>,
    sib: Seq<char>,
)
    requires
        represents(m, s, parent),
        s.distinct(),
        parent is Some ==> !s.has_key(parent->0),
        s.has_key(name),
        name != s.key(),
        m.contains_key(name),
        m.contains_key(p),
        m[name]@ is Leaf,
        m[name]@.parent() == Some(p),
        sib == (if m[p]@.inner().less == name {
            m[p]@.inner().more
        } else {
            m[p]@.inner().less
        }),
        relinked(m, m2, name, p, sib),
    ensures
        represents(m2, s.without(name), parent),
        s.without(name).distinct(),
        forall|k: Seq<char>| #[trigger]
            s.without(name).has_key(k) <==> s.has_key(k) && k != name && k != p,
        s.without(name).key() == (if p == s.key() {
            sib
        } else {
            s.key()
        }),
    decreases s,
{
    match s {
        Shape::Leaf { .. } => {},
        Shape::Inner { key, div, less, more } => {
            let in_less = less.has_key(name);
            let a = if in_less {
                *less
            } else {
                *more
            };
            let b = if in_less {
                *more
            } else {
                *less
            };
            assert(a.has_key(name));
            assert(represents(m, a, Some(key)));
            assert(represents(m, b, Some(key)));
            assert(!(a.has_key(name) && b.has_key(name)));
            assert(a.distinct() && b.distinct());
            assert(!a.has_key(key) && !b.has_key(key));
            assert forall|k: Seq<char>| !(#[trigger] a.has_key(k) && b.has_key(k)) by {
                assert(!(less.has_key(k) && more.has_key(k)));
            }
            lemma_has_own_key(a);
            lemma_has_own_key(b);
            lemma_parent_link(m, a, Some(key), name);
            assert forall|k: Seq<char>| #[trigger] b.has_key(k) implies m.contains_key(k) by {
                lemma_parent_link(m, b, Some(key), k);
            }
            if a is Leaf {
                assert(a.key() == name);
                assert(p == key);
                assert(sib == b.key());
                assert(s.without(name) == b);
                assert(m[key]@.parent() == parent);
                assert(sib != name && sib != p);
                assert(parent != Some(sib)) by {
                    assert(s.has_key(sib));
                }
                assert forall|k: Seq<char>| #[trigger]
                    b.has_key(k) && k != b.key() implies m2.contains_key(k) && m2[k]@
                    == m[k]@ by {
                    assert(s.has_key(k));
                    assert(!a.has_key(k));
                    assert(m2.contains_key(k));
                    assert(m2[k] == m[k]);
                }
                assert(m2.contains_key(sib));
                lemma_reparent(m, m2, b, Some(key), parent);
                assert forall|k: Seq<char>| #[trigger]
                    b.has_key(k) <==> s.has_key(k) && k != name && k != p by {
                    assert(a.has_key(k) <==> k == name);
                    assert(s.has_key(k) <==> k == key || a.has_key(k) || b.has_key(k));
                    if b.has_key(k) {
                        assert(!a.has_key(k));
                    }
                }
            } else {
                assert(m[a.key()]@ is Internal);
                assert(a.key() != name);
                assert(a.has_key(p));
                assert(p != key);
                assert(m[p]@ is Internal);
                lemma_parent_link(m, a, Some(key), p);
                lemma_children_are_keys(m, a, Some(key), p);
                assert(a.has_key(sib));
                lemma_relinked(m, m2, a, Some(key), name, p, sib);
                lemma_without_absent(b, name);
                let a2 = a.without(name);
                assert(s.without(name) == if in_less {
                    Shape::Inner { key: key, div: div, less: Box::new(a2), more: Box::new(b) }
                } else {
                    Shape::Inner { key: key, div: div, less: Box::new(b), more: Box::new(a2) }
                });
                assert(m2.contains_key(key));
                if p == a.key() {
                    assert(m[p]@.parent() == Some(key));
                    assert(m2[key]@ == m[key]@.with_child(p, sib));
                } else {
                    assert(m[p]@.parent() is Some && a.has_key(m[p]@.parent()->0));
                    assert(m2[key] == m[key]);
                }
                assert forall|k: Seq<char>| #[trigger] b.has_key(k) implies m2.contains_key(k)
                    && m2[k]@ == m[k]@ by {
                    assert(!a.has_key(k));
                    assert(m2.contains_key(k));
                    assert(m2[k] == m[k]);
                }
                lemma_frame(m, m2, b, Some(key));
                assert forall|k: Seq<char>| #[trigger]
                    s.without(name).has_key(k) <==> s.has_key(k) && k != name && k != p by {
                    assert(a2.has_key(k) <==> a.has_key(k) && k != name && k != p);
                    if b.has_key(k) {
                        assert(!a.has_key(k));
                    }
                }
                assert(!a2.has_key(key));
                assert forall|k: Seq<char>| !(#[trigger] a2.has_key(k) && b.has_key(k)) by {
                    assert(a2.has_key(k) <==> a.has_key(k) && k != name && k != p);
                    assert(!(a.has_key(k) && b.has_key(k)));
                }
            }
        },
    }
}

/// In the store `m`, the node `to` is met on a way of at most `fuel` links
/// down from the node `from`, along the children that the nodes name.
pub open spec fn reaches(m: Map<Seq<char>, Node>, from: Seq<char>, to: Seq<char>, fuel: nat) -> bool
    decreases fuel,
{
    from == to || (fuel > 0 && m.contains_key(from) && m[from]@ is Internal && (reaches(
        m,
        m[from]@.inner().less,
        to,
        (fuel - 1) as nat,
    ) || reaches(m, m[from]@.inner().more, to, (fuel - 1) as nat)))
}

/// What is met within some number of links is met within more.
pub proof fn lemma_reaches_further(
    m: Map<Seq<char>, Node>,
    from: Seq<char>,
    to: Seq<char>,
    fuel: nat,
    more: nat,
)
    requires
        reaches(m, from, to, fuel),
        fuel <= more,
    ensures
        reaches(m, from, to, more),
    decreases fuel,
{
    if from != to {
        if reaches(m, m[from]@.inner().less, to, (fuel - 1) as nat) {
            lemma_reaches_further(m, m[from]@.inner().less, to, (fuel - 1) as nat, (more - 1) as nat);
        } else {
            lemma_reaches_further(m, m[from]@.inner().more, to, (fuel - 1) as nat, (more - 1) as nat);
        }
    }
}

/// Every node of a stored tree is met on the way down from its top, within
/// as many links as the tree is high.
pub proof fn lemma_reachable(
    m: Map<Seq<char>, Node>,
    s: Shape,
    parent: Option<Seq<char>>,
    k: Seq<char>,
)
    requires
        represents(m, s, parent),
        s.has_key(k),
    ensures
        reaches(m, s.key(), k, s.height()),
    decreases s,
{
    match s {
        Shape::Leaf { .. } => {},
        Shape::Inner { key, less, more, .. } => {
            if k != key {
                if less.has_key(k) {
                    lemma_reachable(m, *less, Some(key), k);
                    lemma_reaches_further(
                        m,
                        less.key(),
                        k,
                        less.height(),
                        (s.height() - 1) as nat,
                    );
                } else {
                    lemma_reachable(m, *more, Some(key), k);
                    lemma_reaches_further(
                        m,
                        more.key(),
                        k,
                        more.height(),
                        (s.height() - 1) as nat,
                    );
                }
            }
        },
    }
}

/// A tree with one leaf is that leaf.
pub proof fn lemma_single_leaf(s: Shape)
    ensures
        s.size() >= 1,
        s.size() == 1 <==> s is Leaf,
    decreases s,
{
    match s {
        Shape::Leaf { .. } => {},
        Shape::Inner { less, more, .. } => {
            lemma_single_leaf(*less);
            lemma_single_leaf(*more);
        },
    }
}

/// When a leaf leaves a tree of more than one leaf, every other leaf stays,
/// with its name and at its place, and none is added.
pub proof fn lemma_without_leaves(s: Shape, name: Seq<char>)
    requires
        s.distinct(),
        s is Inner,
        s.has_name(name),
    ensures
        forall|n: Seq<char>, x: int, y: int| #[trigger]
            s.without(name).has_leaf(n, x, y) <==> s.has_leaf(n, x, y) && n != name,
        forall|k: Seq<char>| #[trigger] s.without(name).has_name(k) <==> s.has_name(k) && k != name,
        s.without(name).size() == s.size() - 1,
    decreases s,
{
    match s {
        Shape::Leaf { .. } => {},
        Shape::Inner { key, div, less, more } => {
            let in_less = less.has_name(name);
            let a = if in_less {
                *less
            } else {
                *more
            };
            let b = if in_less {
                *more
            } else {
                *less
            };
            lemma_name_is_key(a, name);
            assert(!b.has_key(name)) by {
                assert(!(less.has_key(name) && more.has_key(name)));
            }
            assert(!b.has_name(name)) by {
                if b.has_name(name) {
                    lemma_name_is_key(b, name);
                }
            }
            assert forall|n: Seq<char>, x: int, y: int| #[trigger] b.has_leaf(n, x, y) implies n
                != name by {
                lemma_leaf_has_name(b, n, x, y);
            }
            lemma_has_own_key(b);
            assert(a.has_name(name));
            assert(s.size() == a.size() + b.size());
            if a is Leaf {
                assert(a.key() == name);
                assert(s.without(name) == b);
                assert forall|n: Seq<char>, x: int, y: int| #[trigger]
                    b.has_leaf(n, x, y) <==> s.has_leaf(n, x, y) && n != name by {
                    assert(s.has_leaf(n, x, y) <==> a.has_leaf(n, x, y) || b.has_leaf(n, x, y));
                    assert(a.has_leaf(n, x, y) ==> n == name);
                }
                assert forall|k: Seq<char>| #[trigger]
                    b.has_name(k) <==> s.has_name(k) && k != name by {
                    assert(s.has_name(k) <==> a.has_name(k) || b.has_name(k));
                    assert(a.has_name(k) ==> k == name);
                }
            } else {
                lemma_has_own_key(a);
                assert(a.distinct());
                lemma_without_leaves(a, name);
                lemma_without_absent(b, name);
                let a2 = a.without(name);
                let s2 = s.without(name);
                assert(b.key() != name);
                assert(s2 == if in_less {
                    Shape::Inner { key: key, div: div, less: Box::new(a2), more: Box::new(b) }
                } else {
                    Shape::Inner { key: key, div: div, less: Box::new(b), more: Box::new(a2) }
                });
                assert forall|n: Seq<char>, x: int, y: int| #[trigger]
                    s2.has_leaf(n, x, y) <==> s.has_leaf(n, x, y) && n != name by {
                    assert(s.has_leaf(n, x, y) <==> a.has_leaf(n, x, y) || b.has_leaf(n, x, y));
                    assert(s2.has_leaf(n, x, y) <==> a2.has_leaf(n, x, y) || b.has_leaf(n, x, y));
                    assert(a2.has_leaf(n, x, y) <==> a.has_leaf(n, x, y) && n != name);
                }
                assert forall|k: Seq<char>| #[trigger]
                    s2.has_name(k) <==> s.has_name(k) && k != name by {
                    assert(s.has_name(k) <==> a.has_name(k) || b.has_name(k));
                    assert(s2.has_name(k) <==> a2.has_name(k) || b.has_name(k));
                    assert(a2.has_name(k) <==> a.has_name(k) && k != name);
                }
                assert(s2.size() == a2.size() + b.size());
            }
        },
    }
}

/// The keys from the top down are all the keys.
pub proof fn lemma_preorder_keys(s: Shape, k: Seq<char>)
    ensures
        s.preorder().contains(k) <==> s.has_key(k),
    decreases s,
{
    match s {
        Shape::Leaf { name, .. } => {
            assert(s.preorder()[0] == name);
        },
        Shape::Inner { key, less, more, .. } => {
            lemma_preorder_keys(*less, k);
            lemma_preorder_keys(*more, k);
            let a = seq![key];
            let b = less.preorder();
            let c = more.preorder();
            let all = a + b + c;
            assert(a[0] == key);
            if k == key {
                assert(all[0] == k);
            }
            if b.contains(k) {
                let i = choose|i: int| 0 <= i < b.len() && b[i] == k;
                assert(all[1 + i] == k);
            }
            if c.contains(k) {
                let i = choose|i: int| 0 <= i < c.len() && c[i] == k;
                assert(all[1 + b.len() + i] == k);
            }
            if all.contains(k) {
                let i = choose|i: int| 0 <= i < all.len() && all[i] == k;
                if i == 0 {
                } else if i < 1 + b.len() {
                    assert(b[i - 1] == k);
                } else {
                    assert(c[i - 1 - b.len()] == k);
                }
            }
        },
    }
}

} // verus!
