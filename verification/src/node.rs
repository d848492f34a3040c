//! The two kinds of node the store holds.

use vstd::prelude::*;
use crate::point::{key_view, LeafNode, LeafView};

verus! {

/// What an internal node is, as plain values.
pub ghost struct InternalView {
    pub parent: Option<Seq<char>>,
    pub div: int,
    pub less: Seq<char>,
    pub more: Seq<char>,
}

/// A routing node. `div` is twice the divider, so that the midpoint of two
/// integer coordinates is kept without rounding.
#[derive(Clone, Debug)]
pub struct InternalNode {
    pub parent: Option<String>,
    pub div: i64,
    pub less: String,
    pub more: String,
}

impl View for InternalNode {
    type V = InternalView;

    open spec fn view(&self) -> InternalView {
        InternalView {
            parent: key_view(self.parent),
            div: self.div as int,
            less: self.less@,
            more: self.more@,
        }
    }
}

/// What a node is, as plain values.
pub ghost enum NodeView {
    Leaf(LeafView),
    Internal(InternalView),
}

impl NodeView {
    /// The key of the node above, if any.
    pub open spec fn parent(self) -> Option<Seq<char>> {
        match self {
            NodeView::Leaf(l) => l.parent,
            NodeView::Internal(n) => n.parent,
        }
    }

    /// The fields of an internal node.
    pub open spec fn inner(self) -> InternalView {
        self->Internal_0
    }

    /// The same node under another parent.
    pub open spec fn with_parent(self, parent: Option<Seq<char>>) -> NodeView {
        match self {
            NodeView::Leaf(l) => NodeView::Leaf(LeafView { parent: parent, ..l }),
            NodeView::Internal(n) => NodeView::Internal(InternalView { parent: parent, ..n }),
        }
    }

    /// The same node with the child slot that held `from` now holding `to`;
    /// the `less` slot is looked at first.
    pub open spec fn with_child(self, from: Seq<char>, to: Seq<char>) -> NodeView {
        match self {
            NodeView::Leaf(l) => self,
            NodeView::Internal(n) => if n.less == from {
                NodeView::Internal(InternalView { less: to, ..n })
            } else {
                NodeView::Internal(InternalView { more: to, ..n })
            },
        }
    }
}

/// A stored node.
#[derive(Clone, Debug)]
pub enum Node {
    Leaf(LeafNode),
    Internal(InternalNode),
}

impl View for Node {
    type V = NodeView;

    open spec fn view(&self) -> NodeView {
        match self {
            Node::Leaf(l) => NodeView::Leaf(l@),
            Node::Internal(n) => NodeView::Internal(n@),
        }
    }
}

/// A copy of an optional key.
pub fn clone_key(k: &Option<String>) -> (c: Option<String>)
    ensures
        c == *k,
{
    match k {
        Some(s) => Some(s.clone()),
        None => None,
    }
}

impl LeafNode {
    /// A copy of this leaf.
    pub fn duplicate(&self) -> (c: LeafNode)
        ensures
            c == *self,
    {
        LeafNode { name: self.name.clone(), parent: clone_key(&self.parent), point: self.point }
    }
}

impl InternalNode {
    /// A copy of this node.
    pub fn duplicate(&self) -> (c: InternalNode)
        ensures
            c == *self,
    {
        InternalNode {
            parent: clone_key(&self.parent),
            div: self.div,
            less: self.less.clone(),
            more: self.more.clone(),
        }
    }
}

impl Node {
    pub fn is_leaf(&self) -> (b: bool)
        ensures
            b == (self@ is Leaf),
    {
        match self {
            Node::Leaf(_) => true,
            Node::Internal(_) => false,
        }
    }

    pub fn is_internal(&self) -> (b: bool)
        ensures
            b == (self@ is Internal),
    {
        match self {
            Node::Leaf(_) => false,
            Node::Internal(_) => true,
        }
    }

    /// The leaf inside.
    pub fn leaf(&self) -> (l: &LeafNode)
        requires
            self@ is Leaf,
        ensures
            *self == Node::Leaf(*l),
    {
        match self {
            Node::Leaf(n) => n,
            Node::Internal(_) => vstd::pervasive::unreached(),
        }
    }

    /// The internal node inside.
    pub fn internal(&self) -> (i: &InternalNode)
        requires
            self@ is Internal,
        ensures
            *self == Node::Internal(*i),
    {
        match self {
            Node::Internal(n) => n,
            Node::Leaf(_) => vstd::pervasive::unreached(),
        }
    }

    /// The internal node inside, to be changed in place.
    pub fn internal_mut(&mut self) -> (i: &mut InternalNode)
        requires
            old(self)@ is Internal,
        ensures
            *old(self) == Node::Internal(*i),
            *final(self) == Node::Internal(*final(i)),
    {
        match self {
            Node::Internal(n) => n,
            Node::Leaf(_) => vstd::pervasive::unreached(),
        }
    }

    /// A copy of this node.
    pub fn duplicate(&self) -> (c: Node)
        ensures
            c == *self,
    {
        match self {
            Node::Leaf(n) => Node::Leaf(n.duplicate()),
            Node::Internal(n) => Node::Internal(n.duplicate()),
        }
    }

    /// Puts the node under `parent`, or under nothing.
    pub fn set_parent(&mut self, parent: Option<String>)
        ensures
            final(self)@ == old(self)@.with_parent(key_view(parent)),
    {
        match self {
            Node::Leaf(n) => n.parent = parent,
            Node::Internal(n) => n.parent = parent,
        }
    }
}

} // verus!
