use vstd::prelude::*;
use crate::bump::Bump;

verus! {

/// The colour of a node of a red-black tree.
#[derive(Clone, Copy, Debug, PartialEq, Eq, Structural)]
pub enum Color {
    Red,
    Black,
}

/// The place of a node in a red-black tree. Nodes live in a table that
/// their owner holds; a relative is named by its place in that table.
#[derive(Clone, Copy, Debug, PartialEq, Eq, Structural)]
pub struct RBNode {
    pub parent: Option<usize>,
    pub left: Option<usize>,
    pub right: Option<usize>,
    pub color: Color,
}

impl RBNode {
    /// A red node without relatives.
    pub open spec fn detached() -> RBNode {
        RBNode { parent: None, left: None, right: None, color: Color::Red }
    }

    pub fn parent(&self) -> (r: &Option<usize>)
        ensures
            *r == self.parent,
    {
        &self.parent
    }

    pub fn left(&self) -> (r: &Option<usize>)
        ensures
            *r == self.left,
    {
        &self.left
    }

    pub fn right(&self) -> (r: &Option<usize>)
        ensures
            *r == self.right,
    {
        &self.right
    }

    pub fn color(&self) -> (r: &Color)
        ensures
            *r == self.color,
    {
        &self.color
    }

    pub fn set_parent(&mut self, val: Option<usize>)
        ensures
            *final(self) == (RBNode { parent: val, ..*old(self) }),
    {
        self.parent = val;
    }

    pub fn set_left(&mut self, val: Option<usize>)
        ensures
            *final(self) == (RBNode { left: val, ..*old(self) }),
    {
        self.left = val;
    }

    pub fn set_right(&mut self, val: Option<usize>)
        ensures
            *final(self) == (RBNode { right: val, ..*old(self) }),
    {
        self.right = val;
    }

    pub fn set_color(&mut self, val: Color)
        ensures
            *final(self) == (RBNode { color: val, ..*old(self) }),
    {
        self.color = val;
    }
}

impl Default for RBNode {
    fn default() -> (r: Self)
        ensures
            r == RBNode::detached(),
    {
        RBNode { parent: None, left: None, right: None, color: Color::Red }
    }
}

/// A value that embeds an `RBNode`.
pub trait HasNode: Sized {
    /// The embedded node.
    spec fn spec_node(&self) -> RBNode;

    /// This value with its node replaced and nothing else changed.
    spec fn with_node(&self, node: RBNode) -> Self;

    fn node(&self) -> (r: &RBNode)
        ensures
            *r == self.spec_node(),
    ;

    fn node_mut(&mut self) -> (r: &mut RBNode)
        ensures
            *r == old(self).spec_node(),
            *final(self) == old(self).with_node(*final(r)),
    ;
}

/// A red-black tree over the nodes of a table, ordered by a comparison
/// of two nodes, with the bump allocator that accounts for its own memory.
pub struct RBTree<F> {
    root: Option<usize>,
    bump: Bump,
    order: F,
}

impl<F> RBTree<F> {
    pub closed spec fn spec_root(&self) -> Option<usize> {
        self.root
    }

    pub closed spec fn spec_bump(&self) -> Bump {
        self.bump
    }

    pub closed spec fn spec_order(&self) -> F {
        self.order
    }

    /// An empty tree, ordered by `order`, whose bump allocator maps
    /// chunks of `chunk_size` bytes.
    pub fn new(chunk_size: usize, order: F) -> (r: Self)
        ensures
            r.spec_root() is None,
            r.spec_order() == order,
            r.spec_bump().wf(),
            r.spec_bump()@.len() == 0,
            r.spec_bump().spec_chunk_size() == chunk_size,
    {
        Self { root: None, bump: Bump::new(chunk_size), order }
    }
}

} // verus!
