use vstd::prelude::*;

verus! {

/// Identifier of a stored search node.
pub type NodeId = u64;

/// A location in a search tree: the root, which holds only the starting state,
/// or one of the stored nodes.
#[derive(Clone, Copy, PartialEq, Eq, Structural, PartialOrd, Ord, Hash, Debug)]
pub enum Id {
    Root,
    Node(NodeId),
}

impl Id {
    pub fn is_root(&self) -> (r: bool)
        ensures
            r == (*self == Id::Root),
    {
        matches!(self, Id::Root)
    }

    pub fn get_node_id(&self) -> (r: Option<NodeId>)
        ensures
            r == match *self {
                Id::Root => None,
                Id::Node(n) => Some(n),
            },
    {
        match self {
            Id::Root => None,
            Id::Node(inner) => Some(*inner),
        }
    }
}

} // verus!
