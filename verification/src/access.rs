//! The input adapter taken by every mutation operation.

use vstd::prelude::*;

use crate::id::NodeId;
use crate::node::Node;

verus! {

/// What a mutation operation attaches: either a node already resident in the
/// arena, named by its handle, or an owned value to be stored in a fresh
/// slot.  Both caller-facing types convert into this adapter, so a single
/// method body serves both shapes of call.
pub enum NodeAccess<T> {
    /// Relink the already-resident node this handle points at.
    ById(NodeId),
    /// Store this value in a fresh slot and link the new node.
    Owned(Node<T>),
}

impl<T> From<NodeId> for NodeAccess<T> {
    fn from(id: NodeId) -> (r: NodeAccess<T>) {
        NodeAccess::ById(id)
    }
}

impl<T> vstd::std_specs::convert::FromSpecImpl<NodeId> for NodeAccess<T> {
    open spec fn obeys_from_spec() -> bool {
        true
    }

    open spec fn from_spec(id: NodeId) -> Self {
        NodeAccess::ById(id)
    }
}

impl<T> From<Node<T>> for NodeAccess<T> {
    fn from(node: Node<T>) -> (r: NodeAccess<T>) {
        NodeAccess::Owned(node)
    }
}

impl<T> vstd::std_specs::convert::FromSpecImpl<Node<T>> for NodeAccess<T> {
    open spec fn obeys_from_spec() -> bool {
        true
    }

    open spec fn from_spec(node: Node<T>) -> Self {
        NodeAccess::Owned(node)
    }
}

} // verus!
