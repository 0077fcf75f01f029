//! The node record: a payload plus the four optional sibling/parent links.

use vstd::prelude::*;

verus! {

/// One record of the arena: a payload of type `T` and up to four links to
/// other slots.  The children of a node form a doubly-linked list threaded
/// through `prev` and `next`, rooted at the parent's single `child` link.
pub struct Node<T> {
    /// Slot of the parent, if the node is attached to one.
    pub parent: Option<usize>,
    /// Slot of the first child, if the node has any children.
    pub child: Option<usize>,
    /// Slot of the previous sibling, absent for the first child of a parent.
    pub prev: Option<usize>,
    /// Slot of the next sibling, absent for the last child of a parent.
    pub next: Option<usize>,
    /// The payload.
    pub content: T,
}

impl<T> Node<T> {
    /// A node is detached when it carries no links at all: no parent, no
    /// siblings, and no children.
    pub open spec fn detached(self) -> bool {
        &&& self.parent is None
        &&& self.child is None
        &&& self.prev is None
        &&& self.next is None
    }

    /// Makes a fresh, fully detached node around a payload.
    pub fn new(content: T) -> (r: Node<T>)
        ensures
            r.detached(),
            r.content == content,
    {
        Node { parent: None, child: None, prev: None, next: None, content }
    }

    /// Borrows the payload.
    pub fn as_content(&self) -> (r: &T)
        ensures
            *r == self.content,
    {
        &self.content
    }
}

} // verus!
