//! A tree structure backed by a flat, indexable arena.
//!
//! Nodes live in slots of an [`Arena`](arena::Arena); callers refer to them
//! through copyable [`NodeId`](id::NodeId) handles that pair a slot index with
//! the moves count observed when the handle was issued.  A handle can be
//! checked for staleness at any time, so it may safely outlive arbitrary
//! mutation of the tree.

mod access;
mod arena;
mod id;
mod node;

pub use access::NodeAccess;
pub use arena::lemma_parent_consistency;
pub use arena::lemma_sib_removed_order;
pub use arena::lemma_sibling_chain;
pub use arena::lemma_unique_parent;
pub use arena::moves_preserved;
pub use arena::order_unlinked;
pub use arena::sib_removed;
pub use arena::Arena;
pub use id::lemma_validity_monotone;
pub use id::Idx;
pub use id::MovesCount;
pub use id::AppendNode;
pub use id::DetachNode;
pub use id::InsertNode;
pub use id::NodeId;
pub use node::Node;
