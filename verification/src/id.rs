//! Node handles and the mutation operations expressed on them.

use vstd::prelude::*;

use crate::access::NodeAccess;
use crate::arena::moves_preserved;
use crate::arena::order_unlinked;
use crate::arena::Arena;

verus! {

/// A slot index into the arena.
pub type Idx = usize;

/// The moves count of a slot: bumped whenever the slot's occupant is
/// invalidated, so that outstanding handles can detect staleness.
pub type MovesCount = usize;

/// An arena handle to a node: a slot index paired with the moves count of
/// that slot as observed when the handle was issued.  Handles are plain
/// values; they may be copied freely and may outlive the node they point at.
/// Whether a handle still points at its original node is checked on demand
/// with [`NodeId::validate`].
///
/// Handles are issued by the arena operations (`append_root`, the append and
/// insert operations); a freshly issued handle carries the stamp the slot had
/// at that moment.
#[derive(Clone, Copy, PartialEq, Eq, Structural)]
pub struct NodeId {
    /// The slot the handle points at.
    pub idx: Idx,
    /// The moves count of that slot when the handle was issued.
    pub at_mc: MovesCount,
}

impl NodeId {
    /// The handle still points at its original node: either its slot was
    /// never invalidated, or the recorded moves count matches the handle's
    /// stamp.
    pub open spec fn is_valid<T>(self, arena: Arena<T>) -> bool {
        ||| !arena.moved_idxs@.contains_key(self.idx)
        ||| arena.moved_idxs@[self.idx] == self.at_mc
    }

    /// The handle points at a live node: its slot is occupied and the handle
    /// is not stale.  Every mutation operation asks for this of the handle it
    /// is called on.
    pub open spec fn is_live<T>(self, arena: Arena<T>) -> bool {
        arena.occupied(self.idx) && self.is_valid(arena)
    }

    /// Checks whether the handle is still pointing at its original node.
    pub fn validate<T>(&self, arena: &Arena<T>) -> (r: bool)
        ensures
            r == self.is_valid(*arena),
    {
        match arena.moved_idxs.get(&self.idx) {
            Some(mc) => *mc == self.at_mc,
            None => true,
        }
    }

    /// Borrows the payload of the node the handle points at.  Calling this
    /// through a stale handle is a caller contract violation.
    pub fn as_content<'a, T>(&self, arena: &'a Arena<T>) -> (r: &'a T)
        requires
            self.is_live(*arena),
        ensures
            *r == arena.node_at(self.idx).content,
    {
        match arena.get(self) {
            Some(n) => n.as_content(),
            None => vstd::pervasive::unreached(),
        }
    }
}

/// What every attach operation (append and the inserts) asks of its target
/// handle and its input: a well-formed arena, a live target, and an input
/// that is either a live handle to some other node or a detached owned node.
pub open spec fn attach_pre<T>(target: NodeId, node: NodeAccess<T>, arena: Arena<T>) -> bool {
    &&& arena.wf()
    &&& target.is_live(arena)
    &&& match node {
        NodeAccess::ById(id) => id.is_live(arena) && id.idx != target.idx,
        NodeAccess::Owned(n) => n.detached(),
    }
}

/// The slot the attached node ends up in: its own slot for an input by
/// handle, the next fresh slot for an owned input.
pub open spec fn attached_slot<T>(node: NodeAccess<T>, arena: Arena<T>) -> usize {
    match node {
        NodeAccess::ById(id) => id.idx,
        NodeAccess::Owned(_) => arena.slot_count() as usize,
    }
}

/// The handle an attach operation returns: the input handle itself, or a
/// fresh handle with stamp zero for an owned input.
pub open spec fn attached_id<T>(node: NodeAccess<T>, arena: Arena<T>) -> NodeId {
    match node {
        NodeAccess::ById(id) => id,
        NodeAccess::Owned(_) => NodeId { idx: arena.slot_count() as usize, at_mc: 0 },
    }
}

/// The child-order map once the input stands in the arena, detached: for an
/// input by handle, its old parent's list has lost it; for an owned input,
/// its fresh slot has an empty child list.
pub open spec fn order_detached<T>(node: NodeAccess<T>, arena: Arena<T>) -> Map<usize, Seq<usize>> {
    match node {
        NodeAccess::ById(id) => order_unlinked(
            arena.child_order@,
            arena.parent_of(id.idx),
            id.idx,
        ),
        NodeAccess::Owned(_) => arena.child_order@.insert(
            attached_slot(node, arena),
            Seq::<usize>::empty(),
        ),
    }
}

/// What every attach operation leaves untouched: well-formedness, the
/// staleness bookkeeping (so no handle changes validity), every occupied
/// slot, and every payload.
pub open spec fn attach_frame<T>(node: NodeAccess<T>, pre: Arena<T>, post: Arena<T>) -> bool {
    &&& post.wf()
    &&& post.moved_idxs@ == pre.moved_idxs@
    &&& forall|i: usize| pre.occupied(i) ==> #[trigger] post.occupied(i)
    &&& forall|i: usize|
        pre.occupied(i) ==> #[trigger] post.node_at(i).content == pre.node_at(i).content
    &&& match node {
        NodeAccess::ById(_) => post.slot_count() == pre.slot_count(),
        NodeAccess::Owned(n) => post.slot_count() == pre.slot_count() + 1 && post.node_at(
            attached_slot(node, pre),
        ).content == n.content,
    }
}

/// Appending a child to the node a handle points at.
pub trait AppendNode<T> {
    /// When `append_child` may be called.
    spec fn append_pre(&self, node: NodeAccess<T>, arena: Arena<T>) -> bool;

    /// What `append_child` guarantees.
    spec fn append_post(
        &self,
        node: NodeAccess<T>,
        pre: Arena<T>,
        post: Arena<T>,
        r: NodeId,
    ) -> bool;

    /// Attaches `node` as the new last child of the node this handle points
    /// at, clearing any prior parent and sibling links of the input first,
    /// and returns a handle to the attached node.
    fn append_child(&self, node: NodeAccess<T>, arena: &mut Arena<T>) -> (r: NodeId)
        requires
            self.append_pre(node, *old(arena)),
        ensures
            self.append_post(node, *old(arena), *final(arena), r),
    ;
}

/// Inserting a node at a chosen place in a sibling list.
pub trait InsertNode<T> {
    /// When `insert_child` may be called.
    spec fn insert_child_pre(&self, node: NodeAccess<T>, arena: Arena<T>) -> bool;

    /// What `insert_child` guarantees.
    spec fn insert_child_post(
        &self,
        position: usize,
        node: NodeAccess<T>,
        pre: Arena<T>,
        post: Arena<T>,
        r: NodeId,
    ) -> bool;

    /// Attaches `node` as the child at zero-based `position` of the node this
    /// handle points at; a position beyond the current child count appends.
    fn insert_child(&self, position: usize, node: NodeAccess<T>, arena: &mut Arena<T>) -> (r:
        NodeId)
        requires
            self.insert_child_pre(node, *old(arena)),
        ensures
            self.insert_child_post(position, node, *old(arena), *final(arena), r),
    ;

    /// When `insert_prev` and `insert_next` may be called.
    spec fn insert_beside_pre(&self, node: NodeAccess<T>, arena: Arena<T>) -> bool;

    /// What `insert_prev` guarantees.
    spec fn insert_prev_post(
        &self,
        node: NodeAccess<T>,
        pre: Arena<T>,
        post: Arena<T>,
        r: NodeId,
    ) -> bool;

    /// Attaches `node` as the sibling directly before the node this handle
    /// points at, which must currently have a parent.
    fn insert_prev(&self, node: NodeAccess<T>, arena: &mut Arena<T>) -> (r: NodeId)
        requires
            self.insert_beside_pre(node, *old(arena)),
        ensures
            self.insert_prev_post(node, *old(arena), *final(arena), r),
    ;

    /// What `insert_next` guarantees.
    spec fn insert_next_post(
        &self,
        node: NodeAccess<T>,
        pre: Arena<T>,
        post: Arena<T>,
        r: NodeId,
    ) -> bool;

    /// Attaches `node` as the sibling directly after the node this handle
    /// points at, which must currently have a parent.
    fn insert_next(&self, node: NodeAccess<T>, arena: &mut Arena<T>) -> (r: NodeId)
        requires
            self.insert_beside_pre(node, *old(arena)),
        ensures
            self.insert_next_post(node, *old(arena), *final(arena), r),
    ;
}

/// Detaching a node from its parent, and removing it from the arena.
pub trait DetachNode<T> {
    /// When `detach` and `remove` may be called.
    spec fn detach_pre(&self, arena: Arena<T>) -> bool;

    /// What `detach` guarantees.
    spec fn detach_post(&self, pre: Arena<T>, post: Arena<T>, r: NodeId) -> bool;

    /// Unlinks the node this handle points at from its parent and siblings,
    /// keeping it resident under the same, still valid handle; the node
    /// becomes a parentless root and keeps its children.
    fn detach(&self, arena: &mut Arena<T>) -> (r: NodeId)
        requires
            self.detach_pre(*old(arena)),
        ensures
            self.detach_post(*old(arena), *final(arena), r),
    ;

    /// What `remove` guarantees.
    spec fn remove_post(&self, pre: Arena<T>, post: Arena<T>) -> bool;

    /// Detaches the node this handle points at, orphans its children (each
    /// becomes a parentless root, kept resident under its own handle), vacates
    /// its slot and bumps the slot's moves count, so that every outstanding
    /// handle to the slot — including the one consumed here — goes stale.
    fn remove(self, arena: &mut Arena<T>)
        requires
            self.detach_pre(*old(arena)),
        ensures
            self.remove_post(*old(arena), *final(arena)),
    ;
}

impl<T> AppendNode<T> for NodeId {
    open spec fn append_pre(&self, node: NodeAccess<T>, arena: Arena<T>) -> bool {
        attach_pre(*self, node, arena)
    }

    open spec fn append_post(
        &self,
        node: NodeAccess<T>,
        pre: Arena<T>,
        post: Arena<T>,
        r: NodeId,
    ) -> bool {
        &&& attach_frame(node, pre, post)
        &&& r == attached_id(node, pre)
        &&& r.is_live(post)
        &&& ({
            let x = attached_slot(node, pre);
            let m1 = order_detached(node, pre);
            post.child_order@ == m1.insert(self.idx, m1[self.idx].push(x))
        })
    }

    fn append_child(&self, node: NodeAccess<T>, arena: &mut Arena<T>) -> (r: NodeId) {
        let ghost pre = *old(arena);
        let (x, rid) = match node {
            NodeAccess::ById(id) => {
                arena.unlink(id.idx);
                (id.idx, id)
            },
            NodeAccess::Owned(n) => {
                let idx = arena.push(n);
                (idx, NodeId { idx, at_mc: 0 })
            },
        };
        proof {
            assert(arena.occupied(self.idx));
            assert(arena.occupied(x));
            assert(pre.moved_idxs@.contains_key(x) == pre.vacant(x));
        }
        arena.link_last(self.idx, x);
        rid
    }
}

impl<T> InsertNode<T> for NodeId {
    open spec fn insert_child_pre(&self, node: NodeAccess<T>, arena: Arena<T>) -> bool {
        attach_pre(*self, node, arena)
    }

    open spec fn insert_child_post(
        &self,
        position: usize,
        node: NodeAccess<T>,
        pre: Arena<T>,
        post: Arena<T>,
        r: NodeId,
    ) -> bool {
        &&& attach_frame(node, pre, post)
        &&& r == attached_id(node, pre)
        &&& r.is_live(post)
        &&& ({
            let x = attached_slot(node, pre);
            let m1 = order_detached(node, pre);
            let ks1 = m1[self.idx];
            let at = if position <= ks1.len() {
                position as int
            } else {
                ks1.len() as int
            };
            post.child_order@ == m1.insert(self.idx, ks1.insert(at, x))
        })
    }

    fn insert_child(&self, position: usize, node: NodeAccess<T>, arena: &mut Arena<T>) -> (r:
        NodeId) {
        let ghost pre = *old(arena);
        let (x, rid) = match node {
            NodeAccess::ById(id) => {
                arena.unlink(id.idx);
                (id.idx, id)
            },
            NodeAccess::Owned(n) => {
                let idx = arena.push(n);
                (idx, NodeId { idx, at_mc: 0 })
            },
        };
        proof {
            assert(arena.occupied(self.idx));
            assert(arena.occupied(x));
            assert(pre.moved_idxs@.contains_key(x) == pre.vacant(x));
        }
        let ghost mid = *arena;
        let ghost ks1 = mid.kids(self.idx);
        let has_kids = match arena.node_ref(self.idx).child {
            Some(_) => true,
            None => false,
        };
        proof {
            assert(mid.family_ok(self.idx));
        }
        if position == 0 || !has_kids {
            proof {
                assert(ks1.insert(0, x) == ks1.insert(
                    if position <= ks1.len() {
                        position as int
                    } else {
                        ks1.len() as int
                    },
                    x,
                ));
            }
            arena.link_first(self.idx, x);
        } else {
            let c = arena.walk_to(self.idx, position - 1);
            proof {
                let j0: int = if position - 1 < ks1.len() {
                    position - 1
                } else {
                    ks1.len() - 1
                };
                assert(c == ks1[j0]);
                assert(mid.kid_ok(self.idx, j0));
                let j2 = ks1.index_of(c);
                assert(ks1.contains(c));
                assert(0 <= j2 < ks1.len() && ks1[j2] == c);
                assert(j2 == j0);
            }
            arena.link_after(c, x);
        }
        rid
    }

    open spec fn insert_beside_pre(&self, node: NodeAccess<T>, arena: Arena<T>) -> bool {
        &&& attach_pre(*self, node, arena)
        &&& arena.parent_of(self.idx) is Some
        &&& match node {
            NodeAccess::ById(id) => Some(id.idx) != arena.parent_of(self.idx),
            NodeAccess::Owned(_) => true,
        }
    }

    open spec fn insert_prev_post(
        &self,
        node: NodeAccess<T>,
        pre: Arena<T>,
        post: Arena<T>,
        r: NodeId,
    ) -> bool {
        &&& attach_frame(node, pre, post)
        &&& r == attached_id(node, pre)
        &&& r.is_live(post)
        &&& ({
            let x = attached_slot(node, pre);
            let m1 = order_detached(node, pre);
            let p = pre.parent_of(self.idx)->Some_0;
            let ks1 = m1[p];
            post.child_order@ == m1.insert(p, ks1.insert(ks1.index_of(self.idx), x))
        })
    }

    fn insert_prev(&self, node: NodeAccess<T>, arena: &mut Arena<T>) -> (r: NodeId) {
        let ghost pre = *old(arena);
        let (x, rid) = match node {
            NodeAccess::ById(id) => {
                arena.unlink(id.idx);
                (id.idx, id)
            },
            NodeAccess::Owned(n) => {
                let idx = arena.push(n);
                (idx, NodeId { idx, at_mc: 0 })
            },
        };
        proof {
            assert(arena.occupied(self.idx));
            assert(arena.occupied(x));
            assert(pre.moved_idxs@.contains_key(x) == pre.vacant(x));
        }
        let ghost mid = *arena;
        let p = match arena.node_ref(self.idx).parent {
            Some(p) => p,
            None => vstd::pervasive::unreached(),
        };
        let ghost ks1 = mid.kids(p);
        let ghost k: int = ks1.index_of(self.idx);
        proof {
            assert(mid.parent_ok(self.idx));
            assert(0 <= k < ks1.len() && ks1[k] == self.idx);
            assert(mid.family_ok(p));
            assert(mid.kid_ok(p, k));
        }
        let prv = arena.node_ref(self.idx).prev;
        match prv {
            None => {
                arena.link_first(p, x);
                proof {
                    assert(k == 0);
                }
            },
            Some(pr) => {
                proof {
                    assert(mid.kid_ok(p, k - 1));
                    assert(pr == ks1[k - 1]);
                    let j2 = ks1.index_of(pr);
                    assert(ks1.contains(pr));
                    assert(0 <= j2 < ks1.len() && ks1[j2] == pr);
                    assert(j2 == k - 1);
                }
                arena.link_after(pr, x);
            },
        }
        rid
    }

    open spec fn insert_next_post(
        &self,
        node: NodeAccess<T>,
        pre: Arena<T>,
        post: Arena<T>,
        r: NodeId,
    ) -> bool {
        &&& attach_frame(node, pre, post)
        &&& r == attached_id(node, pre)
        &&& r.is_live(post)
        &&& ({
            let x = attached_slot(node, pre);
            let m1 = order_detached(node, pre);
            let p = pre.parent_of(self.idx)->Some_0;
            let ks1 = m1[p];
            post.child_order@ == m1.insert(p, ks1.insert(ks1.index_of(self.idx) + 1, x))
        })
    }

    fn insert_next(&self, node: NodeAccess<T>, arena: &mut Arena<T>) -> (r: NodeId) {
        let ghost pre = *old(arena);
        let (x, rid) = match node {
            NodeAccess::ById(id) => {
                arena.unlink(id.idx);
                (id.idx, id)
            },
            NodeAccess::Owned(n) => {
                let idx = arena.push(n);
                (idx, NodeId { idx, at_mc: 0 })
            },
        };
        proof {
            assert(arena.occupied(self.idx));
            assert(arena.occupied(x));
            assert(pre.moved_idxs@.contains_key(x) == pre.vacant(x));
            assert(arena.parent_of(self.idx) is Some);
        }
        arena.link_after(self.idx, x);
        rid
    }
}

impl<T> DetachNode<T> for NodeId {
    open spec fn detach_pre(&self, arena: Arena<T>) -> bool {
        arena.wf() && self.is_live(arena)
    }

    open spec fn detach_post(&self, pre: Arena<T>, post: Arena<T>, r: NodeId) -> bool {
        &&& post.wf()
        &&& r == *self
        &&& post.moved_idxs@ == pre.moved_idxs@
        &&& post.slot_count() == pre.slot_count()
        &&& forall|i: usize| #[trigger] post.occupied(i) == pre.occupied(i)
        &&& forall|i: usize|
            pre.occupied(i) ==> #[trigger] post.node_at(i).content == pre.node_at(i).content
        &&& post.child_order@ == order_unlinked(pre.child_order@, pre.parent_of(self.idx), self.idx)
        &&& post.node_at(self.idx).parent is None
        &&& post.node_at(self.idx).prev is None
        &&& post.node_at(self.idx).next is None
        &&& post.kids(self.idx) == pre.kids(self.idx)
    }

    fn detach(&self, arena: &mut Arena<T>) -> (r: NodeId) {
        arena.unlink(self.idx);
        *self
    }

    open spec fn remove_post(&self, pre: Arena<T>, post: Arena<T>) -> bool {
        &&& post.wf()
        &&& post.slot_count() == pre.slot_count()
        &&& !post.occupied(self.idx)
        &&& forall|h: NodeId|
            h.idx == self.idx && h.at_mc == self.at_mc ==> !(#[trigger] h.is_valid(post))
        &&& moves_preserved(pre, post)
        &&& forall|h: NodeId|
            h.idx != self.idx ==> #[trigger] h.is_valid(post) == h.is_valid(pre)
        &&& forall|i: usize| i != self.idx ==> #[trigger] post.occupied(i) == pre.occupied(i)
        &&& forall|i: usize|
            i != self.idx && pre.occupied(i) ==> #[trigger] post.node_at(i).content
                == pre.node_at(i).content
        &&& post.child_order@ == order_unlinked(
            pre.child_order@,
            pre.parent_of(self.idx),
            self.idx,
        ).remove(self.idx)
        &&& forall|c: usize|
            pre.kids(self.idx).contains(c) ==> (#[trigger] post.node_at(c).parent) is None
                && post.node_at(c).prev is None && post.node_at(c).next is None
    }

    fn remove(self, arena: &mut Arena<T>) {
        let ghost pre = *old(arena);
        arena.unlink(self.idx);
        let ghost mid = *arena;
        let ghost ks = mid.kids(self.idx);
        proof {
            assert(mid.occupied(self.idx));
            assert(mid.family_ok(self.idx));
            assert forall|jj: int| 0 <= jj < ks.len() implies ks[jj] != self.idx by {
                assert(mid.kid_ok(self.idx, jj));
                assert(mid.parent_ok(ks[jj]));
            }
            assert(mid.child_order@.dom().contains(self.idx));
            assert(ks.skip(0) =~= ks);
            assert(mid.child_order@.insert(self.idx, ks) =~= mid.child_order@);
        }
        let ghost mut j: int = 0;
        loop
            invariant
                mid.wf(),
                mid.occupied(self.idx),
                ks == mid.kids(self.idx),
                arena.wf(),
                arena.occupied(self.idx),
                arena.parent_of(self.idx) is None,
                0 <= j <= ks.len(),
                arena.kids(self.idx) == ks.skip(j),
                arena.child_order@ == mid.child_order@.insert(self.idx, ks.skip(j)),
                arena.moved_idxs@ == mid.moved_idxs@,
                arena.slot_count() == mid.slot_count(),
                forall|i: usize| #[trigger] arena.occupied(i) == mid.occupied(i),
                forall|i: usize|
                    mid.occupied(i) ==> #[trigger] arena.node_at(i).content == mid.node_at(
                        i,
                    ).content,
                forall|jj: int| 0 <= jj < ks.len() ==> #[trigger] ks[jj] != self.idx,
                forall|j1: int, j2: int|
                    #![trigger ks[j1], ks[j2]]
                    0 <= j1 < j2 < ks.len() ==> ks[j1] != ks[j2],
                forall|jj: int|
                    0 <= jj < j ==> (#[trigger] arena.node_at(ks[jj]).parent) is None
                        && arena.node_at(ks[jj]).prev is None && arena.node_at(ks[jj]).next
                        is None,
            ensures
                j == ks.len(),
                arena.wf(),
                arena.occupied(self.idx),
                arena.parent_of(self.idx) is None,
                arena.kids(self.idx) == ks.skip(j),
                arena.child_order@ == mid.child_order@.insert(self.idx, ks.skip(j)),
                arena.moved_idxs@ == mid.moved_idxs@,
                arena.slot_count() == mid.slot_count(),
                forall|i: usize| #[trigger] arena.occupied(i) == mid.occupied(i),
                forall|i: usize|
                    mid.occupied(i) ==> #[trigger] arena.node_at(i).content == mid.node_at(
                        i,
                    ).content,
                forall|jj: int|
                    0 <= jj < j ==> (#[trigger] arena.node_at(ks[jj]).parent) is None
                        && arena.node_at(ks[jj]).prev is None && arena.node_at(ks[jj]).next
                        is None,
            decreases ks.len() - j,
        {
            let first = arena.node_ref(self.idx).child;
            match first {
                None => {
                    proof {
                        assert(arena.family_ok(self.idx));
                        assert(ks.skip(j).len() == 0);
                    }
                    break ;
                },
                Some(c) => {
                    let ghost before = *arena;
                    proof {
                        assert(before.family_ok(self.idx));
                        assert(before.kid_ok(self.idx, 0));
                        assert(c == ks.skip(j)[0]);
                        assert(c == ks[j]);
                    }
                    arena.unlink(c);
                    proof {
                        let rest = ks.skip(j);
                        assert(rest.contains(c));
                        let j2 = rest.index_of(c);
                        assert(0 <= j2 < rest.len() && rest[j2] == c);
                        assert(rest[j2] == ks[j2 + j]);
                        assert(rest[0] == ks[j]);
                        assert(j2 == 0);
                        assert(rest.remove(0) =~= ks.skip(j + 1));
                        assert(arena.child_order@ =~= mid.child_order@.insert(
                            self.idx,
                            ks.skip(j + 1),
                        ));
                        assert forall|jj: int|
                            0 <= jj < j implies (#[trigger] arena.node_at(ks[jj]).parent) is None
                                && arena.node_at(ks[jj]).prev is None && arena.node_at(
                                ks[jj],
                            ).next is None by {
                            assert(mid.kid_ok(self.idx, jj));
                            assert(before.occupied(ks[jj]));
                            assert(ks[jj] != c);
                            assert(Some(ks[jj]) != before.parent_of(c));
                        }
                        j = j + 1;
                    }
                },
            }
        }
        let ghost done = *arena;
        let stamp = if self.at_mc == usize::MAX {
            0
        } else {
            self.at_mc + 1
        };
        arena.vacate(self.idx, stamp);
        proof {
            assert(arena.child_order@ =~= order_unlinked(
                pre.child_order@,
                pre.parent_of(self.idx),
                self.idx,
            ).remove(self.idx));
            assert forall|c: usize| pre.kids(self.idx).contains(c) implies (
            #[trigger] arena.node_at(c).parent) is None && arena.node_at(c).prev is None
                && arena.node_at(c).next is None by {
                let jj = choose|jj: int| 0 <= jj < ks.len() && ks[jj] == c;
                assert(ks[jj] == c);
                assert(ks[jj] != self.idx);
                assert(mid.kid_ok(self.idx, jj));
                assert(done.node_at(ks[jj]).parent is None && done.node_at(ks[jj]).prev is None
                    && done.node_at(ks[jj]).next is None);
                assert(done.occupied(c));
                assert(arena.node_at(c) == done.node_at(c));
            }
            assert forall|h: NodeId|
                h.idx != self.idx implies #[trigger] h.is_valid(*arena) == h.is_valid(pre) by {}
        }
    }
}

/// Law: staleness is permanent.  Once a handle fails validation it keeps
/// failing it in every later arena state, because the staleness bookkeeping
/// of a slot is never rolled back by any operation.
pub proof fn lemma_validity_monotone<T>(h: NodeId, a1: Arena<T>, a2: Arena<T>)
    requires
        moves_preserved(a1, a2),
        !h.is_valid(a1),
    ensures
        !h.is_valid(a2),
{
    assert(a1.moved_idxs@.contains_key(h.idx));
}

} // verus!
