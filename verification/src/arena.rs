//! Flat, indexed storage for node records, with staleness bookkeeping.
//!
//! The arena owns every node.  Slots are handed out in increasing order and
//! are never reused; when a slot is vacated its index is entered into
//! `moved_idxs`, which is what lets outstanding handles detect that they have
//! gone stale.
//!
//! Ghost bookkeeping: `child_order` records, for every occupied slot, the
//! order of its children.  The well-formedness predicate [`Arena::wf`] ties
//! that order to the concrete `parent`/`child`/`prev`/`next` links, so a
//! contract stated over `child_order` pins the whole link structure down.

use std::collections::HashMap;
use vstd::prelude::*;

use crate::id::NodeId;
use crate::node::Node;

verus! {

/// `ks` with its (unique, when `ks` has no duplicates) occurrence of `x`
/// taken out; `ks` itself when `x` does not occur.
pub open spec fn sib_removed(ks: Seq<usize>, x: usize) -> Seq<usize> {
    if ks.contains(x) {
        ks.remove(ks.index_of(x))
    } else {
        ks
    }
}

/// The child-order map after `x` has been taken out of the child list of its
/// parent `q` (no change when `x` had no parent).
pub open spec fn order_unlinked(
    m: Map<usize, Seq<usize>>,
    q: Option<usize>,
    x: usize,
) -> Map<usize, Seq<usize>> {
    match q {
        None => m,
        Some(p) => m.insert(p, sib_removed(m[p], x)),
    }
}

/// The staleness bookkeeping of `a2` extends that of `a1`: every slot already
/// marked as moved keeps its entry, with the same count.  Every mutation of
/// the arena preserves this relation, which is why a stale handle can never
/// become valid again.
pub open spec fn moves_preserved<T>(a1: Arena<T>, a2: Arena<T>) -> bool {
    forall|i: usize| #![trigger a1.moved_idxs@.contains_key(i)]
        a1.moved_idxs@.contains_key(i) ==> a2.moved_idxs@.contains_key(i)
            && a2.moved_idxs@[i] == a1.moved_idxs@[i]
}

/// Flat storage arena for a forest of nodes.
pub struct Arena<T> {
    /// The node records, indexed by slot.  `None` marks a vacated slot.
    pub nodes: Vec<Option<Node<T>>>,
    /// Moves count per slot, present exactly for the slots that have been
    /// vacated.  A handle whose stamp disagrees with an entry here is stale.
    pub moved_idxs: HashMap<usize, usize>,
    /// Ghost model: the order of the children of every occupied slot.
    pub child_order: Ghost<Map<usize, Seq<usize>>>,
}

impl<T> Arena<T> {
    /// How many slots have ever been allocated (occupied or vacated).
    pub open spec fn slot_count(self) -> nat {
        self.nodes@.len()
    }

    /// Slot `i` currently holds a node.
    pub open spec fn occupied(self, i: usize) -> bool {
        i < self.nodes@.len() && self.nodes@[i as int] is Some
    }

    /// Slot `i` was allocated once and has been vacated since.
    pub open spec fn vacant(self, i: usize) -> bool {
        i < self.nodes@.len() && self.nodes@[i as int] is None
    }

    /// The record in occupied slot `i`.
    pub open spec fn node_at(self, i: usize) -> Node<T> {
        self.nodes@[i as int]->Some_0
    }

    /// The parent link of the node in slot `i`.
    pub open spec fn parent_of(self, i: usize) -> Option<usize> {
        self.node_at(i).parent
    }

    /// The children of slot `i`, in order, per the ghost model.
    pub open spec fn kids(self, p: usize) -> Seq<usize> {
        self.child_order@[p]
    }

    /// The `k`-th child of `p` carries exactly the links its position asks
    /// for: parent `p`, `prev` its left neighbour (absent for the first
    /// child), `next` its right neighbour (absent for the last).
    pub open spec fn kid_ok(self, p: usize, k: int) -> bool {
        let c = self.kids(p)[k];
        &&& self.occupied(c)
        &&& self.node_at(c).parent == Some(p)
        &&& self.node_at(c).prev == (if k == 0 {
            Option::<usize>::None
        } else {
            Some(self.kids(p)[k - 1])
        })
        &&& self.node_at(c).next == (if k == self.kids(p).len() - 1 {
            Option::<usize>::None
        } else {
            Some(self.kids(p)[k + 1])
        })
    }

    /// The child list of `p` matches the ghost order: the `child` link points
    /// at the first entry, every entry is linked per [`Arena::kid_ok`], and no
    /// slot occurs twice.
    pub open spec fn family_ok(self, p: usize) -> bool {
        &&& self.node_at(p).child == (if self.kids(p).len() == 0 {
            Option::<usize>::None
        } else {
            Some(self.kids(p)[0])
        })
        &&& forall|k: int| 0 <= k < self.kids(p).len() ==> #[trigger] self.kid_ok(p, k)
        &&& forall|k1: int, k2: int|
            #![trigger self.kids(p)[k1], self.kids(p)[k2]]
            0 <= k1 < k2 < self.kids(p).len() ==> self.kids(p)[k1] != self.kids(p)[k2]
    }

    /// The parent link of `c` is consistent: a parentless node has no
    /// siblings, and a parented node sits in its parent's child list (and is
    /// never its own parent).
    pub open spec fn parent_ok(self, c: usize) -> bool {
        match self.node_at(c).parent {
            None => self.node_at(c).prev is None && self.node_at(c).next is None,
            Some(p) => p != c && self.occupied(p) && self.kids(p).contains(c),
        }
    }

    /// Well-formedness: the ghost child order covers exactly the occupied
    /// slots and agrees with the concrete links everywhere, and the moves
    /// bookkeeping covers exactly the vacated slots.
    pub open spec fn wf(self) -> bool {
        &&& forall|i: usize|
            #![trigger self.child_order@.dom().contains(i)]
            #![trigger self.occupied(i)]
            (self.child_order@.dom().contains(i) <==> self.occupied(i))
        &&& forall|p: usize| #[trigger] self.occupied(p) ==> self.family_ok(p)
        &&& forall|c: usize| #[trigger] self.occupied(c) ==> self.parent_ok(c)
        &&& forall|i: usize|
            #![trigger self.moved_idxs@.contains_key(i)]
            #![trigger self.vacant(i)]
            (self.moved_idxs@.contains_key(i) <==> self.vacant(i))
    }

    /// Makes an empty arena.
    pub fn new() -> (r: Arena<T>)
        ensures
            r.wf(),
            r.slot_count() == 0,
            r.child_order@ == Map::<usize, Seq<usize>>::empty(),
            r.moved_idxs@ == Map::<usize, usize>::empty(),
    {
        Arena {
            nodes: Vec::new(),
            moved_idxs: HashMap::new(),
            child_order: Ghost(Map::empty()),
        }
    }

    /// The slot the next pushed node will occupy, without allocating it.
    pub fn next_idx(&self) -> (r: usize)
        ensures
            r == self.slot_count(),
    {
        self.nodes.len()
    }

    /// Stores a detached node in a fresh slot and returns that slot.
    pub fn push(&mut self, node: Node<T>) -> (r: usize)
        requires
            old(self).wf(),
            node.detached(),
        ensures
            final(self).wf(),
            r == old(self).slot_count(),
            final(self).nodes@ == old(self).nodes@.push(Some(node)),
            final(self).moved_idxs@ == old(self).moved_idxs@,
            final(self).child_order@ == old(self).child_order@.insert(r, Seq::<usize>::empty()),
    {
        let r = self.nodes.len();
        self.nodes.push(Some(node));
        proof {
            self.child_order@ = self.child_order@.insert(r, Seq::<usize>::empty());
        }
        proof {
            lemma_push_wf(*old(self), *self, r, node);
        }
        r
    }

    /// Borrows the record in an occupied slot.
    pub fn node_ref(&self, i: usize) -> (n: &Node<T>)
        requires
            self.occupied(i),
        ensures
            *n == self.node_at(i),
    {
        match &self.nodes[i] {
            Some(n) => n,
            None => vstd::pervasive::unreached(),
        }
    }

    /// Borrows the record in an occupied slot mutably.  The caller is handed
    /// the whole record; the ensures ties the final arena to whatever the
    /// caller leaves in it.
    fn node_mut(&mut self, i: usize) -> (n: &mut Node<T>)
        requires
            old(self).occupied(i),
        ensures
            *n == old(self).node_at(i),
            final(self).nodes@ == old(self).nodes@.update(i as int, Some(*final(n))),
            final(self).moved_idxs@ == old(self).moved_idxs@,
            final(self).child_order@ == old(self).child_order@,
    {
        match &mut self.nodes[i] {
            Some(n) => n,
            None => vstd::pervasive::unreached(),
        }
    }

    /// Unlinks the node in slot `x` from its parent and sibling list (a
    /// no-op for a parentless node), repairing the old parent's `child` link
    /// and the old neighbours' `prev`/`next` links.  The node keeps its slot
    /// and its own children.
    #[verifier::rlimit(50)]
    pub(crate) fn unlink(&mut self, x: usize)
        requires
            old(self).wf(),
            old(self).occupied(x),
        ensures
            final(self).wf(),
            final(self).moved_idxs@ == old(self).moved_idxs@,
            final(self).slot_count() == old(self).slot_count(),
            forall|i: usize| #[trigger] final(self).occupied(i) == old(self).occupied(i),
            forall|i: usize|
                old(self).occupied(i) ==> #[trigger] final(self).node_at(i).content == old(
                    self,
                ).node_at(i).content,
            final(self).child_order@ == order_unlinked(
                old(self).child_order@,
                old(self).parent_of(x),
                x,
            ),
            final(self).node_at(x).parent is None,
            final(self).node_at(x).prev is None,
            final(self).node_at(x).next is None,
            final(self).node_at(x).child == old(self).node_at(x).child,
            final(self).kids(x) == old(self).kids(x),
            forall|i: usize|
                old(self).occupied(i) && old(self).node_at(i).parent is None && i != x && Some(i)
                    != old(self).parent_of(x) ==> #[trigger] final(self).node_at(i) == old(
                    self,
                ).node_at(i),
            forall|i: usize|
                i != x && old(self).occupied(i) ==> #[trigger] final(self).node_at(i).parent
                    == old(self).node_at(i).parent,
            (match old(self).parent_of(x) {
                Some(p) => {
                    &&& final(self).node_at(p).parent == old(self).node_at(p).parent
                    &&& final(self).node_at(p).prev == old(self).node_at(p).prev
                    &&& final(self).node_at(p).next == old(self).node_at(p).next
                },
                None => true,
            }),
    {
        let px = self.node_ref(x).parent;
        match px {
            None => {
                proof {
                    assert(old(self).parent_ok(x));
                }
            },
            Some(p) => {
                let prv = self.node_ref(x).prev;
                let nxt = self.node_ref(x).next;
                let ghost a1 = *old(self);
                let ghost ks = a1.kids(p);
                let ghost n: int = ks.len() as int;
                let ghost k: int = ks.index_of(x);
                proof {
                    assert(a1.parent_ok(x));
                    assert(a1.family_ok(p));
                    assert(0 <= k < n && ks[k] == x);
                    assert(a1.kid_ok(p, k));
                    if k > 0 {
                        assert(a1.kid_ok(p, k - 1));
                    }
                    if k < n - 1 {
                        assert(a1.kid_ok(p, k + 1));
                    }
                    assert forall|j: int| 0 <= j < n implies ks[j] != p by {
                        assert(a1.kid_ok(p, j));
                        assert(a1.parent_ok(ks[j]));
                    }
                }
                match prv {
                    None => {
                        let nd = self.node_mut(p);
                        nd.child = nxt;
                    },
                    Some(pr) => {
                        let nd = self.node_mut(pr);
                        nd.next = nxt;
                    },
                }
                match nxt {
                    None => {},
                    Some(nx) => {
                        let nd = self.node_mut(nx);
                        nd.prev = prv;
                    },
                }
                {
                    let nd = self.node_mut(x);
                    nd.parent = None;
                    nd.prev = None;
                    nd.next = None;
                }
                proof {
                    self.child_order@ = self.child_order@.insert(p, ks.remove(k));
                    let a2 = *self;
                    let rem = ks.remove(k);
                    ks.remove_ensures(k);
                    assert forall|i: usize| #[trigger] a2.occupied(i) == a1.occupied(i) by {}
                    assert forall|i: usize|
                        a1.occupied(i) implies #[trigger] a2.node_at(i).content == a1.node_at(
                        i,
                    ).content by {}
                    assert forall|q: usize| a2.occupied(q) implies a2.family_ok(q) by {
                        assert(a1.family_ok(q));
                        if q == p {
                            assert forall|j: int| 0 <= j < rem.len() implies a2.kid_ok(p, j) by {
                                if 0 <= j - 1 {
                                    assert(a1.kid_ok(p, j - 1));
                                }
                                assert(a1.kid_ok(p, j));
                                if j + 1 < n {
                                    assert(a1.kid_ok(p, j + 1));
                                }
                                if j + 2 < n {
                                    assert(a1.kid_ok(p, j + 2));
                                }
                            }
                            assert(a2.family_ok(p));
                        } else {
                            assert(a2.kids(q) == a1.kids(q));
                            assert forall|j: int|
                                #![trigger a1.kids(q)[j]]
                                0 <= j < a1.kids(q).len() implies {
                                let c = a1.kids(q)[j];
                                &&& a2.occupied(c) == a1.occupied(c)
                                &&& a2.node_at(c).parent == a1.node_at(c).parent
                                &&& a2.node_at(c).prev == a1.node_at(c).prev
                                &&& a2.node_at(c).next == a1.node_at(c).next
                            } by {
                                assert(a1.kid_ok(q, j));
                            }
                            lemma_family_frame(a1, a2, q);
                        }
                    }
                    assert forall|c: usize| a2.occupied(c) implies a2.parent_ok(c) by {
                        assert(a1.parent_ok(c));
                        if c != x {
                            match a1.node_at(c).parent {
                                None => {},
                                Some(q) => {
                                    if q == p {
                                        let j = choose|j: int| 0 <= j < n && ks[j] == c;
                                        assert(ks[j] == c);
                                        if j < k {
                                            assert(rem[j] == c);
                                        } else {
                                            assert(j != k);
                                            assert(rem[j - 1] == c);
                                        }
                                        assert(rem.contains(c));
                                    }
                                },
                            }
                        }
                    }
                    assert forall|i: usize| a2.moved_idxs@.contains_key(i) implies a2.vacant(
                        i,
                    ) by {
                        assert(a1.vacant(i));
                    }
                    assert forall|i: usize| a2.vacant(i) implies a2.moved_idxs@.contains_key(
                        i,
                    ) by {
                        assert(a1.vacant(i));
                    }
                }
            },
        }
    }

    /// Links the detached node in slot `x` as the new first child of `p`.
    #[verifier::rlimit(50)]
    pub(crate) fn link_first(&mut self, p: usize, x: usize)
        requires
            old(self).wf(),
            old(self).occupied(p),
            old(self).occupied(x),
            old(self).parent_of(x) is None,
            x != p,
        ensures
            final(self).wf(),
            final(self).moved_idxs@ == old(self).moved_idxs@,
            final(self).slot_count() == old(self).slot_count(),
            forall|i: usize| #[trigger] final(self).occupied(i) == old(self).occupied(i),
            forall|i: usize|
                old(self).occupied(i) ==> #[trigger] final(self).node_at(i).content == old(
                    self,
                ).node_at(i).content,
            final(self).child_order@ == old(self).child_order@.insert(
                p,
                old(self).kids(p).insert(0, x),
            ),
            final(self).node_at(x).child == old(self).node_at(x).child,
    {
        let first = self.node_ref(p).child;
        let ghost a1 = *old(self);
        let ghost ks = a1.kids(p);
        let ghost n: int = ks.len() as int;
        proof {
            assert(a1.family_ok(p));
            assert(a1.parent_ok(x));
            if n > 0 {
                assert(a1.kid_ok(p, 0));
            }
            assert forall|j: int| 0 <= j < n implies ks[j] != p && ks[j] != x by {
                assert(a1.kid_ok(p, j));
                assert(a1.parent_ok(ks[j]));
            }
        }
        {
            let nd = self.node_mut(x);
            nd.parent = Some(p);
            nd.next = first;
        }
        {
            let nd = self.node_mut(p);
            nd.child = Some(x);
        }
        match first {
            None => {},
            Some(f) => {
                let nd = self.node_mut(f);
                nd.prev = Some(x);
            },
        }
        proof {
            self.child_order@ = self.child_order@.insert(p, ks.insert(0, x));
            let a2 = *self;
            let ins = ks.insert(0, x);
            ks.insert_ensures(0, x);
            assert forall|i: usize| #[trigger] a2.occupied(i) == a1.occupied(i) by {}
            assert forall|i: usize|
                a1.occupied(i) implies #[trigger] a2.node_at(i).content == a1.node_at(
                i,
            ).content by {}
            assert forall|q: usize| a2.occupied(q) implies a2.family_ok(q) by {
                assert(a1.family_ok(q));
                if q == p {
                    assert forall|j: int| 0 <= j < ins.len() implies a2.kid_ok(p, j) by {
                        if 0 <= j - 2 {
                            assert(a1.kid_ok(p, j - 2));
                        }
                        if 0 <= j - 1 {
                            assert(a1.kid_ok(p, j - 1));
                        }
                        if j < n {
                            assert(a1.kid_ok(p, j));
                        }
                    }
                    assert(a2.family_ok(p));
                } else {
                    assert(a2.kids(q) == a1.kids(q));
                    assert forall|j: int|
                        #![trigger a1.kids(q)[j]]
                        0 <= j < a1.kids(q).len() implies {
                        let c = a1.kids(q)[j];
                        &&& a2.occupied(c) == a1.occupied(c)
                        &&& a2.node_at(c).parent == a1.node_at(c).parent
                        &&& a2.node_at(c).prev == a1.node_at(c).prev
                        &&& a2.node_at(c).next == a1.node_at(c).next
                    } by {
                        assert(a1.kid_ok(q, j));
                    }
                    lemma_family_frame(a1, a2, q);
                }
            }
            assert forall|c: usize| a2.occupied(c) implies a2.parent_ok(c) by {
                assert(a1.parent_ok(c));
                if c == x {
                    assert(ins[0] == x);
                    assert(a2.kids(p).contains(x));
                } else {
                    match a1.node_at(c).parent {
                        None => {},
                        Some(q) => {
                            if q == p {
                                let j = choose|j: int| 0 <= j < n && ks[j] == c;
                                assert(ks[j] == c);
                                assert(ins[j + 1] == c);
                                assert(ins.contains(c));
                            }
                        },
                    }
                }
            }
            assert forall|i: usize| a2.moved_idxs@.contains_key(i) implies a2.vacant(i) by {
                assert(a1.vacant(i));
            }
            assert forall|i: usize| a2.vacant(i) implies a2.moved_idxs@.contains_key(i) by {
                assert(a1.vacant(i));
            }
        }
    }

    /// Links the detached node in slot `x` as the sibling directly after the
    /// attached node in slot `c`.
    #[verifier::rlimit(50)]
    pub(crate) fn link_after(&mut self, c: usize, x: usize)
        requires
            old(self).wf(),
            old(self).occupied(c),
            old(self).parent_of(c) is Some,
            old(self).occupied(x),
            old(self).parent_of(x) is None,
            Some(x) != old(self).parent_of(c),
        ensures
            final(self).wf(),
            final(self).moved_idxs@ == old(self).moved_idxs@,
            final(self).slot_count() == old(self).slot_count(),
            forall|i: usize| #[trigger] final(self).occupied(i) == old(self).occupied(i),
            forall|i: usize|
                old(self).occupied(i) ==> #[trigger] final(self).node_at(i).content == old(
                    self,
                ).node_at(i).content,
            ({
                let p = old(self).parent_of(c)->Some_0;
                let ks = old(self).kids(p);
                final(self).child_order@ == old(self).child_order@.insert(
                    p,
                    ks.insert(ks.index_of(c) + 1, x),
                )
            }),
            final(self).node_at(x).child == old(self).node_at(x).child,
    {
        let p = match self.node_ref(c).parent {
            Some(p) => p,
            None => vstd::pervasive::unreached(),
        };
        let nxt = self.node_ref(c).next;
        let ghost a1 = *old(self);
        let ghost ks = a1.kids(p);
        let ghost n: int = ks.len() as int;
        let ghost k: int = ks.index_of(c);
        proof {
            assert(a1.parent_ok(c));
            assert(a1.parent_ok(x));
            assert(a1.family_ok(p));
            assert(0 <= k < n && ks[k] == c);
            assert(a1.kid_ok(p, k));
            if k < n - 1 {
                assert(a1.kid_ok(p, k + 1));
            }
            assert forall|j: int| 0 <= j < n implies ks[j] != p && ks[j] != x by {
                assert(a1.kid_ok(p, j));
                assert(a1.parent_ok(ks[j]));
            }
        }
        {
            let nd = self.node_mut(x);
            nd.parent = Some(p);
            nd.prev = Some(c);
            nd.next = nxt;
        }
        {
            let nd = self.node_mut(c);
            nd.next = Some(x);
        }
        match nxt {
            None => {},
            Some(nx) => {
                let nd = self.node_mut(nx);
                nd.prev = Some(x);
            },
        }
        proof {
            self.child_order@ = self.child_order@.insert(p, ks.insert(k + 1, x));
            let a2 = *self;
            let ins = ks.insert(k + 1, x);
            ks.insert_ensures(k + 1, x);
            assert forall|i: usize| #[trigger] a2.occupied(i) == a1.occupied(i) by {}
            assert forall|i: usize|
                a1.occupied(i) implies #[trigger] a2.node_at(i).content == a1.node_at(
                i,
            ).content by {}
            assert forall|q: usize| a2.occupied(q) implies a2.family_ok(q) by {
                assert(a1.family_ok(q));
                if q == p {
                    assert forall|j: int| 0 <= j < ins.len() implies a2.kid_ok(p, j) by {
                        if 0 <= j - 2 {
                            assert(a1.kid_ok(p, j - 2));
                        }
                        if 0 <= j - 1 {
                            assert(a1.kid_ok(p, j - 1));
                        }
                        if j < n {
                            assert(a1.kid_ok(p, j));
                        }
                        if j + 1 < n {
                            assert(a1.kid_ok(p, j + 1));
                        }
                    }
                    assert(a2.family_ok(p));
                } else {
                    assert(a2.kids(q) == a1.kids(q));
                    assert forall|j: int|
                        #![trigger a1.kids(q)[j]]
                        0 <= j < a1.kids(q).len() implies {
                        let cc = a1.kids(q)[j];
                        &&& a2.occupied(cc) == a1.occupied(cc)
                        &&& a2.node_at(cc).parent == a1.node_at(cc).parent
                        &&& a2.node_at(cc).prev == a1.node_at(cc).prev
                        &&& a2.node_at(cc).next == a1.node_at(cc).next
                    } by {
                        assert(a1.kid_ok(q, j));
                    }
                    lemma_family_frame(a1, a2, q);
                }
            }
            assert forall|cc: usize| a2.occupied(cc) implies a2.parent_ok(cc) by {
                assert(a1.parent_ok(cc));
                if cc == x {
                    assert(ins[k + 1] == x);
                    assert(a2.kids(p).contains(x));
                } else {
                    match a1.node_at(cc).parent {
                        None => {},
                        Some(q) => {
                            if q == p {
                                let j = choose|j: int| 0 <= j < n && ks[j] == cc;
                                assert(ks[j] == cc);
                                if j <= k {
                                    assert(ins[j] == cc);
                                } else {
                                    assert(ins[j + 1] == cc);
                                }
                                assert(ins.contains(cc));
                            }
                        },
                    }
                }
            }
            assert forall|i: usize| a2.moved_idxs@.contains_key(i) implies a2.vacant(i) by {
                assert(a1.vacant(i));
            }
            assert forall|i: usize| a2.vacant(i) implies a2.moved_idxs@.contains_key(i) by {
                assert(a1.vacant(i));
            }
        }
    }

    /// Links the detached node in slot `x` as the new last child of `p`,
    /// walking the sibling chain to its tail.
    pub(crate) fn link_last(&mut self, p: usize, x: usize)
        requires
            old(self).wf(),
            old(self).occupied(p),
            old(self).occupied(x),
            old(self).parent_of(x) is None,
            x != p,
        ensures
            final(self).wf(),
            final(self).moved_idxs@ == old(self).moved_idxs@,
            final(self).slot_count() == old(self).slot_count(),
            forall|i: usize| #[trigger] final(self).occupied(i) == old(self).occupied(i),
            forall|i: usize|
                old(self).occupied(i) ==> #[trigger] final(self).node_at(i).content == old(
                    self,
                ).node_at(i).content,
            final(self).child_order@ == old(self).child_order@.insert(
                p,
                old(self).kids(p).push(x),
            ),
            final(self).node_at(x).child == old(self).node_at(x).child,
    {
        let ghost ks = old(self).kids(p);
        let ghost n: int = ks.len() as int;
        proof {
            assert(old(self).family_ok(p));
        }
        let has_kids = match self.node_ref(p).child {
            Some(_) => true,
            None => false,
        };
        if !has_kids {
            self.link_first(p, x);
            proof {
                assert(ks.insert(0, x) =~= ks.push(x));
            }
        } else {
            let last = self.walk_last(p);
            proof {
                assert(n > 0);
                assert(last == ks[n - 1]);
                assert(old(self).kid_ok(p, n - 1));
                let k2 = ks.index_of(last);
                assert(0 <= k2 < n && ks[k2] == last);
                assert(k2 == n - 1);
                assert(ks.insert(n, x) =~= ks.push(x));
            }
            self.link_after(last, x);
        }
    }

    /// Empties the slot of a detached, childless node and records `stamp` as
    /// the slot's new moves count, so that handles carrying another stamp
    /// become stale.
    pub(crate) fn vacate(&mut self, x: usize, stamp: usize)
        requires
            old(self).wf(),
            old(self).occupied(x),
            old(self).parent_of(x) is None,
            old(self).kids(x).len() == 0,
        ensures
            final(self).wf(),
            final(self).slot_count() == old(self).slot_count(),
            !final(self).occupied(x),
            final(self).moved_idxs@ == old(self).moved_idxs@.insert(x, stamp),
            final(self).child_order@ == old(self).child_order@.remove(x),
            forall|i: usize|
                i != x ==> #[trigger] final(self).occupied(i) == old(self).occupied(i),
            forall|i: usize|
                i != x && old(self).occupied(i) ==> #[trigger] final(self).node_at(i) == old(
                    self,
                ).node_at(i),
    {
        let ghost a1 = *old(self);
        {
            let nd = &mut self.nodes[x];
            *nd = None;
        }
        self.moved_idxs.insert(x, stamp);
        proof {
            self.child_order@ = self.child_order@.remove(x);
            let a2 = *self;
            assert forall|q: usize| a2.occupied(q) implies a2.family_ok(q) by {
                assert(q != x);
                assert(a1.occupied(q));
                assert(a1.family_ok(q));
                assert(a2.kids(q) == a1.kids(q));
                assert forall|j: int|
                    #![trigger a1.kids(q)[j]]
                    0 <= j < a1.kids(q).len() implies {
                    let c = a1.kids(q)[j];
                    &&& a2.occupied(c) == a1.occupied(c)
                    &&& a2.node_at(c).parent == a1.node_at(c).parent
                    &&& a2.node_at(c).prev == a1.node_at(c).prev
                    &&& a2.node_at(c).next == a1.node_at(c).next
                } by {
                    assert(a1.kid_ok(q, j));
                    assert(a1.parent_ok(a1.kids(q)[j]));
                    assert(a1.kids(q)[j] != x);
                }
                lemma_family_frame(a1, a2, q);
            }
            assert forall|c: usize| a2.occupied(c) implies a2.parent_ok(c) by {
                assert(c != x);
                assert(a1.occupied(c));
                assert(a1.parent_ok(c));
                match a1.node_at(c).parent {
                    None => {},
                    Some(q) => {
                        assert(q != x);
                    },
                }
            }
            assert forall|i: usize| a2.moved_idxs@.contains_key(i) implies a2.vacant(i) by {
                if i != x {
                    assert(a1.vacant(i));
                }
            }
            assert forall|i: usize| a2.vacant(i) implies a2.moved_idxs@.contains_key(i) by {
                if i != x {
                    assert(a1.vacant(i));
                }
            }
        }
    }

    /// Walks the child list of `p` to its tail and returns the slot of the
    /// last child.
    pub(crate) fn walk_last(&self, p: usize) -> (r: usize)
        requires
            self.wf(),
            self.occupied(p),
            self.kids(p).len() > 0,
        ensures
            r == self.kids(p)[self.kids(p).len() - 1],
    {
        let ghost ks = self.kids(p);
        proof {
            assert(self.family_ok(p));
            assert(self.kid_ok(p, 0));
        }
        let mut cur = match self.node_ref(p).child {
            Some(f) => f,
            None => vstd::pervasive::unreached(),
        };
        let ghost mut j: int = 0;
        loop
            invariant
                self.wf(),
                self.occupied(p),
                ks == self.kids(p),
                0 <= j < ks.len(),
                cur == ks[j],
            ensures
                0 <= j < ks.len(),
                cur == ks[j],
                self.node_at(cur).next is None,
            decreases ks.len() - j,
        {
            proof {
                assert(self.kid_ok(p, j));
            }
            match self.node_ref(cur).next {
                Some(nx) => {
                    cur = nx;
                    proof {
                        j = j + 1;
                    }
                },
                None => {
                    break ;
                },
            }
        }
        proof {
            assert(self.kid_ok(p, j));
            assert(j == ks.len() - 1);
        }
        cur
    }

    /// Walks the child list of `p`, returning the slot of the child at
    /// position `steps`, or of the last child when `p` has fewer children.
    pub(crate) fn walk_to(&self, p: usize, steps: usize) -> (r: usize)
        requires
            self.wf(),
            self.occupied(p),
            self.kids(p).len() > 0,
        ensures
            r == self.kids(p)[if steps < self.kids(p).len() {
                steps as int
            } else {
                self.kids(p).len() - 1
            }],
    {
        let ghost ks = self.kids(p);
        proof {
            assert(self.family_ok(p));
            assert(self.kid_ok(p, 0));
        }
        let mut cur = match self.node_ref(p).child {
            Some(f) => f,
            None => vstd::pervasive::unreached(),
        };
        let mut j: usize = 0;
        loop
            invariant
                self.wf(),
                self.occupied(p),
                ks == self.kids(p),
                j <= steps,
                j < ks.len(),
                cur == ks[j as int],
            ensures
                j <= steps,
                j < ks.len(),
                cur == ks[j as int],
                j == steps || j == ks.len() - 1,
            decreases ks.len() - j,
        {
            if j >= steps {
                break ;
            }
            proof {
                assert(self.kid_ok(p, j as int));
            }
            match self.node_ref(cur).next {
                Some(nx) => {
                    cur = nx;
                    j = j + 1;
                },
                None => {
                    break ;
                },
            }
        }
        cur
    }

    /// Collects the children of the node a handle points at, in order, by
    /// walking `child` and then `next` links.
    pub fn children_of(&self, id: &NodeId) -> (r: Vec<usize>)
        requires
            self.wf(),
            id.is_live(*self),
        ensures
            r@ == self.kids(id.idx),
    {
        let ghost ks = self.kids(id.idx);
        proof {
            assert(self.family_ok(id.idx));
        }
        let mut out: Vec<usize> = Vec::new();
        let mut cur_opt = self.node_ref(id.idx).child;
        let ghost mut j: int = 0;
        loop
            invariant
                self.wf(),
                self.occupied(id.idx),
                ks == self.kids(id.idx),
                0 <= j <= ks.len(),
                out@ == ks.take(j),
                cur_opt == (if j == ks.len() {
                    Option::<usize>::None
                } else {
                    Some(ks[j])
                }),
            ensures
                out@ == ks,
            decreases ks.len() - j,
        {
            match cur_opt {
                None => {
                    proof {
                        assert(ks.take(j) =~= ks);
                    }
                    break ;
                },
                Some(c) => {
                    proof {
                        assert(self.kid_ok(id.idx, j));
                    }
                    out.push(c);
                    cur_opt = self.node_ref(c).next;
                    proof {
                        assert(out@ =~= ks.take(j + 1));
                        j = j + 1;
                    }
                },
            }
        }
        out
    }

    /// Stores a detached node in a fresh slot as a new root and returns a
    /// handle to it.
    pub fn append_root(&mut self, node: Node<T>) -> (r: NodeId)
        requires
            old(self).wf(),
            node.detached(),
        ensures
            final(self).wf(),
            r.idx == old(self).slot_count(),
            r.at_mc == 0,
            r.is_live(*final(self)),
            final(self).nodes@ == old(self).nodes@.push(Some(node)),
            final(self).moved_idxs@ == old(self).moved_idxs@,
            final(self).child_order@ == old(self).child_order@.insert(
                r.idx,
                Seq::<usize>::empty(),
            ),
    {
        let idx = self.push(node);
        NodeId { idx, at_mc: 0 }
    }

    /// Resolves a handle: the node it points at, or `None` when the handle is
    /// stale or its slot is not occupied.
    pub fn get(&self, id: &NodeId) -> (r: Option<&Node<T>>)
        ensures
            match r {
                Some(n) => id.is_valid(*self) && self.occupied(id.idx) && *n == self.node_at(
                    id.idx,
                ),
                None => !(id.is_valid(*self) && self.occupied(id.idx)),
            },
    {
        if !id.validate(self) {
            return None;
        }
        if id.idx < self.nodes.len() {
            match &self.nodes[id.idx] {
                Some(n) => Some(n),
                None => None,
            }
        } else {
            None
        }
    }
}

/// Pushing a fresh detached node onto the end of a well-formed arena keeps it
/// well-formed.
proof fn lemma_push_wf<T>(a1: Arena<T>, a2: Arena<T>, r: usize, node: Node<T>)
    requires
        a1.wf(),
        node.detached(),
        r == a1.slot_count(),
        a2.nodes@ == a1.nodes@.push(Some(node)),
        a2.moved_idxs@ == a1.moved_idxs@,
        a2.child_order@ == a1.child_order@.insert(r, Seq::<usize>::empty()),
    ensures
        a2.wf(),
{
    assert forall|p: usize| a2.occupied(p) implies a2.family_ok(p) by {
        if p == r {
            assert(a2.kids(p).len() == 0);
        } else {
            assert(a1.occupied(p));
            assert(a1.family_ok(p));
            assert(a2.kids(p) == a1.kids(p));
            assert forall|k: int|
                #![trigger a1.kids(p)[k]]
                0 <= k < a1.kids(p).len() implies {
                let c = a1.kids(p)[k];
                &&& a2.occupied(c) == a1.occupied(c)
                &&& a2.node_at(c).parent == a1.node_at(c).parent
                &&& a2.node_at(c).prev == a1.node_at(c).prev
                &&& a2.node_at(c).next == a1.node_at(c).next
            } by {
                assert(a1.kid_ok(p, k));
            }
            lemma_family_frame(a1, a2, p);
        }
    }
    assert forall|c: usize| a2.occupied(c) implies a2.parent_ok(c) by {
        if c == r {
            assert(a2.node_at(c).parent is None);
        } else {
            assert(a1.occupied(c));
            assert(a1.parent_ok(c));
            lemma_parent_frame(a1, a2, c);
        }
    }
    assert forall|i: usize| a2.moved_idxs@.contains_key(i) implies a2.vacant(i) by {
        assert(a1.vacant(i));
    }
    assert forall|i: usize| a2.vacant(i) implies a2.moved_idxs@.contains_key(i) by {
        assert(i != r);
        assert(a1.vacant(i));
    }
}

/// Law: taking a node out of a duplicate-free sibling group (as detach and
/// relinking do) leaves the remaining siblings complete and in their old
/// order — no gap, no duplicate, and the detached node no longer occurs.
pub proof fn lemma_sib_removed_order(ks: Seq<usize>, x: usize)
    requires
        ks.contains(x),
        forall|k1: int, k2: int|
            #![trigger ks[k1], ks[k2]]
            0 <= k1 < k2 < ks.len() ==> ks[k1] != ks[k2],
    ensures
        sib_removed(ks, x).len() == ks.len() - 1,
        !sib_removed(ks, x).contains(x),
        forall|j: int|
            0 <= j < ks.index_of(x) ==> #[trigger] sib_removed(ks, x)[j] == ks[j],
        forall|j: int|
            ks.index_of(x) <= j < ks.len() - 1 ==> #[trigger] sib_removed(ks, x)[j] == ks[j + 1],
{
    let k = ks.index_of(x);
    assert(0 <= k < ks.len() && ks[k] == x);
    ks.remove_ensures(k);
    let rem = sib_removed(ks, x);
    assert forall|j: int| 0 <= j < rem.len() implies rem[j] != x by {
        if j < k {
            assert(rem[j] == ks[j]);
        } else {
            assert(rem[j] == ks[j + 1]);
        }
    }
    if rem.contains(x) {
        let j = choose|j: int| 0 <= j < rem.len() && rem[j] == x;
        assert(rem[j] == x);
    }
}

/// Law: the sibling chain realises the child order.  Walking `child` and
/// then `next` from a well-formed node enumerates exactly its children in
/// order: `child` points at the first, each child's `next` points at the
/// next one (absent for the last), and each child's `prev` points at the
/// previous one (absent for the first).
pub proof fn lemma_sibling_chain<T>(arena: Arena<T>, p: usize)
    requires
        arena.wf(),
        arena.occupied(p),
    ensures
        arena.node_at(p).child == (if arena.kids(p).len() == 0 {
            Option::<usize>::None
        } else {
            Some(arena.kids(p)[0])
        }),
        forall|k: int|
            0 <= k < arena.kids(p).len() ==> (#[trigger] arena.node_at(arena.kids(p)[k]).next)
                == (if k == arena.kids(p).len() - 1 {
                Option::<usize>::None
            } else {
                Some(arena.kids(p)[k + 1])
            }),
        forall|k: int|
            0 <= k < arena.kids(p).len() ==> (#[trigger] arena.node_at(arena.kids(p)[k]).prev)
                == (if k == 0 {
                Option::<usize>::None
            } else {
                Some(arena.kids(p)[k - 1])
            }),
{
    assert(arena.family_ok(p));
    assert forall|k: int| 0 <= k < arena.kids(p).len() implies (#[trigger] arena.node_at(
        arena.kids(p)[k],
    ).next) == (if k == arena.kids(p).len() - 1 {
        Option::<usize>::None
    } else {
        Some(arena.kids(p)[k + 1])
    }) by {
        assert(arena.kid_ok(p, k));
    }
    assert forall|k: int| 0 <= k < arena.kids(p).len() implies (#[trigger] arena.node_at(
        arena.kids(p)[k],
    ).prev) == (if k == 0 {
        Option::<usize>::None
    } else {
        Some(arena.kids(p)[k - 1])
    }) by {
        assert(arena.kid_ok(p, k));
    }
}

/// Law: parent links and child lists agree.  A node carries `parent == p`
/// exactly when it occurs in `p`'s child order, and it occurs there at one
/// position only.
pub proof fn lemma_parent_consistency<T>(arena: Arena<T>, c: usize, p: usize)
    requires
        arena.wf(),
        arena.occupied(c),
        arena.occupied(p),
    ensures
        arena.node_at(c).parent == Some(p) <==> arena.kids(p).contains(c),
        forall|k1: int, k2: int|
            #![trigger arena.kids(p)[k1], arena.kids(p)[k2]]
            0 <= k1 < arena.kids(p).len() && 0 <= k2 < arena.kids(p).len() && arena.kids(p)[k1]
                == c && arena.kids(p)[k2] == c ==> k1 == k2,
{
    assert(arena.parent_ok(c));
    assert(arena.family_ok(p));
    if arena.kids(p).contains(c) {
        let k = choose|k: int| 0 <= k < arena.kids(p).len() && arena.kids(p)[k] == c;
        assert(arena.kids(p)[k] == c);
        assert(arena.kid_ok(p, k));
    }
}

/// Law: no node hangs under two parents.  A slot that occurs in the child
/// order of two well-formed nodes names the same parent twice.
pub proof fn lemma_unique_parent<T>(arena: Arena<T>, c: usize, p1: usize, p2: usize)
    requires
        arena.wf(),
        arena.occupied(p1),
        arena.occupied(p2),
        arena.kids(p1).contains(c),
        arena.kids(p2).contains(c),
    ensures
        p1 == p2,
{
    assert(arena.family_ok(p1));
    assert(arena.family_ok(p2));
    let k1 = choose|k: int| 0 <= k < arena.kids(p1).len() && arena.kids(p1)[k] == c;
    assert(arena.kids(p1)[k1] == c);
    assert(arena.kid_ok(p1, k1));
    let k2 = choose|k: int| 0 <= k < arena.kids(p2).len() && arena.kids(p2)[k] == c;
    assert(arena.kids(p2)[k2] == c);
    assert(arena.kid_ok(p2, k2));
}

/// Frame rule for [`Arena::family_ok`]: the child list of `p` stays correct
/// when its order, the `child` link of `p`, and the links of every child are
/// untouched.
proof fn lemma_family_frame<T>(a1: Arena<T>, a2: Arena<T>, p: usize)
    requires
        a1.family_ok(p),
        a2.kids(p) == a1.kids(p),
        a2.node_at(p).child == a1.node_at(p).child,
        forall|k: int|
            #![trigger a1.kids(p)[k]]
            0 <= k < a1.kids(p).len() ==> {
                let c = a1.kids(p)[k];
                &&& a2.occupied(c) == a1.occupied(c)
                &&& a2.node_at(c).parent == a1.node_at(c).parent
                &&& a2.node_at(c).prev == a1.node_at(c).prev
                &&& a2.node_at(c).next == a1.node_at(c).next
            },
    ensures
        a2.family_ok(p),
{
    assert forall|k: int| 0 <= k < a2.kids(p).len() implies a2.kid_ok(p, k) by {
        assert(a1.kid_ok(p, k));
        assert(a1.kids(p)[k] == a2.kids(p)[k]);
    }
}

/// Frame rule for [`Arena::parent_ok`]: the parent consistency of `c` is kept
/// when its own links, and its parent's occupancy and child order, are
/// untouched.
proof fn lemma_parent_frame<T>(a1: Arena<T>, a2: Arena<T>, c: usize)
    requires
        a1.parent_ok(c),
        a2.node_at(c).parent == a1.node_at(c).parent,
        a2.node_at(c).prev == a1.node_at(c).prev,
        a2.node_at(c).next == a1.node_at(c).next,
        (match a1.node_at(c).parent {
            Some(p) => a2.occupied(p) == a1.occupied(p) && a2.kids(p) == a1.kids(p),
            None => true,
        }),
    ensures
        a2.parent_ok(c),
{
}

} // verus!
