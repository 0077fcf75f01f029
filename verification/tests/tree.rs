use acreage::AppendNode;
use acreage::Arena;
use acreage::DetachNode;
use acreage::InsertNode;
use acreage::Node;
use acreage::NodeAccess;

#[test]
fn fresh_handle_is_valid() {
    let mut arena: Arena<i32> = Arena::new();
    let r = arena.append_root(Node::new(7));
    assert!(r.validate(&arena));
    assert_eq!(*r.as_content(&arena), 7);
}

#[test]
fn append_order_is_kept() {
    let mut arena: Arena<i32> = Arena::new();
    let r = arena.append_root(Node::new(0));
    let a = r.append_child(NodeAccess::Owned(Node::new(1)), &mut arena);
    let b = r.append_child(NodeAccess::Owned(Node::new(2)), &mut arena);
    let c = r.append_child(NodeAccess::Owned(Node::new(3)), &mut arena);
    assert_eq!(arena.children_of(&r), vec![a.idx, b.idx, c.idx]);
    // walk `child` then `next` by hand
    let first = arena.get(&r).unwrap().child.unwrap();
    assert_eq!(first, a.idx);
    let second = arena.get(&a).unwrap().next.unwrap();
    assert_eq!(second, b.idx);
    let third = arena.get(&b).unwrap().next.unwrap();
    assert_eq!(third, c.idx);
    // the first child has no prev, the last no next
    assert_eq!(arena.get(&a).unwrap().prev, None);
    assert_eq!(arena.get(&c).unwrap().next, None);
    // payloads still in place
    assert_eq!(*a.as_content(&arena), 1);
    assert_eq!(*b.as_content(&arena), 2);
    assert_eq!(*c.as_content(&arena), 3);
}

#[test]
fn parent_links_match_child_lists() {
    let mut arena: Arena<i32> = Arena::new();
    let r = arena.append_root(Node::new(0));
    let a = r.append_child(NodeAccess::Owned(Node::new(1)), &mut arena);
    let b = r.append_child(NodeAccess::Owned(Node::new(2)), &mut arena);
    let c = a.append_child(NodeAccess::Owned(Node::new(3)), &mut arena);
    assert_eq!(arena.get(&a).unwrap().parent, Some(r.idx));
    assert_eq!(arena.get(&b).unwrap().parent, Some(r.idx));
    assert_eq!(arena.get(&c).unwrap().parent, Some(a.idx));
    // each child occurs exactly once under exactly its parent
    let under_r = arena.children_of(&r);
    let under_a = arena.children_of(&a);
    assert_eq!(under_r.iter().filter(|&&i| i == a.idx).count(), 1);
    assert_eq!(under_r.iter().filter(|&&i| i == b.idx).count(), 1);
    assert_eq!(under_r.iter().filter(|&&i| i == c.idx).count(), 0);
    assert_eq!(under_a.iter().filter(|&&i| i == c.idx).count(), 1);
    assert_eq!(under_a.iter().filter(|&&i| i == b.idx).count(), 0);
}

#[test]
fn append_detach_reappend_scenario() {
    let mut arena: Arena<i32> = Arena::new();
    let r = arena.append_root(Node::new(0));
    let a = r.append_child(NodeAccess::Owned(Node::new(1)), &mut arena);
    assert_eq!(arena.get(&a).unwrap().parent, Some(r.idx));
    assert_eq!(arena.get(&r).unwrap().child, Some(a.idx));
    let b = r.append_child(NodeAccess::Owned(Node::new(2)), &mut arena);
    assert_eq!(arena.get(&a).unwrap().next, Some(b.idx));
    assert_eq!(arena.get(&b).unwrap().prev, Some(a.idx));
    assert_eq!(arena.get(&r).unwrap().child, Some(a.idx));
    let a2 = a.detach(&mut arena);
    assert_eq!(a2.idx, a.idx);
    assert!(a2.validate(&arena));
    assert_eq!(arena.get(&r).unwrap().child, Some(b.idx));
    assert_eq!(arena.get(&b).unwrap().prev, None);
    assert_eq!(arena.get(&a).unwrap().parent, None);
    let a3 = r.append_child(NodeAccess::ById(a), &mut arena);
    assert_eq!(a3.idx, a.idx);
    assert_eq!(arena.children_of(&r), vec![b.idx, a.idx]);
    assert_eq!(arena.get(&b).unwrap().next, Some(a.idx));
    assert_eq!(arena.get(&a).unwrap().prev, Some(b.idx));
}

#[test]
fn insert_at_position_zero() {
    let mut arena: Arena<i32> = Arena::new();
    let r = arena.append_root(Node::new(0));
    let x = r.append_child(NodeAccess::Owned(Node::new(1)), &mut arena);
    let y = r.append_child(NodeAccess::Owned(Node::new(2)), &mut arena);
    let n = r.insert_child(0, NodeAccess::Owned(Node::new(3)), &mut arena);
    assert_eq!(arena.children_of(&r), vec![n.idx, x.idx, y.idx]);
    assert_eq!(arena.get(&r).unwrap().child, Some(n.idx));
    assert_eq!(arena.get(&n).unwrap().prev, None);
    assert_eq!(arena.get(&n).unwrap().next, Some(x.idx));
    assert_eq!(arena.get(&x).unwrap().prev, Some(n.idx));
}

#[test]
fn insert_in_the_middle() {
    let mut arena: Arena<i32> = Arena::new();
    let r = arena.append_root(Node::new(0));
    let x = r.append_child(NodeAccess::Owned(Node::new(1)), &mut arena);
    let y = r.append_child(NodeAccess::Owned(Node::new(2)), &mut arena);
    let n = r.insert_child(1, NodeAccess::Owned(Node::new(3)), &mut arena);
    assert_eq!(arena.children_of(&r), vec![x.idx, n.idx, y.idx]);
}

#[test]
fn insert_beyond_count_appends() {
    let mut arena: Arena<i32> = Arena::new();
    let r = arena.append_root(Node::new(0));
    let x = r.append_child(NodeAccess::Owned(Node::new(1)), &mut arena);
    let y = r.append_child(NodeAccess::Owned(Node::new(2)), &mut arena);
    let n = r.insert_child(10, NodeAccess::Owned(Node::new(3)), &mut arena);
    assert_eq!(arena.children_of(&r), vec![x.idx, y.idx, n.idx]);
    assert_eq!(arena.get(&n).unwrap().next, None);
}

#[test]
fn insert_prev_and_next() {
    let mut arena: Arena<i32> = Arena::new();
    let r = arena.append_root(Node::new(0));
    let x = r.append_child(NodeAccess::Owned(Node::new(1)), &mut arena);
    let z = r.append_child(NodeAccess::Owned(Node::new(2)), &mut arena);
    let y = x.insert_next(NodeAccess::Owned(Node::new(3)), &mut arena);
    assert_eq!(arena.children_of(&r), vec![x.idx, y.idx, z.idx]);
    let w = z.insert_prev(NodeAccess::Owned(Node::new(4)), &mut arena);
    assert_eq!(arena.children_of(&r), vec![x.idx, y.idx, w.idx, z.idx]);
    let v = x.insert_prev(NodeAccess::Owned(Node::new(5)), &mut arena);
    assert_eq!(arena.children_of(&r), vec![v.idx, x.idx, y.idx, w.idx, z.idx]);
}

#[test]
fn remove_invalidates_every_handle() {
    let mut arena: Arena<i32> = Arena::new();
    let r = arena.append_root(Node::new(0));
    let a = r.append_child(NodeAccess::Owned(Node::new(1)), &mut arena);
    let kept = a;
    let cloned = a.clone();
    a.remove(&mut arena);
    assert!(!kept.validate(&arena));
    assert!(!cloned.validate(&arena));
    assert!(r.validate(&arena));
    assert_eq!(arena.children_of(&r), Vec::<usize>::new());
}

#[test]
fn stale_handle_stays_stale() {
    let mut arena: Arena<i32> = Arena::new();
    let r = arena.append_root(Node::new(0));
    let a = r.append_child(NodeAccess::Owned(Node::new(1)), &mut arena);
    let kept = a;
    a.remove(&mut arena);
    assert!(!kept.validate(&arena));
    // later mutations never make the stale handle valid again
    let b = r.append_child(NodeAccess::Owned(Node::new(2)), &mut arena);
    assert!(!kept.validate(&arena));
    let c = r.insert_child(0, NodeAccess::Owned(Node::new(3)), &mut arena);
    assert!(!kept.validate(&arena));
    b.detach(&mut arena);
    assert!(!kept.validate(&arena));
    c.remove(&mut arena);
    assert!(!kept.validate(&arena));
}

#[test]
fn remove_orphans_the_children() {
    let mut arena: Arena<i32> = Arena::new();
    let r = arena.append_root(Node::new(0));
    let a = r.append_child(NodeAccess::Owned(Node::new(1)), &mut arena);
    let c1 = a.append_child(NodeAccess::Owned(Node::new(2)), &mut arena);
    let c2 = a.append_child(NodeAccess::Owned(Node::new(3)), &mut arena);
    a.remove(&mut arena);
    // the children stay resident under valid handles, as parentless roots
    assert!(c1.validate(&arena));
    assert!(c2.validate(&arena));
    assert_eq!(arena.get(&c1).unwrap().parent, None);
    assert_eq!(arena.get(&c2).unwrap().parent, None);
    assert_eq!(arena.get(&c1).unwrap().prev, None);
    assert_eq!(arena.get(&c2).unwrap().next, None);
    assert_eq!(*c1.as_content(&arena), 2);
    assert_eq!(arena.children_of(&r), Vec::<usize>::new());
}

#[test]
fn detach_of_a_root_changes_nothing() {
    let mut arena: Arena<i32> = Arena::new();
    let r = arena.append_root(Node::new(0));
    let a = r.append_child(NodeAccess::Owned(Node::new(1)), &mut arena);
    let r2 = r.detach(&mut arena);
    assert_eq!(r2.idx, r.idx);
    assert!(r.validate(&arena));
    assert_eq!(arena.children_of(&r), vec![a.idx]);
    assert_eq!(*r.as_content(&arena), 0);
}

#[test]
fn detach_keeps_the_subtree() {
    let mut arena: Arena<i32> = Arena::new();
    let r = arena.append_root(Node::new(0));
    let a = r.append_child(NodeAccess::Owned(Node::new(1)), &mut arena);
    let c = a.append_child(NodeAccess::Owned(Node::new(2)), &mut arena);
    a.detach(&mut arena);
    assert_eq!(arena.get(&a).unwrap().parent, None);
    assert_eq!(arena.children_of(&a), vec![c.idx]);
    assert_eq!(arena.get(&c).unwrap().parent, Some(a.idx));
}

#[test]
fn reappend_under_the_same_parent_moves_to_the_end() {
    let mut arena: Arena<i32> = Arena::new();
    let r = arena.append_root(Node::new(0));
    let a = r.append_child(NodeAccess::Owned(Node::new(1)), &mut arena);
    let b = r.append_child(NodeAccess::Owned(Node::new(2)), &mut arena);
    let a2 = r.append_child(NodeAccess::ById(a), &mut arena);
    assert_eq!(a2.idx, a.idx);
    assert_eq!(arena.children_of(&r), vec![b.idx, a.idx]);
    assert_eq!(arena.get(&b).unwrap().prev, None);
    assert_eq!(arena.get(&b).unwrap().next, Some(a.idx));
}

#[test]
fn move_a_node_between_parents() {
    let mut arena: Arena<i32> = Arena::new();
    let p1 = arena.append_root(Node::new(0));
    let p2 = arena.append_root(Node::new(1));
    let a = p1.append_child(NodeAccess::Owned(Node::new(2)), &mut arena);
    let b = p1.append_child(NodeAccess::Owned(Node::new(3)), &mut arena);
    let c = p2.append_child(NodeAccess::Owned(Node::new(4)), &mut arena);
    let moved = p2.insert_child(1, NodeAccess::ById(a), &mut arena);
    assert_eq!(moved.idx, a.idx);
    assert_eq!(arena.children_of(&p1), vec![b.idx]);
    assert_eq!(arena.children_of(&p2), vec![c.idx, a.idx]);
    assert_eq!(arena.get(&a).unwrap().parent, Some(p2.idx));
    assert_eq!(arena.get(&b).unwrap().prev, None);
    assert_eq!(arena.get(&b).unwrap().next, None);
}

#[test]
fn relinking_keeps_the_subtree() {
    let mut arena: Arena<i32> = Arena::new();
    let r1 = arena.append_root(Node::new(0));
    let r2 = arena.append_root(Node::new(1));
    let a = r1.append_child(NodeAccess::Owned(Node::new(2)), &mut arena);
    let c = a.append_child(NodeAccess::Owned(Node::new(3)), &mut arena);
    let moved = r2.append_child(NodeAccess::ById(a), &mut arena);
    assert_eq!(moved.idx, a.idx);
    assert_eq!(arena.children_of(&r1), Vec::<usize>::new());
    assert_eq!(arena.children_of(&r2), vec![a.idx]);
    assert_eq!(arena.children_of(&a), vec![c.idx]);
    assert_eq!(arena.get(&c).unwrap().parent, Some(a.idx));
    assert_eq!(*c.as_content(&arena), 3);
}

#[test]
fn handles_survive_sibling_mutation() {
    let mut arena: Arena<i32> = Arena::new();
    let r = arena.append_root(Node::new(0));
    let a = r.append_child(NodeAccess::Owned(Node::new(1)), &mut arena);
    let b = r.append_child(NodeAccess::Owned(Node::new(2)), &mut arena);
    b.remove(&mut arena);
    // a sibling's removal never touches this handle
    assert!(a.validate(&arena));
    assert_eq!(*a.as_content(&arena), 1);
    r.insert_child(0, NodeAccess::Owned(Node::new(3)), &mut arena);
    assert!(a.validate(&arena));
    assert_eq!(*a.as_content(&arena), 1);
}

#[test]
fn input_adapter_converts_from_both_shapes() {
    let mut arena: Arena<i32> = Arena::new();
    let r = arena.append_root(Node::new(0));
    let from_owned: NodeAccess<i32> = Node::new(1).into();
    let a = r.append_child(from_owned, &mut arena);
    let detached = a.detach(&mut arena);
    let from_id: NodeAccess<i32> = detached.into();
    let a2 = r.append_child(from_id, &mut arena);
    assert_eq!(a2.idx, a.idx);
    assert_eq!(arena.children_of(&r), vec![a.idx]);
}

#[test]
fn next_idx_names_the_slot_push_takes() {
    let mut arena: Arena<i32> = Arena::new();
    assert_eq!(arena.next_idx(), 0);
    let r = arena.append_root(Node::new(0));
    assert_eq!(r.idx, 0);
    assert_eq!(arena.next_idx(), 1);
    let a = r.append_child(NodeAccess::Owned(Node::new(1)), &mut arena);
    assert_eq!(a.idx, 1);
    assert_eq!(a.at_mc, 0);
    assert_eq!(arena.next_idx(), 2);
}

#[test]
fn get_on_a_stale_handle_is_none() {
    let mut arena: Arena<i32> = Arena::new();
    let r = arena.append_root(Node::new(0));
    let a = r.append_child(NodeAccess::Owned(Node::new(1)), &mut arena);
    let kept = a;
    a.remove(&mut arena);
    assert!(arena.get(&kept).is_none());
    assert!(arena.get(&r).is_some());
}
