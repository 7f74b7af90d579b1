use relrc::{Arena, Registry, RelRc};

#[test]
fn test_cleanup_dead_references() {
    let mut arena = Arena::<&str, ()>::new();
    let registry = Registry::new(&mut arena);

    let id = {
        let node = RelRc::new(&mut arena, "test");
        let id = node.try_register_in(&mut arena, &registry).unwrap();

        assert_eq!(registry.len(&arena), 1);
        node.release(&mut arena);
        id
    }; // node is dropped here

    // Should return None and clean up the entry
    assert!(registry.get(&mut arena, id).is_none());
    assert!(!registry.contains_id(&arena, id));
    assert_eq!(registry.len(&arena), 0);
}

#[test]
fn a_new_node_has_one_handle_and_no_edges() {
    let mut arena = Arena::<u32, u32>::new();
    let node = RelRc::new(&mut arena, 7);
    assert!(arena.contains(&node));
    let data = arena.get(&node);
    assert_eq!(data.value(), &7);
    assert_eq!(data.n_incoming(), 0);
    assert_eq!(data.strong_count(), 1);
    assert!(data.incoming(0).is_none());
    assert!(data.parent(0).is_none());
    assert_eq!(node.n_outgoing(&mut arena), 0);
    assert_eq!(arena.n_slots(), 1);
}

#[test]
fn with_parents_keeps_the_order_of_the_edges() {
    let mut arena = Arena::<&str, u32>::new();
    let a = RelRc::new(&mut arena, "a");
    let b = RelRc::new(&mut arena, "b");
    let c = RelRc::with_parents(&mut arena, "c", vec![(&b, 1), (&a, 2), (&b, 3)]);

    let data = arena.get(&c);
    assert_eq!(data.n_incoming(), 3);
    let values: Vec<u32> = data.all_incoming().iter().map(|e| *e.value()).collect();
    assert_eq!(values, vec![1, 2, 3]);
    let parents: Vec<usize> = data.all_parents().iter().map(|p| p.as_ptr()).collect();
    assert_eq!(parents, vec![b.as_ptr(), a.as_ptr(), b.as_ptr()]);
    assert!(data.parent(1).unwrap().ptr_eq(&a));
    assert_eq!(data.incoming_weak(2).unwrap().index(), 2);
    assert!(data.incoming_weak(3).is_none());

    // A parent that is given twice has two outgoing edges.
    let out_b = b.all_outgoing(&mut arena);
    assert_eq!(out_b.len(), 2);
    assert_eq!(out_b[0].index(), 0);
    assert_eq!(out_b[1].index(), 2);
    assert!(out_b[0].target().ptr_eq(&c.downgrade()));
    assert_eq!(a.all_children(&mut arena).len(), 1);
}

#[test]
fn a_child_keeps_its_ancestors_alive() {
    let mut arena = Arena::<&str, ()>::new();
    let root = RelRc::new(&mut arena, "root");
    let mid = RelRc::with_parents(&mut arena, "mid", vec![(&root, ())]);
    let leaf = RelRc::with_parents(&mut arena, "leaf", vec![(&mid, ())]);
    let weak_root = root.downgrade();
    let weak_mid = mid.downgrade();
    let weak_leaf = leaf.downgrade();

    root.release(&mut arena);
    mid.release(&mut arena);
    // The leaf is held: everything is alive.
    let again = weak_root.upgrade(&mut arena).unwrap();
    assert_eq!(arena.get(&again).value(), &"root");
    again.release(&mut arena);
    assert!(arena.contains(&leaf));

    // Releasing the leaf destroys the whole chain.
    leaf.release(&mut arena);
    assert!(weak_leaf.upgrade(&mut arena).is_none());
    assert!(weak_mid.upgrade(&mut arena).is_none());
    assert!(weak_root.upgrade(&mut arena).is_none());
}

#[test]
fn dropping_a_child_prunes_the_outgoing_edges_on_access() {
    let mut arena = Arena::<&str, ()>::new();
    let root = RelRc::new(&mut arena, "root");
    let left = RelRc::with_parents(&mut arena, "left", vec![(&root, ())]);
    let right = RelRc::with_parents(&mut arena, "right", vec![(&root, ())]);

    assert_eq!(arena.get(&root).all_outgoing_weak().len(), 2);
    left.release(&mut arena);
    // The stored list still has the dead entry until the next access.
    assert_eq!(arena.get(&root).all_outgoing_weak().len(), 2);
    let live = root.all_children(&mut arena);
    assert_eq!(live.len(), 1);
    assert!(live[0].ptr_eq(&right.downgrade()));
    assert_eq!(arena.get(&root).all_outgoing_weak().len(), 1);
    // Asking again changes nothing.
    let again = root.all_children(&mut arena);
    assert_eq!(again.len(), 1);
    assert!(again[0].ptr_eq(&right.downgrade()));
}

#[test]
fn a_clone_is_one_more_handle() {
    let mut arena = Arena::<u8, ()>::new();
    let node = RelRc::new(&mut arena, 1);
    let other = node.clone_ref(&mut arena);
    assert!(node.ptr_eq(&other));
    assert_eq!(arena.get(&node).strong_count(), 2);
    let weak = node.downgrade();
    node.release(&mut arena);
    assert!(arena.contains(&other));
    other.release(&mut arena);
    assert!(weak.upgrade(&mut arena).is_none());
}

#[test]
fn a_weak_edge_upgrades_while_its_target_lives() {
    let mut arena = Arena::<&str, &str>::new();
    let root = RelRc::new(&mut arena, "root");
    let child = RelRc::with_parents(&mut arena, "child", vec![(&root, "edge")]);
    let weak = arena.get(&root).all_outgoing_weak()[0];
    let edge = weak.upgrade(&mut arena).unwrap();
    assert_eq!(edge.index(), 0);
    assert!(edge.target().ptr_eq(&child));
    let source = arena.get(edge.target()).incoming(0).unwrap().source().as_ptr();
    assert_eq!(source, root.as_ptr());
    let target = arena.get(&child).incoming(0).unwrap().target();
    let target = target.upgrade(&mut arena).unwrap();
    assert!(target.ptr_eq(&child));
    target.release(&mut arena);
    edge.into_target().release(&mut arena);
    child.release(&mut arena);
    assert!(weak.upgrade(&mut arena).is_none());
}

#[test]
fn equal_content_gives_equal_hash() {
    let mut arena = Arena::<(u32, u32), u32>::new();
    let a = RelRc::new(&mut arena, (1, 2));
    let b = RelRc::new(&mut arena, (1, 2));
    let c = RelRc::new(&mut arena, (1, 3));
    assert_eq!(a.hash_id(&arena), b.hash_id(&arena));
    assert_ne!(a.hash_id(&arena), c.hash_id(&arena));
    let x = RelRc::with_parents(&mut arena, (5, 5), vec![(&a, 9)]);
    let y = RelRc::with_parents(&mut arena, (5, 5), vec![(&b, 9)]);
    let z = RelRc::with_parents(&mut arena, (5, 5), vec![(&c, 9)]);
    let w = RelRc::with_parents(&mut arena, (5, 5), vec![(&a, 8)]);
    assert_eq!(x.hash_id(&arena), y.hash_id(&arena));
    assert_ne!(x.hash_id(&arena), z.hash_id(&arena));
    assert_ne!(x.hash_id(&arena), w.hash_id(&arena));
    // The content identity is the same in another arena.
    let mut other = Arena::<(u32, u32), u32>::new();
    let _pad = RelRc::new(&mut other, (0, 0));
    let a2 = RelRc::new(&mut other, (1, 2));
    let x2 = RelRc::with_parents(&mut other, (5, 5), vec![(&a2, 9)]);
    assert_eq!(x.hash_id(&arena), x2.hash_id(&other));
    assert_eq!(x.hash_id(&arena).bits(), x2.hash_id(&other).0);
}

#[test]
fn the_incoming_edges_as_weak_references_name_the_node_and_their_place() {
    let mut arena: Arena<&str, u8> = Arena::new();
    let a = RelRc::new(&mut arena, "a");
    let b = RelRc::new(&mut arena, "b");
    let child = RelRc::with_parents(&mut arena, "child", vec![(&a, 1), (&b, 2), (&a, 3)]);
    let weak = arena.get(&child).all_incoming_weak();
    assert_eq!(weak.len(), 3);
    for (k, w) in weak.iter().enumerate() {
        assert_eq!(w.index(), k);
        assert_eq!(w.target().as_ptr(), child.as_ptr());
    }
    assert!(weak[0].ptr_eq(&arena.get(&child).incoming_weak(0).unwrap()));
    assert!(!weak[0].ptr_eq(&weak[2]));
    assert!(arena.get(&child).incoming_weak(3).is_none());
}
