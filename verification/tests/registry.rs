use relrc::{Arena, Registry, RelRc};

#[test]
fn test_register_and_get() {
    let mut arena = Arena::<&str, ()>::new();
    let registry = Registry::new(&mut arena);
    let node = RelRc::new(&mut arena, "test");

    let id = registry.add_node(&mut arena, &node);
    let retrieved = registry.get(&mut arena, id).unwrap();

    assert!(RelRc::ptr_eq(&node, &retrieved));
}

#[test]
fn test_duplicate_registration() {
    let mut arena = Arena::<&str, ()>::new();
    let registry = Registry::new(&mut arena);
    let node = RelRc::new(&mut arena, "test");

    let id1 = registry.add_node(&mut arena, &node);
    let id2 = registry.add_node(&mut arena, &node);

    assert_eq!(id1, id2);
}

#[test]
fn test_get_id() {
    let mut arena = Arena::<&str, ()>::new();
    let registry = Registry::new(&mut arena);
    let node = RelRc::new(&mut arena, "test");

    assert_eq!(registry.get_id(&arena, &node), None);

    let id = registry.add_node(&mut arena, &node);
    assert_eq!(registry.get_id(&arena, &node), Some(id));
}

#[test]
fn a_node_is_tracked_by_one_registry() {
    let mut arena = Arena::<&str, ()>::new();
    let first = Registry::new(&mut arena);
    let second = Registry::new(&mut arena);
    assert!(!first.ptr_eq(&second));
    let node = RelRc::new(&mut arena, "test");

    assert!(node.registry(&arena).is_none());
    let id = node.try_register_in(&mut arena, &first).unwrap();
    assert_eq!(node.registry(&arena), Some(first));
    assert_eq!(node.try_register_in(&mut arena, &second), None);
    assert_eq!(node.try_register_in(&mut arena, &first), Some(id));
    assert_eq!(first.len(&arena), 1);
    assert!(second.is_empty(&arena));
}

#[test]
fn a_destroyed_ancestor_leaves_its_registry() {
    let mut arena = Arena::<&str, ()>::new();
    let registry = Registry::new(&mut arena);
    let root = RelRc::new(&mut arena, "root");
    let child = RelRc::with_parents(&mut arena, "child", vec![(&root, ())]);
    let root_id = root.try_register_in(&mut arena, &registry).unwrap();
    let child_id = child.try_register_in(&mut arena, &registry).unwrap();
    assert_ne!(root_id, child_id);

    root.release(&mut arena);
    assert_eq!(registry.len(&arena), 2);
    assert!(registry.contains_id(&arena, root_id));
    child.release(&mut arena);
    assert_eq!(registry.len(&arena), 0);
    assert!(!registry.contains_id(&arena, root_id));
    assert!(!registry.contains_id(&arena, child_id));
}

#[test]
fn free_node_ids_prunes_the_entries_of_dead_nodes() {
    let mut arena = Arena::<u32, ()>::new();
    let registry = Registry::new(&mut arena);
    let kept = RelRc::new(&mut arena, 1);
    let dropped = RelRc::new(&mut arena, 2);
    let kept_id = registry.add_node(&mut arena, &kept);
    let dropped_id = registry.get_id_or_insert(&mut arena, &dropped);
    assert!(registry.contains(&arena, &dropped));
    assert!(registry.has_room(&arena));

    // A node that was only added stays in the registry when it is destroyed.
    dropped.release(&mut arena);
    assert_eq!(registry.len(&arena), 2);
    assert!(!registry.contains_id(&arena, dropped_id));
    assert_eq!(registry.free_node_ids(&mut arena), 1);
    assert_eq!(registry.len(&arena), 1);
    assert_eq!(registry.live_count(&mut arena), 1);
    assert!(registry.contains_id(&arena, kept_id));

    registry.remove(&mut arena, kept_id);
    assert!(registry.is_empty(&arena));
    assert_eq!(registry.get_id(&arena, &kept), None);
}

#[test]
fn a_registry_from_nodes_holds_each_of_them_once() {
    let mut arena: Arena<&str, ()> = Arena::new();
    let a = RelRc::new(&mut arena, "a");
    let b = RelRc::new(&mut arena, "b");
    let c = RelRc::new(&mut arena, "c");
    let registry = Registry::from_iter(&mut arena, &vec![&a, &b, &a]);
    assert_eq!(registry.len(&arena), 2);
    assert!(registry.contains(&arena, &a));
    assert!(registry.contains(&arena, &b));
    assert!(!registry.contains(&arena, &c));
    let id_a = registry.get_id(&arena, &a).unwrap();
    let id_b = registry.get_id(&arena, &b).unwrap();
    assert!(!id_a.same(&id_b));
    let found = registry.get(&mut arena, id_b).unwrap();
    assert!(found.ptr_eq(&b));
}
