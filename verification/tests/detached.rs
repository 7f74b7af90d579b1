use relrc::detached::DetachedInnerData;
use relrc::{Arena, Detached, RelRc, RelRcHash};

#[test]
fn test_detach_and_attach_diamond() {
    // Create the first set of nodes forming a diamond pattern
    let mut arena1 = Arena::<&str, &str>::new();
    let root1 = RelRc::new(&mut arena1, "A");
    let left_child1 = RelRc::with_parents(&mut arena1, "B", vec![(&root1, "left")]);
    let right_child1 = RelRc::with_parents(&mut arena1, "C", vec![(&root1, "right")]);
    let grandchild1 = RelRc::with_parents(
        &mut arena1,
        "D",
        vec![(&left_child1, "left"), (&right_child1, "right")],
    );

    // Create the second set of nodes
    let mut arena2 = Arena::<&str, &str>::new();
    let root2 = RelRc::new(&mut arena2, "A");
    let left_child2 = RelRc::with_parents(&mut arena2, "B", vec![(&root2, "left")]);

    // Detach the grandchild from the first set
    let detach_from: Vec<RelRcHash> =
        vec![root1.hash_id(&arena1), left_child1.hash_id(&arena1)];

    let detached = grandchild1.detach(&arena1, &detach_from);
    assert_eq!(detached.n_ancestors(), 2);

    // Drop the grandchild to release the memory
    grandchild1.release(&mut arena1);
    assert_eq!(left_child1.all_children(&mut arena1).len(), 0);
    assert_eq!(right_child1.all_children(&mut arena1).len(), 0);

    // Attach the detached grandchild to the second set
    let attach_to = vec![root2.clone_ref(&mut arena2), left_child2.clone_ref(&mut arena2)];
    assert!(detached.attaches_to(&arena2, &attach_to));
    let grandchild2 = RelRc::attach(&mut arena2, detached.clone(), &attach_to);

    // Verify that the grandchild is now attached to the second set
    assert_eq!(arena2.get(&grandchild2).value(), &"D");
    let parent_values: Vec<&str> = arena2
        .get(&grandchild2)
        .all_parents()
        .iter()
        .map(|n| *arena2.get(n).value())
        .collect();
    assert_eq!(parent_values, vec!["B", "C"]);
    assert_eq!(root2.all_children(&mut arena2).len(), 2);

    // Verify that detaching grandchild2 yields the same detached object
    let detached2 = grandchild2.detach(
        &arena2,
        &vec![root2.hash_id(&arena2), left_child2.hash_id(&arena2)],
    );
    assert_eq!(detached, detached2);
}

#[test]
fn a_chain_survives_the_round_trip() {
    let mut arena = Arena::<u32, u32>::new();
    let a = RelRc::new(&mut arena, 1);
    let b = RelRc::with_parents(&mut arena, 2, vec![(&a, 10)]);
    let c = RelRc::with_parents(&mut arena, 3, vec![(&b, 20), (&a, 30)]);

    let detached = c.detach(&arena, &vec![]);
    assert_eq!(detached.n_ancestors(), 3);
    assert_eq!(detached.current_hash(), c.hash_id(&arena));
    assert!(detached.required_hashes().is_empty());

    let mut other = Arena::<u32, u32>::new();
    assert!(detached.attaches_to(&other, &vec![]));
    let c2 = RelRc::attach(&mut other, detached, &vec![]);
    assert_eq!(other.n_slots(), 3);
    assert_eq!(other.get(&c2).value(), &3);
    assert_eq!(other.get(&c2).strong_count(), 1);
    let edges: Vec<u32> = other.get(&c2).all_incoming().iter().map(|e| *e.value()).collect();
    assert_eq!(edges, vec![20, 30]);
    let b2 = other.get(&c2).parent(0).unwrap();
    let a2 = other.get(&c2).parent(1).unwrap();
    assert_eq!(other.get(b2).value(), &2);
    assert_eq!(other.get(a2).value(), &1);
    // The node for `a` is shared by the two edges that start at it.
    assert!(other.get(b2).parent(0).unwrap().ptr_eq(a2));
    assert_eq!(*other.get(b2).incoming(0).unwrap().value(), 10);
    // Only the attached node is held.
    assert_eq!(other.get(b2).strong_count(), 0);
    assert_eq!(other.get(a2).strong_count(), 0);
    assert_eq!(c2.hash_id(&other), c.hash_id(&arena));
}

#[test]
fn required_hashes_are_the_parents_without_a_record() {
    let mut arena = Arena::<u32, u32>::new();
    let a = RelRc::new(&mut arena, 1);
    let b = RelRc::new(&mut arena, 2);
    let c = RelRc::with_parents(&mut arena, 3, vec![(&a, 0), (&b, 0), (&a, 1)]);
    let d = RelRc::with_parents(&mut arena, 4, vec![(&c, 0), (&b, 0)]);

    let stop = vec![a.hash_id(&arena), b.hash_id(&arena)];
    let detached = d.detach(&arena, &stop);
    assert_eq!(detached.n_ancestors(), 2);
    let mut required = detached.required_hashes();
    required.sort();
    let mut expected = stop.clone();
    expected.sort();
    assert_eq!(required, expected);
    assert_eq!(
        detached.get(c.hash_id(&arena)).unwrap().parents(),
        vec![a.hash_id(&arena), b.hash_id(&arena), a.hash_id(&arena)]
    );
    assert!(detached.get(a.hash_id(&arena)).is_none());

    let only_a = vec![a.clone_ref(&mut arena)];
    assert!(!detached.attaches_to(&arena, &only_a));
    let both = vec![a.clone_ref(&mut arena), b.clone_ref(&mut arena)];
    assert!(detached.attaches_to(&arena, &both));
}

#[test]
fn attaching_to_a_node_with_the_same_content_makes_no_node() {
    let mut arena = Arena::<u32, u32>::new();
    let a = RelRc::new(&mut arena, 1);
    let b = RelRc::with_parents(&mut arena, 2, vec![(&a, 10)]);
    let detached = b.detach(&arena, &vec![]);

    let slots = arena.n_slots();
    let known = vec![b.clone_ref(&mut arena)];
    let again = RelRc::attach(&mut arena, detached, &known);
    assert!(again.ptr_eq(&b));
    assert_eq!(arena.n_slots(), slots);
    assert_eq!(arena.get(&b).strong_count(), 3);
}

#[test]
fn detaching_from_its_own_hash_holds_nothing() {
    let mut arena = Arena::<u32, u32>::new();
    let a = RelRc::new(&mut arena, 1);
    let detached = a.detach(&arena, &vec![a.hash_id(&arena)]);
    assert_eq!(detached.n_ancestors(), 0);
    assert!(detached.required_hashes().is_empty());
}

#[test]
fn a_detached_node_can_be_filled_record_by_record() {
    let mut detached = Detached::<u32, u32>::empty(RelRcHash(5));
    assert_eq!(detached.n_ancestors(), 0);
    detached.insert(
        RelRcHash(5),
        relrc::detached::DetachedInnerData::new(50, vec![(RelRcHash(4), 1), (RelRcHash(3), 2)]),
    );
    assert_eq!(detached.required_hashes(), vec![RelRcHash(4), RelRcHash(3)]);
    detached.insert(
        RelRcHash(4),
        relrc::detached::DetachedInnerData::new(40, vec![(RelRcHash(3), 3)]),
    );
    assert_eq!(detached.required_hashes(), vec![RelRcHash(3)]);
    assert_eq!(detached.n_ancestors(), 2);
    assert_eq!(detached.get(RelRcHash(4)).unwrap().value(), &40);
    assert_eq!(detached.get(RelRcHash(5)).unwrap().incoming(), &[(RelRcHash(4), 1), (RelRcHash(3), 2)]);
}

#[test]
fn a_cycle_among_records_that_are_not_needed_does_not_matter() {
    let mut detached = Detached::<u32, u32>::empty(RelRcHash(1));
    detached.insert(RelRcHash(1), DetachedInnerData::new(1, vec![(RelRcHash(2), 7)]));
    detached.insert(RelRcHash(2), DetachedInnerData::new(2, vec![]));
    // Two records that name each other, and that the node does not need.
    detached.insert(RelRcHash(8), DetachedInnerData::new(8, vec![(RelRcHash(9), 0)]));
    detached.insert(RelRcHash(9), DetachedInnerData::new(9, vec![(RelRcHash(8), 0)]));

    let mut arena = Arena::<u32, u32>::new();
    let nothing: Vec<RelRc> = vec![];
    assert!(!detached.is_well_founded());
    assert!(detached.attaches_to(&arena, &nothing));
    assert!(detached.can_attach(&arena, &nothing));
    let node = RelRc::try_attach(&mut arena, detached, &nothing).unwrap();
    assert_eq!(arena.n_slots(), 2);
    assert_eq!(arena.get(&node).value(), &1);
    assert_eq!(arena.get(&node).incoming(0).unwrap().value(), &7);
}

#[test]
fn a_cycle_behind_a_known_node_does_not_matter() {
    let mut arena = Arena::<u32, u32>::new();
    let parent = RelRc::new(&mut arena, 2);
    let known = parent.hash_id(&arena);

    // The record of the known node names the node itself as a parent.
    let mut detached = Detached::<u32, u32>::empty(RelRcHash(1));
    detached.insert(RelRcHash(1), DetachedInnerData::new(1, vec![(known, 7)]));
    detached.insert(known, DetachedInnerData::new(2, vec![(RelRcHash(1), 0)]));
    assert!(!detached.is_well_founded());

    let nothing: Vec<RelRc> = vec![];
    assert!(!detached.can_attach(&arena, &nothing));

    let attach_to = vec![parent.clone_ref(&mut arena)];
    assert!(detached.can_attach(&arena, &attach_to));
    let node = RelRc::try_attach(&mut arena, detached, &attach_to).unwrap();
    assert_eq!(arena.n_slots(), 2);
    assert!(arena.get(&node).parent(0).unwrap().ptr_eq(&parent));

    // A node that is known is returned whatever the records hold.
    let mut cyclic = Detached::<u32, u32>::empty(known);
    cyclic.insert(RelRcHash(5), DetachedInnerData::new(5, vec![(RelRcHash(5), 0)]));
    assert!(cyclic.can_attach(&arena, &attach_to));
    let again = RelRc::try_attach(&mut arena, cyclic, &attach_to).unwrap();
    assert!(again.ptr_eq(&parent));
    assert_eq!(arena.n_slots(), 2);
}

#[test]
fn a_known_node_is_returned_whatever_is_required() {
    let mut arena = Arena::<u32, u32>::new();
    let node = RelRc::new(&mut arena, 1);
    let other = RelRc::new(&mut arena, 2);
    let hash = node.hash_id(&arena);
    // A record that names a parent which nobody has.
    let mut detached = Detached::<u32, u32>::empty(hash);
    detached.insert(hash, DetachedInnerData::new(1, vec![(RelRcHash(12345), 0)]));
    let attach_to = vec![other.clone_ref(&mut arena), node.clone_ref(&mut arena)];
    assert!(!detached.attaches_to(&arena, &attach_to));
    assert!(detached.can_attach(&arena, &attach_to));
    let before_node = node.n_outgoing(&mut arena);
    let before_other = other.n_outgoing(&mut arena);
    let found = RelRc::try_attach(&mut arena, detached, &attach_to).unwrap();
    assert!(found.ptr_eq(&node));
    assert_eq!(arena.n_slots(), 2);
    assert_eq!(node.n_outgoing(&mut arena), before_node);
    assert_eq!(other.n_outgoing(&mut arena), before_other);
}
