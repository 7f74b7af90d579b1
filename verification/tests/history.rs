use relrc::history::{EdgeId, HistoryGraph};
use std::collections::BTreeSet;
use relrc::{Arena, EquivalenceResolver, NotEquivalent, RelRc};

/// Two nodes are equivalent if the first elements of their values are the
/// same. Every outgoing edge has the second element of its source as value.
#[derive(Debug, Copy, Clone, Default)]
struct FirstElement;

impl EquivalenceResolver<(usize, usize), usize> for FirstElement {
    type MergeMapping = usize;

    fn id(&self) -> String {
        "test_resolver".to_string()
    }

    fn dedup_key(&self, value: &(usize, usize), _incoming_edges: &[&usize]) -> u64 {
        value.0 as u64
    }

    fn try_merge_mapping(
        &self,
        a_value: &(usize, usize),
        _a_incoming_edges: &[&usize],
        b_value: &(usize, usize),
        _b_incoming_edges: &[&usize],
    ) -> Result<Self::MergeMapping, NotEquivalent> {
        if a_value.0 == b_value.0 {
            Ok(b_value.1)
        } else {
            Err(NotEquivalent)
        }
    }

    fn move_edge_source(&self, mapping: &Self::MergeMapping, _edge: &usize) -> usize {
        *mapping
    }
}

#[test]
fn test_history_graph() {
    let mut arena = Arena::<(usize, usize), usize>::new();
    // Create first family tree
    let grandparent = RelRc::new(&mut arena, (1, 10)); // First element 1 for equivalence
    let parent = RelRc::with_parents(&mut arena, (1, 20), vec![(&grandparent, 10)]);
    let child1 = RelRc::with_parents(&mut arena, (2, 30), vec![(&parent, 20)]);

    let child2 = RelRc::with_parents(&mut arena, (3, 35), vec![(&parent, 25)]);
    assert_eq!(arena.get(&child2).incoming(0).unwrap().value(), &25);

    // Create history graph with first family
    let mut graph = HistoryGraph::new(FirstElement);
    let child1_id = graph.insert_ancestors(&mut arena, &child1);

    // Verify first family was added correctly
    let node_ids: Vec<_> = graph.all_node_ids();
    assert_eq!(
        node_ids.len(),
        3,
        "Should have 3 nodes after adding first family"
    );

    // Check parent-child relationships in graph
    let parent_id = graph
        .source(
            &arena,
            EdgeId {
                target: child1_id,
                index: 0,
            },
        )
        .unwrap();
    let grandparent_id = graph
        .source(
            &arena,
            EdgeId {
                target: parent_id,
                index: 0,
            },
        )
        .unwrap();
    let out_grandparent = graph.outgoing_edges(&arena, grandparent_id);
    assert_eq!(out_grandparent.len(), 1);
    assert_eq!(out_grandparent[0].target, parent_id);
    let out_parent = graph.outgoing_edges(&arena, parent_id);
    assert_eq!(out_parent.len(), 1);
    assert_eq!(out_parent[0].target, child1_id);

    // Add second family
    let child2_id = graph.insert_ancestors(&mut arena, &child2);

    // Verify only one new node was added (child2)
    let mut node_ids: Vec<_> = graph.all_node_ids();
    node_ids.sort();
    assert_eq!(
        node_ids.len(),
        4,
        "Should have 4 nodes after adding second family"
    );
    let mut expected = vec![grandparent_id, parent_id, child1_id, child2_id];
    expected.sort();
    assert_eq!(node_ids, expected);
}

#[test]
fn equivalent_parents_are_merged_and_the_edge_is_moved() {
    let mut arena = Arena::<(usize, usize), usize>::new();
    let parent1 = RelRc::new(&mut arena, (1, 20));
    let child1 = RelRc::with_parents(&mut arena, (2, 30), vec![(&parent1, 20)]);
    let parent2 = RelRc::new(&mut arena, (1, 25));
    let child2 = RelRc::with_parents(&mut arena, (3, 35), vec![(&parent2, 25)]);

    let mut graph = HistoryGraph::new(FirstElement);
    let first = graph.insert_node(&mut arena, &child1);
    assert!(first.mapping.is_none());
    assert_eq!(first.ptr, child1.as_ptr());
    assert_eq!(graph.n_nodes(), 2);
    let parent1_id = graph.get_node_id(&parent1).unwrap();

    // The second parent is equivalent to the first: it is not added.
    let merged = graph.insert_node(&mut arena, &parent2);
    assert_eq!(merged.id, parent1_id);
    assert_eq!(merged.ptr, parent1.as_ptr());
    assert_eq!(merged.mapping, Some(20));
    assert_eq!(graph.n_nodes(), 2);
    assert!(!graph.contains(&parent2));

    // The second child is new: a copy of it is added, on the canonical parent.
    let slots = arena.n_slots();
    let second = graph.insert_node(&mut arena, &child2);
    assert_eq!(graph.n_nodes(), 3);
    assert_eq!(arena.n_slots(), slots + 1);
    assert!(second.mapping.is_none());
    assert_ne!(second.ptr, child2.as_ptr());
    let copy = graph.get_node(second.id).unwrap();
    assert_eq!(copy.as_ptr(), second.ptr);
    assert_eq!(arena.get(copy).value(), &(3, 35));
    let edge = arena.get(copy).incoming(0).unwrap();
    assert_eq!(edge.value(), &20);
    assert!(edge.source().ptr_eq(&parent1));
    // The node that was inserted is as it was.
    assert_eq!(arena.get(&child2).incoming(0).unwrap().value(), &25);
    assert_eq!(graph.parents(&arena, second.id), vec![parent1_id]);
    let mut children = graph.children(&arena, parent1_id);
    children.sort();
    let mut expected = vec![first.id, second.id];
    expected.sort();
    assert_eq!(children, expected);
}

#[test]
fn inserting_twice_changes_nothing() {
    let mut arena = Arena::<(usize, usize), usize>::new();
    let a = RelRc::new(&mut arena, (1, 1));
    let b = RelRc::with_parents(&mut arena, (2, 2), vec![(&a, 1)]);
    let c = RelRc::with_parents(&mut arena, (3, 3), vec![(&b, 2), (&a, 1)]);

    let mut graph = HistoryGraph::new(FirstElement);
    let first = graph.insert_node(&mut arena, &c);
    let ids = graph.all_node_ids();
    let slots = arena.n_slots();
    let count = arena.get(&c).strong_count();
    let second = graph.insert_node(&mut arena, &c);
    assert_eq!(first.id, second.id);
    assert_eq!(first.ptr, second.ptr);
    assert_eq!(graph.all_node_ids(), ids);
    assert_eq!(arena.n_slots(), slots);
    assert_eq!(arena.get(&c).strong_count(), count);

    // The same chain, built again, gives the same identifiers.
    let a2 = RelRc::new(&mut arena, (1, 1));
    let b2 = RelRc::with_parents(&mut arena, (2, 2), vec![(&a2, 1)]);
    let c2 = RelRc::with_parents(&mut arena, (3, 3), vec![(&b2, 2), (&a2, 1)]);
    let slots = arena.n_slots();
    let third = graph.insert_node(&mut arena, &c2);
    assert_eq!(third.id, first.id);
    assert_eq!(graph.n_nodes(), 3);
    assert_eq!(arena.n_slots(), slots);
}

#[test]
fn edges_and_nodes_are_found_by_their_identifiers() {
    let mut arena = Arena::<(usize, usize), usize>::new();
    let a = RelRc::new(&mut arena, (1, 1));
    let b = RelRc::with_parents(&mut arena, (2, 2), vec![(&a, 7)]);
    let nodes = vec![b.clone_ref(&mut arena)];
    let graph = HistoryGraph::from_nodes(&mut arena, FirstElement, &nodes);
    assert_eq!(graph.resolver().id(), "test_resolver");
    assert!(graph.check_resolver(&FirstElement).is_ok());

    let b_id = graph.get_node_id(&b).unwrap();
    let a_id = graph.get_node_id(&a).unwrap();
    assert!(graph.contains_id(b_id));
    assert!(graph.contains(&a));
    let edge = EdgeId { target: b_id, index: 0 };
    assert!(graph.contains_edge(&arena, edge));
    assert_eq!(graph.get_edge(&arena, edge).unwrap().value(), &7);
    assert_eq!(graph.source(&arena, edge), Some(a_id));
    assert_eq!(graph.target(&arena, edge), Some(b_id));
    assert_eq!(graph.incoming_edges(&arena, b_id), vec![edge]);
    assert!(graph.incoming_edges(&arena, a_id).is_empty());
    let missing = EdgeId { target: b_id, index: 1 };
    assert!(!graph.contains_edge(&arena, missing));
    assert_eq!(graph.source(&arena, missing), None);
    assert_eq!(graph.target(&arena, missing), None);
    let unknown = relrc::history::NodeId { hash: b_id.hash, index: 5 };
    assert!(!graph.contains_id(unknown));
    assert!(graph.get_node(unknown).is_none());
    assert!(graph.parents(&arena, unknown).is_empty());
}

#[test]
fn releasing_the_graph_gives_its_handles_back() {
    let mut arena: Arena<(usize, usize), usize> = Arena::new();
    let parent = RelRc::new(&mut arena, (1, 20));
    let child = RelRc::with_parents(&mut arena, (2, 30), vec![(&parent, 5)]);
    let mut graph = HistoryGraph::new(FirstElement);
    graph.insert_node(&mut arena, &child);
    assert_eq!(graph.n_nodes(), 2);
    assert_eq!(arena.get(&child).strong_count(), 2);
    assert_eq!(arena.get(&parent).strong_count(), 2);

    let weak_child = child.downgrade();
    let weak_parent = parent.downgrade();
    child.release(&mut arena);
    parent.release(&mut arena);
    // The graph keeps its nodes alive.
    let again = weak_child.upgrade(&mut arena).unwrap();
    assert_eq!(arena.get(&again).strong_count(), 2);
    again.release(&mut arena);

    graph.release(&mut arena);
    assert!(weak_child.upgrade(&mut arena).is_none());
    assert!(weak_parent.upgrade(&mut arena).is_none());
}

/// A resolver with a given identifier, under which no two nodes are
/// equivalent.
#[derive(Debug, Clone)]
struct Named(&'static str);

impl EquivalenceResolver<(usize, usize), usize> for Named {
    type MergeMapping = ();

    fn id(&self) -> String {
        self.0.to_string()
    }

    fn dedup_key(&self, value: &(usize, usize), _incoming_edges: &[&usize]) -> u64 {
        value.0 as u64
    }

    fn try_merge_mapping(
        &self,
        _a_value: &(usize, usize),
        _a_incoming_edges: &[&usize],
        _b_value: &(usize, usize),
        _b_incoming_edges: &[&usize],
    ) -> Result<Self::MergeMapping, NotEquivalent> {
        Err(NotEquivalent)
    }

    fn move_edge_source(&self, _mapping: &Self::MergeMapping, edge: &usize) -> usize {
        *edge
    }
}

#[test]
fn a_graph_is_checked_against_the_identifier_of_a_resolver() {
    let graph = HistoryGraph::new(Named("first"));
    assert_eq!(graph.check_resolver::<(usize, usize), usize>(&Named("first")), Ok(()));
    assert_eq!(
        graph.check_resolver::<(usize, usize), usize>(&Named("second")),
        Err(relrc::InvalidResolver("second".to_string(), "first".to_string()))
    );
}

#[test]
fn without_equivalent_nodes_every_node_becomes_canonical_itself() {
    let mut arena = Arena::<(usize, usize), usize>::new();
    let a = RelRc::new(&mut arena, (1, 10));
    let b = RelRc::new(&mut arena, (1, 20));
    let child = RelRc::with_parents(&mut arena, (2, 30), vec![(&a, 1), (&b, 2)]);
    let mut graph = HistoryGraph::new(Named("none"));
    let found = graph.insert_node(&mut arena, &child);
    // The node is its own canonical node, and so are its parents, which
    // share a bucket: nothing was copied.
    assert_eq!(found.ptr, child.as_ptr());
    assert!(found.mapping.is_none());
    assert_eq!(arena.n_slots(), 3);
    assert_eq!(graph.n_nodes(), 3);
    let id_a = graph.get_node_id(&a).unwrap();
    let id_b = graph.get_node_id(&b).unwrap();
    assert_eq!(id_a.hash, id_b.hash);
    assert_eq!((id_a.index, id_b.index), (0, 1));
    assert_eq!(graph.parents(&arena, found.id), vec![id_a, id_b]);
    // Inserting again changes nothing.
    let again = graph.insert_node(&mut arena, &child);
    assert_eq!(again.id, found.id);
    assert_eq!(graph.n_nodes(), 3);
    assert_eq!(arena.get(&child).strong_count(), 2);
    graph.release(&mut arena);
    assert_eq!(arena.get(&child).strong_count(), 1);
}

#[test]
fn history_test_history_graph_serialization() {
    let mut arena = Arena::<(usize, usize), usize>::new();
    // Create first family tree
    let grandparent1 = RelRc::new(&mut arena, (1, 10)); // First element 1 for equivalence
    let parent1 = RelRc::with_parents(&mut arena, (1, 20), vec![(&grandparent1, 10)]);
    let child1 = RelRc::with_parents(&mut arena, (2, 30), vec![(&parent1, 20)]);

    // Create second family tree with equivalent parents but distinct child
    let grandparent2 = RelRc::new(&mut arena, (1, 15)); // First element 1 for equivalence
    let parent2 = RelRc::with_parents(&mut arena, (1, 25), vec![(&grandparent2, 15)]);
    let child2 = RelRc::with_parents(&mut arena, (3, 35), vec![(&parent2, 25)]);
    assert_eq!(arena.get(&child2).incoming(0).unwrap().value(), &25);

    // Create history graph with first family
    let mut graph = HistoryGraph::new(FirstElement);
    graph.insert_ancestors(&mut arena, &child1);
    graph.insert_ancestors(&mut arena, &child2);

    let serialized = graph.to_serialized(&arena);
    assert_eq!(serialized.nodes.len(), 4);
    assert_eq!(serialized.registry.nodes.len(), 4);

    let mut there = Arena::<(usize, usize), usize>::new();
    let (deserialized, made) =
        HistoryGraph::from_serialized(&mut there, FirstElement, serialized).unwrap();
    assert_eq!(made.len(), 4);

    assert_eq!(
        graph.all_node_ids().into_iter().collect::<BTreeSet<_>>(),
        deserialized.all_node_ids().into_iter().collect::<BTreeSet<_>>()
    );
}

#[test]
fn a_graph_in_plain_form_must_hold_its_nodes() {
    let mut arena = Arena::<(usize, usize), usize>::new();
    let root = RelRc::new(&mut arena, (1, 10));
    let child = RelRc::with_parents(&mut arena, (2, 30), vec![(&root, 10)]);
    let mut graph = HistoryGraph::new(FirstElement);
    graph.insert_node(&mut arena, &child);
    let serialized = graph.to_serialized(&arena);

    let mut wrong = serialized.clone();
    wrong.nodes.push(77);
    let mut there = Arena::<(usize, usize), usize>::new();
    assert!(HistoryGraph::from_serialized(&mut there, FirstElement, wrong).is_none());
    assert_eq!(there.n_slots(), 0);

    // A graph of the child alone: its parent is made and inserted with it.
    let mut only_child = serialized;
    let child_id = child.hash_id(&arena).0 as u64;
    only_child.nodes.retain(|id| *id == child_id);
    let (restored, made) =
        HistoryGraph::from_serialized(&mut there, FirstElement, only_child).unwrap();
    assert_eq!(made.len(), 2);
    assert_eq!(restored.n_nodes(), 2);
    let node = &made.iter().find(|(id, _)| *id == child_id).unwrap().1;
    assert!(restored.contains(node));
    assert_eq!(there.get(node).value(), &(2, 30));
}
