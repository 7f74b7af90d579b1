use relrc::detached::DetachedInnerData;
use relrc::serialization::{SerializedInnerData, SerializedRegistry, SerializedRelRc};
use relrc::{Arena, Detached, Registry, RelRc, RelRcHash};

#[test]
fn test_relrc_serialization() {
    // Create a simple node
    let mut arena = Arena::<i32, ()>::new();
    let node = RelRc::new(&mut arena, 42);
    let serialized = node.to_serialized(&arena);

    let mut there = Arena::<i32, ()>::new();
    let deser = RelRc::from_serialized(&mut there, serialized).unwrap();
    assert_eq!(there.get(&deser).value(), &42);
    assert_eq!(there.get(&deser).all_parents().len(), 0);
    assert_eq!(deser.all_ancestors(&there).len(), 1);
}

#[test]
fn test_relrc_with_parents_serialization() {
    // Create a chain of nodes: parent -> child -> grandchild
    let mut arena = Arena::<&str, &str>::new();
    let parent = RelRc::new(&mut arena, "parent");
    let child = RelRc::with_parents(&mut arena, "child", vec![(&parent, "edge_to_child")]);
    let grandchild =
        RelRc::with_parents(&mut arena, "grandchild", vec![(&child, "edge_to_grandchild")]);

    let serialized = grandchild.to_serialized(&arena);

    let mut there = Arena::<&str, &str>::new();
    let deser = RelRc::from_serialized(&mut there, serialized).unwrap();
    assert_eq!(there.get(&deser).value(), &"grandchild");
    let parents: Vec<_> = there
        .get(&deser)
        .all_parents()
        .into_iter()
        .map(|n| *there.get(n).value())
        .collect();
    assert_eq!(parents, vec!["child"]);
    assert_eq!(deser.all_ancestors(&there).len(), 3);
}

#[test]
fn test_relrc_with_multiple_parents_serialization() {
    // Create a diamond pattern: parent1, parent2 -> child
    let mut arena = Arena::<&str, &str>::new();
    let parent1 = RelRc::new(&mut arena, "parent1");
    let parent2 = RelRc::new(&mut arena, "parent2");
    let child = RelRc::with_parents(
        &mut arena,
        "child",
        vec![(&parent1, "edge_from_parent1"), (&parent2, "edge_from_parent2")],
    );
    let sibling = RelRc::with_parents(&mut arena, "sibling", vec![(&parent1, "edge_from_parent1")]);

    let registry = Registry::from_iter(&mut arena, &vec![&parent1, &parent2, &sibling, &child]);
    assert_eq!(registry.len(&arena), 4);

    let serialized = child.to_serialized(&arena);

    assert_eq!(serialized.ancestors_graph.nodes.len(), 3);

    let mut there = Arena::<&str, &str>::new();
    let deser = RelRc::from_serialized(&mut there, serialized).unwrap();
    assert_eq!(there.get(&deser).value(), &"child");
    let parents: Vec<_> = there
        .get(&deser)
        .all_parents()
        .into_iter()
        .map(|n| *there.get(n).value())
        .collect();
    assert_eq!(parents, vec!["parent1", "parent2"]);
    assert_eq!(deser.all_children(&mut there).len(), 0);
    assert_eq!(deser.all_ancestors(&there).len(), 3);
}

#[test]
fn the_plain_form_is_the_detached_node_in_plain_values() {
    let mut arena = Arena::<u32, u32>::new();
    let root = RelRc::new(&mut arena, 1);
    let leaf = RelRc::with_parents(&mut arena, 2, vec![(&root, 7), (&root, 8)]);
    let serialized = leaf.to_serialized(&arena);
    assert!(serialized.is_fit());
    assert_eq!(serialized.id, leaf.hash_id(&arena).0 as u64);
    let mut ids = serialized.ancestors_graph.nodes.clone();
    ids.sort();
    let mut expected = vec![root.hash_id(&arena).0 as u64, leaf.hash_id(&arena).0 as u64];
    expected.sort();
    assert_eq!(ids, expected);
    let record = serialized
        .ancestors_graph
        .registry
        .nodes
        .iter()
        .find(|(id, _)| *id == serialized.id)
        .unwrap();
    assert_eq!(record.1.value, 2);
    let root_id = root.hash_id(&arena).0 as u64;
    assert_eq!(record.1.incoming, vec![(root_id, 7), (root_id, 8)]);

    // There and back.
    let detached = serialized.clone().into_detached().unwrap();
    assert_eq!(detached, leaf.detach(&arena, &vec![]));
    assert_eq!(SerializedRelRc::from_detached(detached).id, serialized.id);
}

#[test]
fn a_plain_form_that_names_an_unknown_parent_makes_nothing() {
    let data = SerializedInnerData { value: 1u32, incoming: vec![(99u64, 5u32)] };
    let mut detached = Detached::<u32, u32>::empty(RelRcHash(3));
    detached.insert(RelRcHash(3), data.clone().into_detached());
    let serialized = SerializedRelRc::from_detached(detached);
    assert_eq!(serialized.ancestors_graph.registry.nodes, vec![(3u64, data)]);

    let mut arena = Arena::<u32, u32>::new();
    assert!(RelRc::from_serialized(&mut arena, serialized.clone()).is_none());
    assert_eq!(arena.n_slots(), 0);

    // With the parent in the plain form, the node and its parent are made,
    // the parent first, whatever the order of the records.
    let mut with_parent = serialized;
    with_parent.ancestors_graph.nodes.push(99);
    with_parent
        .ancestors_graph
        .registry
        .nodes
        .push((99, SerializedInnerData { value: 0, incoming: vec![] }));
    let node = RelRc::from_serialized(&mut arena, with_parent.clone()).unwrap();
    assert_eq!(arena.n_slots(), 2);
    assert_eq!(arena.get(&node).value(), &1);
    let parent = arena.get(&node).parent(0).unwrap();
    assert_eq!(arena.get(parent).value(), &0);
    assert!(parent.as_ptr() < node.as_ptr());

    // A plain form without the node itself, or with a node that is its own
    // ancestor, makes nothing.
    let mut other = with_parent.clone();
    other.id = 4;
    assert!(RelRc::from_serialized(&mut arena, other).is_none());
    let mut cyclic = with_parent;
    cyclic.ancestors_graph.registry.nodes[1].1.incoming.push((3, 0));
    assert!(RelRc::from_serialized(&mut arena, cyclic).is_none());
    assert_eq!(arena.n_slots(), 2);
}

#[test]
fn values_of_plain_forms_are_mapped() {
    let data = SerializedInnerData { value: 20u32, incoming: vec![(1u64, 'a'), (2u64, 'b')] };
    let mapped = data.clone().map_value(|v| v.to_string());
    assert_eq!(mapped.value, "20");
    assert_eq!(mapped.incoming, data.incoming);

    let table = SerializedRegistry {
        nodes: vec![(5u64, data.clone()), (6u64, SerializedInnerData { value: 3, incoming: vec![] })],
    };
    let doubled = table.map_nodes(|v| u64::from(v) * 2);
    assert_eq!(doubled.nodes.len(), 2);
    assert_eq!(doubled.nodes[0].0, 5);
    assert_eq!(doubled.nodes[0].1.value, 40);
    assert_eq!(doubled.nodes[0].1.incoming, data.incoming);
    assert_eq!(doubled.nodes[1], (6, SerializedInnerData { value: 6u64, incoming: vec![] }));
    let inner: DetachedInnerData<u32, char> = data.into_detached();
    assert_eq!(inner.parents(), vec![RelRcHash(1), RelRcHash(2)]);
}

#[test]
fn nodes_in_plain_form_are_made_parents_first_in_any_order() {
    // The child stands before its parents in the table.
    let table = SerializedRegistry {
        nodes: vec![
            (3u64, SerializedInnerData { value: "child", incoming: vec![(1u64, 'a'), (2u64, 'b')] }),
            (2u64, SerializedInnerData { value: "right", incoming: vec![(1u64, 'c')] }),
            (1u64, SerializedInnerData { value: "root", incoming: vec![] }),
        ],
    };
    let mut arena = Arena::<&str, char>::new();
    let made = relrc::serialization::deserialize_nodes(&mut arena, table.clone()).unwrap();
    assert_eq!(made.len(), 3);
    assert_eq!(arena.n_slots(), 3);
    let mut ids: Vec<u64> = made.iter().map(|(id, _)| *id).collect();
    ids.sort();
    assert_eq!(ids, vec![1, 2, 3]);
    let of = |id: u64| &made.iter().find(|(x, _)| *x == id).unwrap().1;
    assert_eq!(arena.get(of(3)).value(), &"child");
    assert!(arena.get(of(3)).parent(0).unwrap().ptr_eq(of(1)));
    assert!(arena.get(of(3)).parent(1).unwrap().ptr_eq(of(2)));
    assert!(arena.get(of(2)).parent(0).unwrap().ptr_eq(of(1)));
    assert_eq!(arena.get(of(3)).incoming(1).unwrap().value(), &'b');
    assert!(of(1).as_ptr() < of(2).as_ptr() && of(2).as_ptr() < of(3).as_ptr());
    for (_, node) in &made {
        assert_eq!(arena.get(node).strong_count(), 1);
    }

    // An unknown parent, or a node that is its own ancestor: nothing is made.
    let mut open = table.clone();
    open.nodes.pop();
    assert!(relrc::serialization::deserialize_nodes(&mut arena, open).is_none());
    let mut cyclic = table;
    cyclic.nodes[2].1.incoming.push((3, 'z'));
    assert!(relrc::serialization::deserialize_nodes(&mut arena, cyclic).is_none());
    assert_eq!(arena.n_slots(), 3);
}

#[test]
fn a_registry_goes_to_plain_form_and_back() {
    let mut arena = Arena::<u32, u32>::new();
    let root = RelRc::new(&mut arena, 1);
    let child = RelRc::with_parents(&mut arena, 2, vec![(&root, 9)]);
    let untracked = RelRc::new(&mut arena, 3);
    let registry = Registry::from_iter(&mut arena, &vec![&root, &child]);
    let plain = registry.to_serialized(&arena);
    assert_eq!(plain.nodes.len(), 2);
    let root_id = root.hash_id(&arena).0 as u64;
    let child_id = child.hash_id(&arena).0 as u64;
    let record = &plain.nodes.iter().find(|(id, _)| *id == child_id).unwrap().1;
    assert_eq!(record.value, 2);
    assert_eq!(record.incoming, vec![(root_id, 9)]);
    assert!(plain.nodes.iter().all(|(id, _)| *id != untracked.hash_id(&arena).0 as u64));

    let mut there = Arena::<u32, u32>::new();
    let (restored, made) = Registry::from_serialized(&mut there, plain).unwrap();
    assert_eq!(made.len(), 2);
    assert_eq!(restored.len(&there), 2);
    for (id, node) in &made {
        assert!(restored.contains(&there, node));
        assert_eq!(node.hash_id(&there).0 as u64, *id);
    }

    // A tracked node whose parent is not tracked cannot be made again.
    let partial = Registry::from_iter(&mut arena, &vec![&child]);
    let plain = partial.to_serialized(&arena);
    assert_eq!(plain.nodes.len(), 1);
    assert!(Registry::from_serialized(&mut there, plain).is_none());
    assert_eq!(there.n_slots(), 2);
}

/// A resolver under which no two nodes are equivalent.
#[derive(Debug, Clone, Copy)]
struct Distinct;

impl relrc::EquivalenceResolver<&'static str, &'static str> for Distinct {
    type MergeMapping = ();

    fn id(&self) -> String {
        "distinct".to_string()
    }

    fn dedup_key(&self, value: &&'static str, _incoming_edges: &[&&'static str]) -> u64 {
        value.len() as u64
    }

    fn try_merge_mapping(
        &self,
        _a_value: &&'static str,
        _a_incoming_edges: &[&&'static str],
        _b_value: &&'static str,
        _b_incoming_edges: &[&&'static str],
    ) -> Result<Self::MergeMapping, relrc::NotEquivalent> {
        Err(relrc::NotEquivalent)
    }

    fn move_edge_source(&self, _mapping: &Self::MergeMapping, edge: &&'static str) -> &'static str {
        *edge
    }
}

#[test]
fn serialization_test_history_graph_serialization() {
    // Create a graph with multiple nodes
    let mut arena = Arena::<&'static str, &'static str>::new();
    let root1 = RelRc::new(&mut arena, "root1");
    let root2 = RelRc::new(&mut arena, "root2");
    let child1 = RelRc::with_parents(&mut arena, "child1", vec![(&root1, "edge1")]);
    let child2 =
        RelRc::with_parents(&mut arena, "child2", vec![(&root1, "edge2"), (&root2, "edge3")]);

    let nodes = vec![child1.clone_ref(&mut arena), child2.clone_ref(&mut arena)];
    let graph = relrc::HistoryGraph::from_nodes(&mut arena, Distinct, &nodes);
    let serialized = graph.to_serialized(&arena);

    let mut there = Arena::<&'static str, &'static str>::new();
    let (deser, made) =
        relrc::HistoryGraph::from_serialized(&mut there, Distinct, serialized).unwrap();

    // A graph holds the ancestors of its nodes: the two children and the two
    // roots.
    let id_of = |node: &RelRc, arena: &Arena<&'static str, &'static str>| {
        let id = node.hash_id(arena).0 as u64;
        let made_node = &made.iter().find(|(x, _)| *x == id).unwrap().1;
        deser.get_node_id(made_node).unwrap()
    };
    let ids = deser.all_node_ids();
    assert!(ids.contains(&id_of(&child1, &arena)));
    assert!(ids.contains(&id_of(&child2, &arena)));
    assert_eq!(ids.len(), 4);
    assert_eq!(made.len(), 4);

    let nodes = vec![child1.clone_ref(&mut arena)];
    let graph = relrc::HistoryGraph::from_nodes(&mut arena, Distinct, &nodes);
    let serialized = graph.to_serialized(&arena);

    let mut there = Arena::<&'static str, &'static str>::new();
    let (deser, made) =
        relrc::HistoryGraph::from_serialized(&mut there, Distinct, serialized).unwrap();
    let id = child1.hash_id(&arena).0 as u64;
    let made_child = &made.iter().find(|(x, _)| *x == id).unwrap().1;
    assert!(deser.all_node_ids().contains(&deser.get_node_id(made_child).unwrap()));
    assert_eq!(deser.n_nodes(), 2);
    assert_eq!(made.len(), 2);
}
