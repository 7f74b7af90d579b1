use relrc::ancestor_graph::AncestorGraph;
use relrc::graph_view::serialization::{
    GraphDeserializationError, RelRcGraphSerializer, SerializeEdgeData, SerializeNodeData,
    SerializeNodeId,
};
use relrc::graph_view::{merge_sorted_vecs_by_key, EdgeId, NodeId, RelRcGraph};
use relrc::{Arena, RelRc};

/// A diamond: root -> left, root -> right, {left, right} -> grandchild.
fn diamond(arena: &mut Arena<String, u32>) -> (RelRc, RelRc, RelRc, RelRc) {
    let root = RelRc::new(arena, "Root".to_string());
    let child1 = RelRc::with_parents(arena, "Child 1".to_string(), vec![(&root, 1)]);
    let child2 = RelRc::with_parents(arena, "Child 2".to_string(), vec![(&root, 2)]);
    let grandchild = RelRc::with_parents(
        arena,
        "Grandchild".to_string(),
        vec![(&child1, 3), (&child2, 4)],
    );
    (root, child1, child2, grandchild)
}

#[test]
fn the_ancestors_of_a_diamond_are_four_nodes_with_one_root() {
    let mut arena = Arena::new();
    let (root, _child1, _child2, grandchild) = diamond(&mut arena);
    let sinks = vec![grandchild.clone_ref(&mut arena)];
    let graph = AncestorGraph::from_terminals(&arena, sinks);
    assert_eq!(graph.all_nodes().len(), 4);
    assert_eq!(graph.n_nodes(), 4);
    assert_eq!(graph.initial_nodes(), vec![NodeId::of(&root)]);
    assert_eq!(graph.terminal_nodes().len(), 1);
    assert!(graph.terminal_nodes()[0].ptr_eq(&grandchild));
    assert_eq!(graph.get_node(&arena, NodeId::of(&root)).value(), "Root");
    let again = graph.get_node_rc(&mut arena, NodeId::of(&root));
    assert!(again.ptr_eq(&root));
    again.release(&mut arena);
    graph.release(&mut arena);
    assert_eq!(arena.get(&grandchild).strong_count(), 1);
}

#[test]
fn a_view_holds_the_ancestors_of_its_sinks() {
    let mut arena = Arena::new();
    let (root, child1, child2, grandchild) = diamond(&mut arena);
    let sinks = vec![child1.clone_ref(&mut arena)];
    let graph = RelRcGraph::from_sinks(&arena, sinks);
    assert_eq!(graph.all_nodes(), vec![NodeId::of(&root), NodeId::of(&child1)]);
    assert!(graph.contains(NodeId::of(&root)));
    assert!(!graph.contains(NodeId::of(&child2)));
    assert!(!graph.contains(NodeId::of(&grandchild)));
    assert_eq!(graph.sinks().len(), 1);
    assert!(graph.is_closed(&arena));

    // Only the edges to nodes of the view are edges of the view.
    let out = graph.outgoing_edges(&arena, NodeId::of(&root));
    assert_eq!(out, vec![EdgeId { target: NodeId::of(&child1), index: 0 }]);
    assert_eq!(graph.get_edge(&arena, out[0]).value(), &1);
    assert!(graph.outgoing_edges(&arena, NodeId::of(&child1)).is_empty());
}

#[test]
fn a_view_stops_where_the_condition_fails() {
    let mut arena = Arena::new();
    let (_root, child1, child2, grandchild) = diamond(&mut arena);
    let sinks = vec![grandchild.clone_ref(&mut arena)];
    let graph = RelRcGraph::from_sinks_while(&arena, sinks, |data| data.value() != "Child 1");
    // The root is reached through the second child only.
    assert_eq!(graph.n_nodes(), 3);
    assert!(!graph.contains(NodeId::of(&child1)));
    assert!(graph.contains(NodeId::of(&child2)));
    assert!(!graph.is_closed(&arena));

    let sinks = vec![grandchild.clone_ref(&mut arena)];
    let none = RelRcGraph::from_sinks_while(&arena, sinks, |data| data.value() != "Grandchild");
    assert_eq!(none.n_nodes(), 0);
}

#[test]
fn merging_views_asks_about_the_nodes_that_both_have() {
    let mut arena = Arena::new();
    let (root, child1, child2, _grandchild) = diamond(&mut arena);
    let sinks = vec![child1.clone_ref(&mut arena)];
    let mut left = RelRcGraph::from_sinks(&arena, sinks);
    let sinks = vec![child2.clone_ref(&mut arena)];
    let right = RelRcGraph::from_sinks(&arena, sinks);

    // The callback refuses: nothing changes.
    let count = arena.get(&child2).strong_count();
    let refused: Result<(), &str> = left.merge(&mut arena, &right, |_, _, _| Err("no"));
    assert_eq!(refused, Err("no"));
    assert_eq!(left.n_nodes(), 2);
    assert_eq!(left.sinks().len(), 1);
    assert_eq!(arena.get(&child2).strong_count(), count);

    // The callback is asked about the root, with the edge that each side has
    // alone.
    let seen = std::cell::RefCell::new(Vec::new());
    let merged: Result<(), ()> = left.merge(&mut arena, &right, |node, mine, theirs| {
        let mine: Vec<u32> = mine.iter().map(|e| *e.value()).collect();
        let theirs: Vec<u32> = theirs.iter().map(|e| *e.value()).collect();
        seen.borrow_mut().push((node, mine, theirs));
        Ok(())
    });
    assert_eq!(merged, Ok(()));
    assert_eq!(seen.into_inner(), vec![(NodeId::of(&root), vec![1], vec![2])]);
    assert_eq!(
        left.all_nodes(),
        vec![NodeId::of(&root), NodeId::of(&child1), NodeId::of(&child2)]
    );
    let sinks: Vec<usize> = left.sinks().iter().map(|s| s.as_ptr()).collect();
    assert_eq!(sinks, vec![child1.as_ptr(), child2.as_ptr()]);
    // The view holds a handle of its own on the sink that it took.
    assert_eq!(arena.get(&child2).strong_count(), count + 1);
}

#[test]
fn sorted_lists_of_handles_are_merged_without_duplicates() {
    let mut arena = Arena::<u32, ()>::new();
    let nodes: Vec<RelRc> = (0..5).map(|i| RelRc::new(&mut arena, i)).collect();
    let mut first = vec![
        nodes[0].clone_ref(&mut arena),
        nodes[2].clone_ref(&mut arena),
        nodes[3].clone_ref(&mut arena),
    ];
    let second = vec![
        nodes[1].clone_ref(&mut arena),
        nodes[2].clone_ref(&mut arena),
        nodes[4].clone_ref(&mut arena),
    ];
    merge_sorted_vecs_by_key(&mut arena, &mut first, &second);
    let merged: Vec<usize> = first.iter().map(|n| n.as_ptr()).collect();
    assert_eq!(merged, vec![0, 1, 2, 3, 4]);
    // One handle more for each node that was taken from the second list.
    assert_eq!(arena.get(&nodes[1]).strong_count(), 3);
    assert_eq!(arena.get(&nodes[2]).strong_count(), 3);
    assert_eq!(arena.get(&nodes[0]).strong_count(), 2);

    let mut empty: Vec<RelRc> = vec![];
    merge_sorted_vecs_by_key(&mut arena, &mut empty, &second);
    let merged: Vec<usize> = empty.iter().map(|n| n.as_ptr()).collect();
    assert_eq!(merged, vec![1, 2, 4]);
}

#[test]
fn test_roundtrip() {
    let mut arena = Arena::new();
    let (_root, _child1, _child2, grandchild) = diamond(&mut arena);
    let sinks = vec![grandchild.clone_ref(&mut arena)];
    let first_graph = RelRcGraph::from_sinks(&arena, sinks);
    let serialized = RelRcGraphSerializer::from_graph(&arena, &first_graph);
    assert!(serialized.is_topological());
    assert!(serialized.has_sinks());

    let mut other = Arena::new();
    let deserialized_graph = serialized.into_graph(&mut other).unwrap();
    let nodes = deserialized_graph.all_nodes();
    assert_eq!(nodes.len(), 4);
    let (root, child1, child2, grandchild2) = (nodes[0], nodes[1], nodes[2], nodes[3]);
    assert_eq!(deserialized_graph.get_node(&other, root).value(), "Root");
    let mut children_values = vec![
        deserialized_graph.get_node(&other, child1).value().as_str(),
        deserialized_graph.get_node(&other, child2).value().as_str(),
    ];
    children_values.sort();
    assert_eq!(children_values, vec!["Child 1", "Child 2"]);
    assert_eq!(
        deserialized_graph.get_node(&other, grandchild2).value(),
        first_graph.get_node(&arena, NodeId::of(&grandchild)).value()
    );
    assert_eq!(
        deserialized_graph.sinks()[0].hash_id(&other),
        grandchild.hash_id(&arena)
    );
}

#[test]
fn test_serialization() {
    let mut arena = Arena::new();
    let (_root, _child1, _child2, grandchild) = diamond(&mut arena);
    let sinks = vec![grandchild.clone_ref(&mut arena)];
    let graph = RelRcGraph::from_sinks(&arena, sinks);
    let serialized = RelRcGraphSerializer::from_graph(&arena, &graph);
    let expected = RelRcGraphSerializer {
        sinks: vec![SerializeNodeId(3)],
        all_nodes: vec![
            SerializeNodeData { value: "Root".to_string(), incoming: vec![] },
            SerializeNodeData {
                value: "Child 1".to_string(),
                incoming: vec![SerializeEdgeData { source: SerializeNodeId(0), value: 1 }],
            },
            SerializeNodeData {
                value: "Child 2".to_string(),
                incoming: vec![SerializeEdgeData { source: SerializeNodeId(0), value: 2 }],
            },
            SerializeNodeData {
                value: "Grandchild".to_string(),
                incoming: vec![
                    SerializeEdgeData { source: SerializeNodeId(1), value: 3 },
                    SerializeEdgeData { source: SerializeNodeId(2), value: 4 },
                ],
            },
        ],
    };
    assert_eq!(serialized, expected);
}

#[test]
fn a_parent_that_comes_later_is_rejected() {
    let flat = RelRcGraphSerializer {
        sinks: vec![SerializeNodeId(0)],
        all_nodes: vec![
            SerializeNodeData {
                value: 1u32,
                incoming: vec![SerializeEdgeData { source: SerializeNodeId(1), value: 0u32 }],
            },
            SerializeNodeData { value: 2u32, incoming: vec![] },
        ],
    };
    assert!(!flat.is_topological());
    let mut arena = Arena::new();
    assert_eq!(
        flat.get_diffs(&mut arena).err(),
        Some(GraphDeserializationError::InvalidTopologicalOrder)
    );
    assert_eq!(arena.n_slots(), 0);
    assert_eq!(
        flat.into_graph(&mut arena).err(),
        Some(GraphDeserializationError::InvalidTopologicalOrder)
    );
    assert_eq!(
        GraphDeserializationError::InvalidTopologicalOrder.message(),
        "Invalid graph: unknown parent (nodes must be in topological order)"
    );

    // A node that names itself as parent is rejected too.
    let own = RelRcGraphSerializer {
        sinks: vec![],
        all_nodes: vec![SerializeNodeData {
            value: 1u32,
            incoming: vec![SerializeEdgeData { source: SerializeNodeId(0), value: 0u32 }],
        }],
    };
    assert!(own.get_diffs(&mut arena).is_err());
    let unknown_sink: RelRcGraphSerializer<u32, u32> = RelRcGraphSerializer {
        sinks: vec![SerializeNodeId(0)],
        all_nodes: vec![],
    };
    assert!(!unknown_sink.has_sinks());
}

#[test]
fn get_diffs_makes_the_nodes_in_their_order() {
    let flat = RelRcGraphSerializer {
        sinks: vec![SerializeNodeId(1)],
        all_nodes: vec![
            SerializeNodeData { value: 10u32, incoming: vec![] },
            SerializeNodeData {
                value: 20u32,
                incoming: vec![
                    SerializeEdgeData { source: SerializeNodeId(0), value: 7u32 },
                    SerializeEdgeData { source: SerializeNodeId(0), value: 8u32 },
                ],
            },
        ],
    };
    let mut arena = Arena::new();
    let _pad = RelRc::new(&mut arena, 0);
    let nodes = flat.get_diffs(&mut arena).unwrap();
    assert_eq!(nodes.len(), 2);
    assert_eq!(arena.get(&nodes[0]).value(), &10);
    assert_eq!(arena.get(&nodes[1]).value(), &20);
    let edges: Vec<u32> = arena.get(&nodes[1]).all_incoming().iter().map(|e| *e.value()).collect();
    assert_eq!(edges, vec![7, 8]);
    assert!(arena.get(&nodes[1]).parent(0).unwrap().ptr_eq(&nodes[0]));
    assert!(arena.get(&nodes[1]).parent(1).unwrap().ptr_eq(&nodes[0]));
}

#[test]
fn the_lowest_common_ancestors_are_where_the_views_part() {
    let mut arena = Arena::new();
    let (root, child1, child2, grandchild) = diamond(&mut arena);
    let sinks = vec![child1.clone_ref(&mut arena)];
    let left = RelRcGraph::from_sinks(&arena, sinks);
    let sinks = vec![child2.clone_ref(&mut arena)];
    let right = RelRcGraph::from_sinks(&arena, sinks);
    // Both views hold the root; each holds one of its two outgoing edges.
    let lowest = RelRcGraph::lowest_common_ancestors(&arena, &vec![&left, &right]);
    assert_eq!(lowest, vec![NodeId::of(&root)]);

    // Views that hold the same nodes do not part anywhere.
    let sinks = vec![grandchild.clone_ref(&mut arena)];
    let all = RelRcGraph::from_sinks(&arena, sinks);
    let sinks = vec![grandchild.clone_ref(&mut arena)];
    let same = RelRcGraph::from_sinks(&arena, sinks);
    assert!(RelRcGraph::lowest_common_ancestors(&arena, &vec![&all, &same]).is_empty());

    // The whole diamond and its left half part at the root and at the left
    // child.
    let lowest = RelRcGraph::lowest_common_ancestors(&arena, &vec![&all, &left]);
    assert_eq!(lowest, vec![NodeId::of(&root), NodeId::of(&child1)]);
    // One view alone has no lowest common ancestor.
    assert!(RelRcGraph::lowest_common_ancestors(&arena, &vec![&all]).is_empty());
}

#[test]
fn a_view_from_sources_holds_the_live_descendants() {
    let mut arena = Arena::new();
    let (root, child1, child2, grandchild) = diamond(&mut arena);
    let lonely = RelRc::with_parents(&mut arena, "Lonely".to_string(), vec![(&child2, 9)]);
    let lonely_id = NodeId::of(&lonely);
    lonely.release(&mut arena);

    let sources = vec![child2.clone_ref(&mut arena)];
    let count = arena.get(&grandchild).strong_count();
    let graph = RelRcGraph::from_sources(&mut arena, &sources);
    assert_eq!(graph.all_nodes(), vec![NodeId::of(&child2), NodeId::of(&grandchild)]);
    assert!(!graph.contains(lonely_id));
    assert!(!graph.contains(NodeId::of(&root)));
    assert_eq!(graph.sinks().len(), 1);
    assert!(graph.sinks()[0].ptr_eq(&grandchild));
    assert_eq!(arena.get(&grandchild).strong_count(), count + 1);

    let sources = vec![root.clone_ref(&mut arena)];
    let graph = RelRcGraph::from_sources(&mut arena, &sources);
    assert_eq!(graph.n_nodes(), 4);
    assert_eq!(graph.sinks().len(), 1);
    let _ = child1;
}

#[test]
fn all_ancestors_holds_each_ancestor_once() {
    let mut arena = Arena::new();
    let (root, child1, child2, grandchild) = diamond(&mut arena);
    let mut ancestors: Vec<usize> =
        grandchild.all_ancestors(&arena).iter().map(|a| a.as_ptr()).collect();
    ancestors.sort();
    assert_eq!(
        ancestors,
        vec![root.as_ptr(), child1.as_ptr(), child2.as_ptr(), grandchild.as_ptr()]
    );
    let ancestors: Vec<usize> = root.all_ancestors(&arena).iter().map(|a| a.as_ptr()).collect();
    assert_eq!(ancestors, vec![root.as_ptr()]);
    assert_eq!(NodeId::of_weak(&child1.downgrade()), NodeId::of(&child1));
}

#[test]
fn mapping_a_view_maps_values_and_keeps_the_shape() {
    let mut arena = Arena::new();
    let (_root, child1, _child2, grandchild) = diamond(&mut arena);
    let sinks = vec![grandchild.clone_ref(&mut arena), child1.clone_ref(&mut arena)];
    let graph = RelRcGraph::from_sinks(&arena, sinks);

    let mut target: Arena<usize, u64> = Arena::new();
    let unrelated = RelRc::new(&mut target, 99);
    let image = graph.map(&arena, &mut target, |v: &String| v.len(), |e: &u32| u64::from(*e) * 10);

    assert_eq!(image.n_nodes(), 4);
    assert_eq!(target.n_slots(), 5);
    assert!(!image.contains(NodeId::of(&unrelated)));
    assert_eq!(image.sinks().len(), 2);

    // The first sink is the image of the grandchild, the second of a child.
    let top = target.get(&image.sinks()[0]);
    assert_eq!(*top.value(), "Grandchild".len());
    assert_eq!(top.n_incoming(), 2);
    assert_eq!(*top.incoming(0).unwrap().value(), 30);
    assert_eq!(*top.incoming(1).unwrap().value(), 40);
    let left = top.incoming(0).unwrap().source();
    let right = top.incoming(1).unwrap().source();
    assert!(left.ptr_eq(&image.sinks()[1]));
    assert!(!left.ptr_eq(right));
    assert_eq!(*target.get(left).value(), "Child 1".len());
    assert_eq!(*target.get(left).incoming(0).unwrap().value(), 10);
    assert_eq!(*target.get(right).incoming(0).unwrap().value(), 20);
    let root_left = target.get(left).incoming(0).unwrap().source();
    let root_right = target.get(right).incoming(0).unwrap().source();
    assert!(root_left.ptr_eq(root_right));
    assert_eq!(*target.get(root_left).value(), "Root".len());
    assert_eq!(target.get(root_left).n_incoming(), 0);

    // Only the view holds the images.
    assert_eq!(top.strong_count(), 1);
    let root_image = root_left.downgrade();
    image.release(&mut target);
    assert!(root_image.upgrade(&mut target).is_none());
    assert!(target.contains(&unrelated));
}
