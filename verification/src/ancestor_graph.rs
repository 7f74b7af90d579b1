//! Views of all ancestors of a set of nodes.

use crate::graph_view::{times, RelRcGraph};
use crate::node::{less, Arena, InnerData, RelRc};
use crate::traverse::set_to_vec;
use std::collections::BTreeSet;
use vstd::prelude::*;

pub use crate::graph_view::{EdgeId, NodeId};

verus! {

broadcast use vstd::std_specs::btree::group_btree_axioms;

/// The graph of all ancestors of its terminal nodes.
///
/// The graph holds strong handles on the terminal nodes, so that all its
/// nodes stay alive for as long as it holds them.
pub struct AncestorGraph {
    /// The terminal nodes and all their ancestors.
    graph: RelRcGraph,
    /// The nodes of the graph without incoming edges.
    initial_nodes: BTreeSet<usize>,
}

impl AncestorGraph {
    /// The view of the nodes of the graph.
    pub closed spec fn graph(&self) -> RelRcGraph {
        self.graph
    }

    /// The positions of the nodes of the graph.
    pub open spec fn nodes(&self) -> Set<int> {
        self.graph().nodes()
    }

    /// The positions of the nodes of the graph without incoming edges.
    pub closed spec fn initial(&self) -> Set<int> {
        Set::new(|i: int| 0 <= i <= usize::MAX && self.initial_nodes@.contains(i as usize))
    }

    /// The invariant of the graph in an arena: its nodes are the terminal
    /// nodes and their ancestors, and its initial nodes are those of its nodes
    /// that have no incoming edge.
    pub open spec fn wf<N, E>(&self, arena: &Arena<N, E>) -> bool {
        &&& self.graph().wf(arena)
        &&& forall|i: int|
            self.nodes().contains(i) <==> exists|j: int|
                0 <= j < self.graph().sink_ptrs().len() && arena.is_ancestor(
                    i,
                    #[trigger] self.graph().sink_ptrs()[j],
                )
        &&& forall|i: int|
            self.initial().contains(i) <==> self.nodes().contains(i) && arena.node(i).incoming.len()
                == 0
    }

    /// The nodes of the view that have no incoming edge.
    fn roots_of<N, E>(arena: &Arena<N, E>, graph: &RelRcGraph) -> (roots: BTreeSet<usize>)
        requires
            graph.wf(arena),
        ensures
            forall|x: usize|
                roots@.contains(x) <==> graph.nodes().contains(x as int) && arena.node(
                    x as int,
                ).incoming.len() == 0,
    {
        let all = set_to_vec(&graph.all_nodes);
        let mut roots: BTreeSet<usize> = BTreeSet::new();
        let mut j: usize = 0;
        while j < all.len()
            invariant
                j <= all@.len(),
                graph.wf(arena),
                all@.to_set() == graph.all_nodes@,
                forall|x: usize|
                    roots@.contains(x) <==> all@.take(j as int).contains(x) && arena.node(
                        x as int,
                    ).incoming.len() == 0,
            decreases all@.len() - j,
        {
            let n = all[j];
            proof {
                assert(all@.to_set().contains(n));
                assert(graph.nodes().contains(n as int));
                graph.lemma_nodes_live(arena, n as int);
            }
            let root = arena.slots[n].as_ref().unwrap().incoming.len() == 0;
            if root {
                roots.insert(n);
            }
            proof {
                let t0 = all@.take(j as int);
                let t1 = all@.take(j + 1);
                assert forall|x: usize|
                    roots@.contains(x) <==> t1.contains(x) && arena.node(x as int).incoming.len()
                        == 0 by {
                    if t1.contains(x) {
                        let k = choose|k: int| 0 <= k < t1.len() && t1[k] == x;
                        if k < j {
                            assert(t0[k] == x);
                        }
                    }
                    if t0.contains(x) {
                        let k = choose|k: int| 0 <= k < t0.len() && t0[k] == x;
                        assert(t1[k] == x);
                    }
                    if x == n {
                        assert(t1[j as int] == x);
                    }
                }
            }
            j += 1;
        }
        proof {
            assert(all@.take(all@.len() as int) == all@);
            assert forall|x: usize|
                roots@.contains(x) <==> graph.nodes().contains(x as int) && arena.node(
                    x as int,
                ).incoming.len() == 0 by {
                if all@.contains(x) {
                    assert(all@.to_set().contains(x));
                }
                if graph.all_nodes@.contains(x) {
                    assert(all@.to_set().contains(x));
                }
            }
        }
        roots
    }

    /// The graph of all ancestors of the terminal nodes, the terminal nodes
    /// included.
    pub fn from_terminals<N, E>(arena: &Arena<N, E>, terminal_nodes: Vec<RelRc>) -> (graph: Self)
        requires
            arena.wf(),
            forall|j: int|
                0 <= j < terminal_nodes@.len() ==> arena.is_live((#[trigger] terminal_nodes@[j])@),
        ensures
            graph.wf(arena),
            graph.graph().sink_ptrs() == terminal_nodes@.map_values(|s: RelRc| s@),
    {
        let graph = RelRcGraph::from_sinks(arena, terminal_nodes);
        let initial_nodes = Self::roots_of(arena, &graph);
        let result = AncestorGraph { graph, initial_nodes };
        proof {
            assert forall|i: int|
                result.nodes().contains(i) <==> exists|j: int|
                    0 <= j < result.graph().sink_ptrs().len() && arena.is_ancestor(
                        i,
                        #[trigger] result.graph().sink_ptrs()[j],
                    ) by {
                if result.nodes().contains(i) {
                    let j = choose|j: int|
                        0 <= j < terminal_nodes@.len() && arena.is_ancestor(
                            i,
                            (#[trigger] terminal_nodes@[j])@,
                        );
                    assert(arena.is_ancestor(i, result.graph().sink_ptrs()[j]));
                }
                if exists|j: int|
                    0 <= j < result.graph().sink_ptrs().len() && arena.is_ancestor(
                        i,
                        #[trigger] result.graph().sink_ptrs()[j],
                    ) {
                    let j = choose|j: int|
                        0 <= j < result.graph().sink_ptrs().len() && arena.is_ancestor(
                            i,
                            #[trigger] result.graph().sink_ptrs()[j],
                        );
                    assert(arena.is_ancestor(i, terminal_nodes@[j]@));
                }
            }
        }
        result
    }

    /// The nodes of the graph without incoming edges, each once.
    pub fn initial_nodes(&self) -> (ids: Vec<NodeId>)
        ensures
            ids@.no_duplicates(),
            forall|i: int| self.initial().contains(i) <==> exists|j: int|
                0 <= j < ids@.len() && (#[trigger] ids@[j])@ == i,
    {
        let ptrs = set_to_vec(&self.initial_nodes);
        let mut ids: Vec<NodeId> = Vec::new();
        let mut j: usize = 0;
        while j < ptrs.len()
            invariant
                j <= ptrs@.len(),
                ids@.len() == j,
                forall|j2: int| 0 <= j2 < j ==> (#[trigger] ids@[j2]).0 == ptrs@[j2],
            decreases ptrs@.len() - j,
        {
            ids.push(NodeId(ptrs[j]));
            j += 1;
        }
        proof {
            assert forall|a: int, b: int| 0 <= a < b < ids@.len() implies ids@[a] != ids@[b] by {
                assert(ptrs@[a] != ptrs@[b]);
            }
            assert forall|i: int| self.initial().contains(i) <==> exists|j: int|
                0 <= j < ids@.len() && (#[trigger] ids@[j])@ == i by {
                if self.initial().contains(i) {
                    assert(ptrs@.to_set().contains(i as usize));
                    assert(ptrs@.contains(i as usize));
                    let j = choose|j: int| 0 <= j < ptrs@.len() && ptrs@[j] == i as usize;
                    assert(ids@[j]@ == i);
                }
                if exists|j: int| 0 <= j < ids@.len() && (#[trigger] ids@[j])@ == i {
                    let j = choose|j: int| 0 <= j < ids@.len() && (#[trigger] ids@[j])@ == i;
                    assert(ptrs@[j] == i);
                    assert(ptrs@.contains(ptrs@[j]));
                    assert(ptrs@.to_set().contains(ptrs@[j]));
                }
            }
        }
        ids
    }

    /// The terminal nodes: the nodes that the graph was made from.
    pub fn terminal_nodes(&self) -> (nodes: &[RelRc])
        ensures
            nodes@.map_values(|s: RelRc| s@) == self.graph().sink_ptrs(),
    {
        self.graph.sinks()
    }

    /// All nodes of the graph, each once.
    pub fn all_nodes(&self) -> (ids: Vec<NodeId>)
        ensures
            ids@.no_duplicates(),
            forall|i: int| self.nodes().contains(i) <==> exists|j: int|
                0 <= j < ids@.len() && (#[trigger] ids@[j])@ == i,
    {
        self.graph.all_nodes()
    }

    /// The number of nodes of the graph.
    pub fn n_nodes(&self) -> (n: usize)
        ensures
            n == self.nodes().len(),
    {
        self.graph.n_nodes()
    }

    /// The data of a node of the graph.
    pub fn get_node<'a, N, E>(&self, arena: &'a Arena<N, E>, node_id: NodeId) -> (data: &'a InnerData<
        N,
        E,
    >)
        requires
            self.wf(arena),
            self.nodes().contains(node_id@),
        ensures
            data@ == arena.node(node_id@),
    {
        self.graph.get_node(arena, node_id)
    }

    /// A strong handle on a node of the graph.
    pub fn get_node_rc<N, E>(&self, arena: &mut Arena<N, E>, node_id: NodeId) -> (node: RelRc)
        requires
            old(arena).wf(),
            self.wf(old(arena)),
            self.nodes().contains(node_id@),
        ensures
            final(arena).wf(),
            node@ == node_id@,
            old(arena).held(final(arena), node_id@),
    {
        self.graph.get_node_rc(arena, node_id)
    }

    /// Gives the strong handles of the graph back, one for each terminal
    /// node, as [`RelRcGraph::release`] does.
    pub fn release<N, E>(self, arena: &mut Arena<N, E>)
        requires
            old(arena).wf(),
        ensures
            final(arena).wf(),
            final(arena).len() == old(arena).len(),
            forall|i: int| final(arena).is_live(i) ==> old(arena).is_live(i),
            self.graph().owns(old(arena)) ==> old(arena).given_back(
                final(arena),
                |j: int| less(old(arena).node(j).handles, times(self.graph().sink_ptrs(), j)),
            ),
    {
        self.graph.release(arena)
    }
}

} // verus!
