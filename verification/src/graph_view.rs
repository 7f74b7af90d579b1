//! Views of the dependencies of a set of nodes as a graph.
//!
//! A view holds strong handles on its sinks, so every node of the view stays
//! alive for as long as the view holds them.

pub mod map;
pub mod serialization;

use crate::edge::InnerEdgeData;
use crate::node::{bump, less, unbump, Arena, InnerData, RelRc, RelWeak};
use crate::traverse::{is_test, set_to_vec};
use std::collections::BTreeSet;
use vstd::prelude::*;

verus! {

broadcast use vstd::std_specs::btree::group_btree_axioms;

/// The identifier of a node in a view: the position of the node in its arena.
#[derive(Clone, Copy, Debug, PartialEq, Eq, Structural, Hash, PartialOrd, Ord)]
pub struct NodeId(pub usize);

impl View for NodeId {
    type V = int;

    open spec fn view(&self) -> int {
        self.0 as int
    }
}

impl NodeId {
    /// The identifier of the node of a strong handle.
    pub fn of(node: &RelRc) -> (id: NodeId)
        ensures
            id@ == node@,
    {
        NodeId(node.as_ptr())
    }

    /// The identifier of the node of a weak reference.
    pub fn of_weak(node: &RelWeak) -> (id: NodeId)
        ensures
            id@ == node@,
    {
        NodeId(node.as_ptr())
    }
}

/// The identifier of an edge in a view: the target of the edge and the
/// position of the edge among the incoming edges of the target.
#[derive(Clone, Copy, Debug, PartialEq, Eq, Structural, Hash, PartialOrd, Ord)]
pub struct EdgeId {
    /// The edge target.
    pub target: NodeId,
    /// The position of the edge among the incoming edges of the target.
    pub index: usize,
}

impl View for EdgeId {
    type V = (int, int);

    open spec fn view(&self) -> (int, int) {
        (self.target@, self.index as int)
    }
}

/// The edges among `s` whose target is in `nodes`, in their order.
pub open spec fn edges_within(s: Seq<(int, int)>, nodes: Set<int>) -> Seq<(int, int)>
    decreases s.len(),
{
    if s.len() == 0 {
        Seq::empty()
    } else if nodes.contains(s.last().0) {
        edges_within(s.drop_last(), nodes).push(s.last())
    } else {
        edges_within(s.drop_last(), nodes)
    }
}

/// An edge is kept exactly if it was there and its target is in `nodes`.
pub proof fn lemma_edges_within(s: Seq<(int, int)>, nodes: Set<int>)
    ensures
        forall|w: (int, int)| #[trigger]
            edges_within(s, nodes).contains(w) <==> s.contains(w) && nodes.contains(w.0),
    decreases s.len(),
{
    if s.len() > 0 {
        let rest = s.drop_last();
        lemma_edges_within(rest, nodes);
        assert forall|w: (int, int)| #[trigger]
            edges_within(s, nodes).contains(w) <==> s.contains(w) && nodes.contains(w.0) by {
            let kept = edges_within(s, nodes);
            let kept_rest = edges_within(rest, nodes);
            if kept.contains(w) {
                let j = choose|j: int| 0 <= j < kept.len() && kept[j] == w;
                if j < kept_rest.len() {
                    assert(kept_rest[j] == w);
                    assert(kept_rest.contains(w));
                    assert(rest.contains(w));
                    let j2 = choose|j2: int| 0 <= j2 < rest.len() && rest[j2] == w;
                    assert(s[j2] == w);
                } else {
                    assert(s[s.len() - 1] == w);
                }
            }
            if s.contains(w) && nodes.contains(w.0) {
                let j = choose|j: int| 0 <= j < s.len() && s[j] == w;
                if j < rest.len() {
                    assert(rest[j] == w);
                    assert(rest.contains(w));
                    assert(kept_rest.contains(w));
                    let j2 = choose|j2: int| 0 <= j2 < kept_rest.len() && kept_rest[j2] == w;
                    assert(kept[j2] == w);
                } else {
                    assert(kept[kept.len() - 1] == w);
                }
            }
        }
    }
}

/// A view of an induced subgraph of an arena, with the edges from parent to
/// child.
pub struct RelRcGraph {
    /// The nodes that the view was made from, by strong handles.
    pub(crate) sinks: Vec<RelRc>,
    /// The nodes that induce the graph.
    pub(crate) all_nodes: BTreeSet<usize>,
}

impl RelRcGraph {
    #[verifier::type_invariant]
    spec fn inv(self) -> bool {
        self.all_nodes@.finite()
    }

    /// The positions of the sinks of the view.
    pub open(crate) spec fn sink_ptrs(&self) -> Seq<int> {
        self.sinks@.map_values(|s: RelRc| s@)
    }

    /// The positions of the nodes of the view.
    pub open(crate) spec fn nodes(&self) -> Set<int> {
        Set::new(|i: int| 0 <= i <= usize::MAX && self.all_nodes@.contains(i as usize))
    }

    /// The invariant of a view in an arena: its sinks are alive, and its nodes
    /// are sinks or ancestors of sinks.
    pub open spec fn wf<N, E>(&self, arena: &Arena<N, E>) -> bool {
        &&& self.nodes().finite()
        &&& forall|j: int| 0 <= j < self.sink_ptrs().len() ==> arena.is_live(#[trigger] self.sink_ptrs()[j])
        &&& forall|i: int| #[trigger]
            self.nodes().contains(i) ==> exists|j: int|
                0 <= j < self.sink_ptrs().len() && arena.is_ancestor(i, #[trigger] self.sink_ptrs()[j])
    }

    /// Every node of a well-formed view is alive.
    pub proof fn lemma_nodes_live<N, E>(&self, arena: &Arena<N, E>, i: int)
        requires
            self.wf(arena),
            self.nodes().contains(i),
        ensures
            arena.is_live(i),
    {
        let j = choose|j: int|
            0 <= j < self.sink_ptrs().len() && arena.is_ancestor(i, #[trigger] self.sink_ptrs()[j]);
        arena.lemma_descends_live(self.sink_ptrs()[j], i, |i: int| true);
    }

    /// The view of all ancestors of `sinks`, the sinks included.
    pub fn from_sinks<N, E>(arena: &Arena<N, E>, sinks: Vec<RelRc>) -> (graph: Self)
        requires
            arena.wf(),
            forall|j: int| 0 <= j < sinks@.len() ==> arena.is_live((#[trigger] sinks@[j])@),
        ensures
            graph.wf(arena),
            graph.closed(arena),
            graph.sink_ptrs() == sinks@.map_values(|s: RelRc| s@),
            forall|i: int|
                graph.nodes().contains(i) <==> exists|j: int|
                    0 <= j < sinks@.len() && arena.is_ancestor(i, (#[trigger] sinks@[j])@),
    {
        let always = |d: &InnerData<N, E>| -> (b: bool)
            ensures
                b,
            { true };
        let graph = Self::from_sinks_while(arena, sinks, always);
        proof {
            let all = |i: int| true;
            let pass = arena.passing(always);
            assert forall|d: int, a: int| arena.descends(d, a, pass) == arena.descends(
                d,
                a,
                all,
            ) by {
                lemma_always_passes(arena, d, a, pass);
            }
            assert forall|i: int|
                graph.nodes().contains(i) <==> exists|j: int|
                    0 <= j < sinks@.len() && arena.is_ancestor(i, (#[trigger] sinks@[j])@) by {
                let ptrs = sinks@.map_values(|s: RelRc| s@);
                if graph.nodes().contains(i) {
                    let j = choose|j: int|
                        0 <= j < ptrs.len() && arena.descends(#[trigger] ptrs[j], i, pass);
                    assert(arena.is_ancestor(i, sinks@[j]@));
                }
                if exists|j: int|
                    0 <= j < sinks@.len() && arena.is_ancestor(i, (#[trigger] sinks@[j])@) {
                    let j = choose|j: int|
                        0 <= j < sinks@.len() && arena.is_ancestor(i, (#[trigger] sinks@[j])@);
                    assert(arena.descends(ptrs[j], i, pass));
                }
            }
            assert forall|j: int| 0 <= j < graph.sink_ptrs().len() implies graph.nodes().contains(
                #[trigger] graph.sink_ptrs()[j],
            ) by {
                assert(arena.is_ancestor(sinks@[j]@, sinks@[j]@));
            }
            assert forall|i: int, k: int|
                graph.nodes().contains(i) && 0 <= k < arena.node(
                    i,
                ).incoming.len() implies graph.nodes().contains(
                (#[trigger] arena.edge(i, k)).source,
            ) by {
                let j = choose|j: int|
                    0 <= j < sinks@.len() && arena.is_ancestor(i, (#[trigger] sinks@[j])@);
                arena.lemma_descends_step(sinks@[j]@, i, k, all);
                assert(arena.is_ancestor(arena.edge(i, k).source, sinks@[j]@));
            }
        }
        graph
    }

    /// The view of the ancestors of `sinks` that can be reached from a sink
    /// through nodes of which `condition` holds, the sink and the ancestor
    /// included: a node is in the view, and its parents are looked at, only
    /// if the condition holds of it.
    pub fn from_sinks_while<N, E, F: Fn(&InnerData<N, E>) -> bool>(
        arena: &Arena<N, E>,
        sinks: Vec<RelRc>,
        condition: F,
    ) -> (graph: Self)
        requires
            arena.wf(),
            is_test::<N, E, F>(condition),
            forall|j: int| 0 <= j < sinks@.len() ==> arena.is_live((#[trigger] sinks@[j])@),
        ensures
            graph.wf(arena),
            graph.sink_ptrs() == sinks@.map_values(|s: RelRc| s@),
            forall|i: int|
                graph.nodes().contains(i) <==> arena.reached(
                    sinks@.map_values(|s: RelRc| s@),
                    i,
                    arena.passing(condition),
                ),
    {
        let mut starts: Vec<usize> = Vec::new();
        let mut j: usize = 0;
        while j < sinks.len()
            invariant
                j <= sinks@.len(),
                starts@.len() == j,
                forall|j2: int| 0 <= j2 < j ==> (#[trigger] starts@[j2]) == sinks@[j2]@,
            decreases sinks@.len() - j,
        {
            starts.push(sinks[j].as_ptr());
            j += 1;
        }
        let ghost verdict = |d: InnerData<N, E>| crate::traverse::verdict_of(condition, d);
        let all_nodes = arena.collect(&starts, condition, Ghost(verdict));
        assert(arena.holding(verdict) =~= arena.passing(condition));
        let graph = RelRcGraph { sinks, all_nodes };
        proof {
            let pass = arena.passing(condition);
            let ptrs = graph.sink_ptrs();
            assert(starts@.map_values(|s: usize| s as int) =~= ptrs);
            assert(graph.nodes().finite()) by {
                lemma_nodes_finite(graph.all_nodes@);
            }
            assert forall|i: int| graph.nodes().contains(i) <==> arena.reached(ptrs, i, pass) by {
                if arena.reached(ptrs, i, pass) {
                    let j = choose|j: int|
                        0 <= j < ptrs.len() && arena.descends(#[trigger] ptrs[j], i, pass);
                    arena.lemma_descends_live(ptrs[j], i, pass);
                    assert(graph.all_nodes@.contains(i as usize));
                }
            }
            assert forall|i: int| #[trigger] graph.nodes().contains(i) implies exists|j: int|
                0 <= j < ptrs.len() && arena.is_ancestor(i, #[trigger] ptrs[j]) by {
                let j = choose|j: int|
                    0 <= j < ptrs.len() && arena.descends(#[trigger] ptrs[j], i, pass);
                lemma_pass_is_ancestor(arena, ptrs[j], i, pass);
            }
        }
        graph
    }

    /// The sinks of the view: the nodes that it was made from.
    pub fn sinks(&self) -> (sinks: &[RelRc])
        ensures
            sinks@.map_values(|s: RelRc| s@) == self.sink_ptrs(),
    {
        self.sinks.as_slice()
    }

    /// All nodes of the view, each once.
    pub fn all_nodes(&self) -> (ids: Vec<NodeId>)
        ensures
            ids@.no_duplicates(),
            forall|i: int| self.nodes().contains(i) <==> exists|j: int|
                0 <= j < ids@.len() && (#[trigger] ids@[j])@ == i,
    {
        let ptrs = set_to_vec(&self.all_nodes);
        let mut ids: Vec<NodeId> = Vec::new();
        let mut j: usize = 0;
        while j < ptrs.len()
            invariant
                j <= ptrs@.len(),
                ids@.len() == j,
                forall|j2: int| 0 <= j2 < j ==> (#[trigger] ids@[j2]).0 == ptrs@[j2],
            decreases ptrs@.len() - j,
        {
            ids.push(NodeId(ptrs[j]));
            j += 1;
        }
        proof {
            assert forall|a: int, b: int| 0 <= a < b < ids@.len() implies ids@[a] != ids@[b] by {
                assert(ptrs@[a] != ptrs@[b]);
            }
            assert forall|i: int| self.nodes().contains(i) <==> exists|j: int|
                0 <= j < ids@.len() && (#[trigger] ids@[j])@ == i by {
                if self.nodes().contains(i) {
                    assert(ptrs@.to_set().contains(i as usize));
                    assert(ptrs@.contains(i as usize));
                    let j = choose|j: int| 0 <= j < ptrs@.len() && ptrs@[j] == i as usize;
                    assert(ids@[j]@ == i);
                }
                if exists|j: int| 0 <= j < ids@.len() && (#[trigger] ids@[j])@ == i {
                    let j = choose|j: int| 0 <= j < ids@.len() && (#[trigger] ids@[j])@ == i;
                    assert(ptrs@[j] == i);
                    assert(ptrs@.contains(ptrs@[j]));
                    assert(ptrs@.to_set().contains(ptrs@[j]));
                }
            }
        }
        ids
    }

    /// The number of nodes of the view.
    pub fn n_nodes(&self) -> (n: usize)
        ensures
            n == self.nodes().len(),
    {
        proof {
            use_type_invariant(self);
            lemma_nodes_finite(self.all_nodes@);
        }
        self.all_nodes.len()
    }

    /// Whether the node is in the view.
    pub fn contains(&self, node_id: NodeId) -> (b: bool)
        ensures
            b == self.nodes().contains(node_id@),
    {
        self.all_nodes.contains(&node_id.0)
    }

    /// The data of a node of the view.
    pub fn get_node<'a, N, E>(&self, arena: &'a Arena<N, E>, node_id: NodeId) -> (data: &'a InnerData<
        N,
        E,
    >)
        requires
            self.wf(arena),
            self.nodes().contains(node_id@),
        ensures
            data@ == arena.node(node_id@),
            *data == arena.data(node_id@),
    {
        proof {
            self.lemma_nodes_live(arena, node_id@);
        }
        arena.slots[node_id.0].as_ref().unwrap()
    }

    /// A strong handle on a node of the view.
    pub fn get_node_rc<N, E>(&self, arena: &mut Arena<N, E>, node_id: NodeId) -> (node: RelRc)
        requires
            old(arena).wf(),
            self.wf(old(arena)),
            self.nodes().contains(node_id@),
        ensures
            final(arena).wf(),
            node@ == node_id@,
            old(arena).held(final(arena), node_id@),
    {
        proof {
            self.lemma_nodes_live(arena, node_id@);
        }
        arena.hold(node_id.0)
    }

    /// The data of an edge whose target is in the view.
    pub fn get_edge<'a, N, E>(&self, arena: &'a Arena<N, E>, edge_id: EdgeId) -> (edge: &'a InnerEdgeData<
        E,
    >)
        requires
            self.wf(arena),
            self.nodes().contains(edge_id@.0),
            edge_id@.1 < arena.node(edge_id@.0).incoming.len(),
        ensures
            edge@ == arena.edge(edge_id@.0, edge_id@.1),
    {
        let node = self.get_node(arena, edge_id.target);
        &node.all_incoming()[edge_id.index]
    }

    /// The outgoing edges of a node of the view whose target is in the view,
    /// in the order in which the edges were made.
    pub fn outgoing_edges<N, E>(&self, arena: &Arena<N, E>, node_id: NodeId) -> (edges: Vec<EdgeId>)
        requires
            self.wf(arena),
            self.nodes().contains(node_id@),
        ensures
            edges@.map_values(|e: EdgeId| e@) == edges_within(
                arena.node(node_id@).outgoing,
                self.nodes(),
            ),
    {
        let node = self.get_node(arena, node_id);
        let all = node.all_outgoing_weak();
        let ghost out = arena.node(node_id@).outgoing;
        assert(all@.len() == out.len()) by {
            assert(all@.map_values(|w: crate::edge::WeakEdge| w@).len() == all@.len());
        }
        let mut edges: Vec<EdgeId> = Vec::new();
        let mut j: usize = 0;
        while j < all.len()
            invariant
                j <= all@.len(),
                all@.map_values(|w: crate::edge::WeakEdge| w@) == out,
                edges@.map_values(|e: EdgeId| e@) == edges_within(out.take(j as int), self.nodes()),
            decreases all@.len() - j,
        {
            let w = all[j];
            proof {
                assert(out[j as int] == w@);
                assert(out.take(j + 1).drop_last() == out.take(j as int));
                assert(out.take(j + 1).last() == w@);
            }
            if self.all_nodes.contains(&w.target.ptr) {
                let e = EdgeId { target: NodeId(w.target.ptr), index: w.index };
                edges.push(e);
                assert(edges@.map_values(|e: EdgeId| e@) == edges_within(
                    out.take(j as int),
                    self.nodes(),
                ).push(w@));
            }
            j += 1;
        }
        assert(out.take(all@.len() as int) == out);
        edges
    }

    /// Makes a strong handle on each of the sinks among the nodes that have
    /// just been made.
    fn hold_sinks<N, E>(arena: &mut Arena<N, E>, nodes: &Vec<RelRc>, sinks: &Vec<usize>) -> (handles: Vec<
        RelRc,
    >)
        requires
            old(arena).wf(),
            nodes@.len() <= old(arena).len(),
            forall|i: int|
                0 <= i < nodes@.len() ==> (#[trigger] nodes@[i])@ == old(arena).len() - nodes@.len()
                    + i,
            forall|x: int|
                old(arena).len() - nodes@.len() <= x < old(arena).len() ==> old(arena).is_live(x) && (
                #[trigger] old(arena).node(x)).handles >= 1,
            forall|j: int| 0 <= j < sinks@.len() ==> (#[trigger] sinks@[j]) < nodes@.len(),
        ensures
            final(arena).wf(),
            old(arena).more_held(final(arena)),
            handles@.map_values(|s: RelRc| s@) == sinks@.map_values(
                |s: usize| old(arena).len() - nodes@.len() + s,
            ),
            forall|j: int|
                0 <= j < sinks@.len() ==> final(arena).node(
                    old(arena).len() - nodes@.len() + #[trigger] sinks@[j],
                ).handles >= 2,
            forall|x: int|
                old(arena).is_live(x) ==> (#[trigger] final(arena).node(x)).handles == more(
                    old(arena).node(x).handles,
                    times(handles@.map_values(|s: RelRc| s@), x),
                ),
    {
        let ghost base = arena.len() - nodes@.len();
        let mut handles: Vec<RelRc> = Vec::new();
        let mut j: usize = 0;
        while j < sinks.len()
            invariant
                j <= sinks@.len(),
                arena.wf(),
                old(arena).more_held(arena),
                forall|x: int|
                    old(arena).is_live(x) ==> (#[trigger] arena.node(x)).handles == more(
                        old(arena).node(x).handles,
                        times(handles@.map_values(|s: RelRc| s@), x),
                    ),
                base == old(arena).len() - nodes@.len(),
                nodes@.len() <= old(arena).len(),
                forall|j2: int| 0 <= j2 < sinks@.len() ==> (#[trigger] sinks@[j2]) < nodes@.len(),
                forall|i: int| 0 <= i < nodes@.len() ==> (#[trigger] nodes@[i])@ == base + i,
                forall|x: int|
                    base <= x < old(arena).len() ==> old(arena).is_live(x) && (#[trigger] old(
                        arena,
                    ).node(x)).handles >= 1,
                handles@.len() == j,
                forall|j2: int| 0 <= j2 < j ==> (#[trigger] handles@[j2])@ == base + sinks@[j2],
                forall|j2: int| 0 <= j2 < j ==> arena.node(base + #[trigger] sinks@[j2]).handles >= 2,
            decreases sinks@.len() - j,
        {
            let s = sinks[j];
            let ghost prev = *arena;
            assert(nodes@[s as int]@ == base + s);
            proof {
                let y = old(arena).node(base + s);
                let z = prev.node(base + s);
            }
            let ghost done = handles@.map_values(|s: RelRc| s@);
            handles.push(nodes[s].clone_ref(arena));
            proof {
                assert(handles@.map_values(|s: RelRc| s@) =~= done.push(base + s));
                assert forall|x: int| old(arena).is_live(x) implies (#[trigger] arena.node(
                    x,
                )).handles == more(old(arena).node(x).handles, times(done.push(base + s), x)) by {
                    lemma_times_push(done, base + s, x);
                    let y = prev.node(x);
                    assert(prev.is_live(x));
                }
                assert forall|j2: int| 0 <= j2 < j + 1 implies arena.node(
                    base + #[trigger] sinks@[j2],
                ).handles >= 2 by {
                    let x = base + sinks@[j2];
                    let y = prev.node(x);
                    let z = old(arena).node(x);
                    let w = arena.node(x);
                    assert(z.handles >= 1);
                    assert(y.handles >= z.handles);
                    if j2 == j {
                        assert(w.handles == crate::node::bump(y.handles));
                    } else {
                        assert(y.handles >= 2);
                    }
                }
                assert forall|i: int| old(arena).is_live(i) implies #[trigger] arena.node(i) == (
                crate::node::NodeView {
                    handles: arena.node(i).handles,
                    ..old(arena).node(i)
                }) && arena.node(i).handles >= old(arena).node(i).handles by {
                    let y = prev.node(i);
                }
            }
            j += 1;
        }
        assert(handles@.map_values(|s: RelRc| s@) =~= sinks@.map_values(|s: usize| base + s));
        handles
    }

    /// Gives back the one strong handle on each of the nodes that have just
    /// been made, last node first. The sinks of the view, which have another
    /// strong handle each, and their ancestors stay alive.
    fn release_made<N, E>(&self, arena: &mut Arena<N, E>, nodes: Vec<RelRc>)
        requires
            old(arena).wf(),
            self.wf(old(arena)),
            nodes@.len() <= old(arena).len(),
            forall|i: int|
                0 <= i < nodes@.len() ==> (#[trigger] nodes@[i])@ == old(arena).len() - nodes@.len()
                    + i,
            forall|x: int|
                old(arena).len() - nodes@.len() <= x < old(arena).len() ==> old(arena).is_live(x) && (
                #[trigger] old(arena).node(x)).handles >= 1 + (if self.sink_ptrs().contains(x) {
                    1nat
                } else {
                    0nat
                }),
            forall|x: int|
                self.sink_ptrs().contains(x) ==> old(arena).is_live(x) && (#[trigger] old(arena).node(
                    x,
                )).handles >= 1,
        ensures
            final(arena).wf(),
            final(arena).len() == old(arena).len(),
            self.wf(final(arena)),
            forall|i: int| final(arena).is_live(i) ==> old(arena).is_live(i),
            forall|i: int|
                final(arena).is_live(i) ==> (#[trigger] final(arena).node(i)).value == old(arena).node(
                    i,
                ).value && final(arena).node(i).incoming == old(arena).node(i).incoming,
            old(arena).given_back(
                final(arena),
                |j: int|
                    if old(arena).len() - nodes@.len() <= j < old(arena).len() {
                        unbump(old(arena).node(j).handles)
                    } else {
                        old(arena).node(j).handles
                    },
            ),
    {
        let ghost base = arena.len() - nodes@.len();
        let ghost sink_ptrs = self.sink_ptrs();
        let ghost top = arena.len() as int;
        let mut nodes = nodes;
        proof {
            arena.lemma_given_back_none();
            let start = |j: int|
                if base + nodes@.len() <= j < top {
                    unbump(old(arena).node(j).handles)
                } else {
                    old(arena).node(j).handles
                };
            assert forall|j: int| #[trigger] start(j) == old(arena).node(j).handles by {}
            assert(old(arena).given_back(arena, start));
        }
        while nodes.len() > 0
            invariant
                arena.wf(),
                top == old(arena).len(),
                old(arena).given_back(
                    arena,
                    |j: int|
                        if base + nodes@.len() <= j < top {
                            unbump(old(arena).node(j).handles)
                        } else {
                            old(arena).node(j).handles
                        },
                ),
                arena.len() == old(arena).len(),
                base + nodes@.len() <= arena.len(),
                sink_ptrs == self.sink_ptrs(),
                self.wf(arena),
                forall|i: int| 0 <= i < nodes@.len() ==> (#[trigger] nodes@[i])@ == base + i,
                forall|i: int| arena.is_live(i) ==> old(arena).is_live(i),
                forall|i: int|
                    arena.is_live(i) ==> (#[trigger] arena.node(i)).value == old(arena).node(i).value
                        && arena.node(i).incoming == old(arena).node(i).incoming,
                forall|x: int|
                    base <= x < base + nodes@.len() ==> arena.is_live(x) && (#[trigger] arena.node(
                        x,
                    )).handles >= 1 + (if sink_ptrs.contains(x) {
                        1nat
                    } else {
                        0nat
                    }),
                forall|x: int|
                    sink_ptrs.contains(x) ==> arena.is_live(x) && (#[trigger] arena.node(x)).handles
                        >= 1,
            decreases nodes@.len(),
        {
            let ghost prev = *arena;
            let ghost n = nodes@.len() - 1;
            let node = nodes.pop().unwrap();
            proof {
                assert(node@ == base + n);
                let y = arena.node(base + n);
            }
            node.release(arena);
            proof {
                let h = crate::node::unbump(prev.node(base + n).handles);
                let counts = |j: int|
                    if base + n + 1 <= j < top {
                        unbump(old(arena).node(j).handles)
                    } else {
                        old(arena).node(j).handles
                    };
                old(arena).lemma_given_back_more(&prev, arena, counts, base + n, h);
                let next = |j: int|
                    if j == base + n {
                        h
                    } else {
                        counts(j)
                    };
                let goal = |j: int|
                    if base + n <= j < top {
                        unbump(old(arena).node(j).handles)
                    } else {
                        old(arena).node(j).handles
                    };
                assert forall|j: int| next(j) == #[trigger] goal(j) by {
                    let y = prev.node(j);
                }
                assert(old(arena).given_back(arena, goal));
                assert forall|x: int| sink_ptrs.contains(x) implies arena.is_live(x) && (
                #[trigger] arena.node(x)).handles >= 1 by {
                    let y = prev.node(x);
                }
                assert forall|x: int| base <= x < base + nodes@.len() implies arena.is_live(x) && (
                #[trigger] arena.node(x)).handles >= 1 + (if sink_ptrs.contains(x) {
                    1nat
                } else {
                    0nat
                }) by {
                    let y = prev.node(x);
                }
                assert forall|i: int| arena.is_live(i) implies (#[trigger] arena.node(i)).value
                    == old(arena).node(i).value && arena.node(i).incoming == old(arena).node(
                    i,
                ).incoming by {
                    let y = prev.node(i);
                }
                assert forall|j: int| 0 <= j < sink_ptrs.len() implies arena.is_live(
                    #[trigger] sink_ptrs[j],
                ) by {
                    assert(sink_ptrs.contains(sink_ptrs[j]));
                    let y = arena.node(sink_ptrs[j]);
                }
                self.lemma_wf_shrunk(&prev, arena, base + n, h);
            }
        }
    }

    /// A view stays well formed when nodes are destroyed, as long as its
    /// sinks stay alive.
    pub proof fn lemma_wf_shrunk<N, E>(&self, before: &Arena<N, E>, after: &Arena<N, E>, i: int, handles: nat)
        requires
            self.wf(before),
            before.shrunk(after, i, handles),
            after.parents_wf(),
            forall|j: int| 0 <= j < self.sink_ptrs().len() ==> after.is_live(#[trigger] self.sink_ptrs()[j]),
        ensures
            self.wf(after),
    {
        let all = |i: int| true;
        assert forall|x: int| #[trigger] self.nodes().contains(x) implies exists|j: int|
            0 <= j < self.sink_ptrs().len() && after.is_ancestor(x, #[trigger] self.sink_ptrs()[j]) by {
            let j = choose|j: int|
                0 <= j < self.sink_ptrs().len() && before.is_ancestor(x, #[trigger] self.sink_ptrs()[j]);
            before.lemma_shrunk_descends(after, i, handles, self.sink_ptrs()[j], x, all);
        }
    }

    /// A view that holds the parents of its nodes still does as long as its
    /// nodes keep their incoming edges.
    pub proof fn lemma_closed_kept<N, E>(&self, before: &Arena<N, E>, after: &Arena<N, E>)
        requires
            self.closed(before),
            self.wf(after),
            forall|i: int|
                after.is_live(i) ==> (#[trigger] after.node(i)).incoming == before.node(i).incoming,
        ensures
            self.closed(after),
    {
        assert forall|i: int, k: int|
            self.nodes().contains(i) && 0 <= k < after.node(
                i,
            ).incoming.len() implies self.nodes().contains((#[trigger] after.edge(i, k)).source) by {
            self.lemma_nodes_live(after, i);
            let y = after.node(i);
            assert(after.edge(i, k) == before.edge(i, k));
        }
    }

    /// Makes a strong handle on each of the sinks among the nodes that have
    /// just been made, and the view of all their ancestors, which holds
    /// these handles.
    fn view_of_made<N, E>(arena: &mut Arena<N, E>, nodes: &Vec<RelRc>, sinks: &Vec<usize>) -> (graph:
        Self)
        requires
            old(arena).wf(),
            nodes@.len() <= old(arena).len(),
            forall|i: int|
                0 <= i < nodes@.len() ==> (#[trigger] nodes@[i])@ == old(arena).len() - nodes@.len()
                    + i,
            forall|x: int|
                old(arena).len() - nodes@.len() <= x < old(arena).len() ==> old(arena).is_live(x) && (
                #[trigger] old(arena).node(x)).handles >= 1,
            forall|j: int| 0 <= j < sinks@.len() ==> (#[trigger] sinks@[j]) < nodes@.len(),
        ensures
            final(arena).wf(),
            old(arena).more_held(final(arena)),
            graph.wf(final(arena)),
            graph.closed(final(arena)),
            graph.sink_ptrs() == sinks@.map_values(
                |s: usize| old(arena).len() - nodes@.len() + s,
            ),
            forall|k: int|
                0 <= k < graph.sink_ptrs().len() ==> old(arena).len() - nodes@.len() <= (
                #[trigger] graph.sink_ptrs()[k]) < old(arena).len(),
            forall|x: int|
                old(arena).is_live(x) ==> (#[trigger] final(arena).node(x)).handles == more(
                    old(arena).node(x).handles,
                    times(graph.sink_ptrs(), x),
                ),
            forall|x: int|
                old(arena).len() - nodes@.len() <= x < old(arena).len() ==> final(arena).is_live(x)
                    && (#[trigger] final(arena).node(x)).handles >= 1 + (if graph.sink_ptrs().contains(
                    x,
                ) {
                    1nat
                } else {
                    0nat
                }),
            forall|x: int|
                graph.sink_ptrs().contains(x) ==> final(arena).is_live(x) && (
                #[trigger] final(arena).node(x)).handles >= 1,
    {
        let ghost base = arena.len() - nodes@.len();
        let handles = Self::hold_sinks(arena, nodes, sinks);
        proof {
            assert forall|j: int| 0 <= j < handles@.len() implies arena.is_live(
                (#[trigger] handles@[j])@,
            ) by {
                let hs = handles@.map_values(|s: RelRc| s@);
                let ss = sinks@.map_values(|s: usize| base + s);
                assert(ss =~= sinks@.map_values(|s: usize| old(arena).len() - nodes@.len() + s));
                assert(hs == ss);
                assert(hs.len() == handles@.len());
                assert(ss.len() == sinks@.len());
                assert(ss[j] == base + sinks@[j]);
                assert(hs[j] == handles@[j]@);
                let y = old(arena).node(base + sinks@[j]);
            }
        }
        let graph = RelRcGraph::from_sinks(arena, handles);
        proof {
            let sink_ptrs = graph.sink_ptrs();
            assert forall|k: int| 0 <= k < sink_ptrs.len() implies base <= (#[trigger] sink_ptrs[k])
                < old(arena).len() by {
                assert(sink_ptrs[k] == base + sinks@[k]);
            }
            assert forall|x: int| base <= x < arena.len() implies arena.is_live(x) && (
            #[trigger] arena.node(x)).handles >= 1 + (if sink_ptrs.contains(x) {
                1nat
            } else {
                0nat
            }) by {
                let y = old(arena).node(x);
                if sink_ptrs.contains(x) {
                    let j = choose|j: int| 0 <= j < sink_ptrs.len() && sink_ptrs[j] == x;
                    assert(x == base + sinks@[j]);
                }
            }
            assert forall|x: int| sink_ptrs.contains(x) implies arena.is_live(x) && (
            #[trigger] arena.node(x)).handles >= 1 by {
                let j = choose|j: int| 0 <= j < sink_ptrs.len() && sink_ptrs[j] == x;
                assert(x == base + sinks@[j]);
                let y = old(arena).node(x);
            }
        }
        graph
    }

    /// The view of all ancestors of some of the nodes that have just been
    /// made: `nodes` holds the one strong handle on each of the last nodes
    /// of the arena, in their order, and `sinks` names the sinks by their
    /// place among them. The view makes strong handles on the sinks; the
    /// handles in `nodes` are given back, which destroys the nodes that are
    /// no ancestors of a sink.
    pub(crate) fn of_made<N, E>(arena: &mut Arena<N, E>, nodes: Vec<RelRc>, sinks: &Vec<usize>) -> (graph:
        Self)
        requires
            old(arena).wf(),
            nodes@.len() <= old(arena).len(),
            forall|i: int|
                0 <= i < nodes@.len() ==> (#[trigger] nodes@[i])@ == old(arena).len() - nodes@.len()
                    + i,
            forall|x: int|
                old(arena).len() - nodes@.len() <= x < old(arena).len() ==> old(arena).is_live(x) && (
                #[trigger] old(arena).node(x)).handles >= 1,
            forall|j: int| 0 <= j < sinks@.len() ==> (#[trigger] sinks@[j]) < nodes@.len(),
        ensures
            final(arena).wf(),
            final(arena).len() == old(arena).len(),
            graph.wf(final(arena)),
            graph.closed(final(arena)),
            graph.sink_ptrs() == sinks@.map_values(
                |s: usize| old(arena).len() - nodes@.len() + s,
            ),
            old(arena).given_back(
                final(arena),
                |j: int|
                    if old(arena).len() - nodes@.len() <= j < old(arena).len() {
                        unbump(more(old(arena).node(j).handles, times(graph.sink_ptrs(), j)))
                    } else {
                        old(arena).node(j).handles
                    },
            ),
    {
        let ghost base = arena.len() - nodes@.len();
        let ghost top = arena.len() as int;
        let graph = Self::view_of_made(arena, &nodes, sinks);
        let ghost held = *arena;
        graph.release_made(arena, nodes);
        proof {
            lemma_held_given_back(old(arena), &held, arena, base, top, graph.sink_ptrs());
            graph.lemma_closed_kept(&held, arena);
        }
        graph
    }

    /// Whether the view has its strong handles: each sink is alive and has
    /// at least as many strong handles as the view holds on it.
    pub open spec fn owns<N, E>(&self, arena: &Arena<N, E>) -> bool {
        forall|j: int|
            0 <= j < self.sink_ptrs().len() ==> arena.is_live(#[trigger] self.sink_ptrs()[j])
                && arena.node(self.sink_ptrs()[j]).handles >= times(
                self.sink_ptrs(),
                self.sink_ptrs()[j],
            )
    }

    /// Gives the strong handles of the view back, one for each sink.
    ///
    /// A node that is left without a strong handle and without a live child
    /// is destroyed, and so on upwards. Where the view does not have its
    /// handles, those that it has are given back.
    pub fn release<N, E>(self, arena: &mut Arena<N, E>)
        requires
            old(arena).wf(),
        ensures
            final(arena).wf(),
            final(arena).len() == old(arena).len(),
            forall|i: int| final(arena).is_live(i) ==> old(arena).is_live(i),
            self.owns(old(arena)) ==> old(arena).given_back(
                final(arena),
                |j: int| less(old(arena).node(j).handles, times(self.sink_ptrs(), j)),
            ),
    {
        let ghost all = self.sink_ptrs();
        let mut sinks = self.sinks;
        proof {
            arena.lemma_given_back_none();
            assert(all.skip(all.len() as int) =~= Seq::<int>::empty());
        }
        while sinks.len() > 0
            invariant
                arena.wf(),
                arena.len() == old(arena).len(),
                forall|i: int| arena.is_live(i) ==> old(arena).is_live(i),
                all == self.sink_ptrs(),
                sinks@.len() <= all.len(),
                forall|j: int| 0 <= j < sinks@.len() ==> (#[trigger] sinks@[j])@ == all[j],
                self.owns(old(arena)) ==> old(arena).given_back(
                    arena,
                    |j: int| less(old(arena).node(j).handles, times(all.skip(sinks@.len() as int), j)),
                ),
            decreases sinks@.len(),
        {
            let ghost m = sinks@.len() as int;
            let ghost mid = *arena;
            let s = sinks.pop().unwrap();
            let ghost x = s@;
            proof {
                assert(x == all[m - 1]);
                if self.owns(old(arena)) {
                    lemma_times_split(all, m, x);
                    lemma_times_has(all.take(m), m - 1, x);
                    let c = old(arena).node(x).handles;
                    assert(c >= times(all, x));
                    assert(less(c, times(all.skip(m), x)) > 0);
                    assert(old(arena).is_live(x));
                    assert(arena.is_live(x));
                    let y = arena.node(x);
                }
            }
            if arena.contains(&s) && arena.get(&s).strong_count() > 0 {
                s.release(arena);
                proof {
                    if self.owns(old(arena)) {
                        let counts = |j: int|
                            less(old(arena).node(j).handles, times(all.skip(m), j));
                        let left = unbump(mid.node(x).handles);
                        old(arena).lemma_given_back_more(&mid, arena, counts, x, left);
                        let next = |j: int|
                            if j == x {
                                left
                            } else {
                                counts(j)
                            };
                        let goal = |j: int|
                            less(old(arena).node(j).handles, times(all.skip(m - 1), j));
                        assert forall|j: int| next(j) == #[trigger] goal(j) by {
                            assert(all.skip(m - 1).skip(1) =~= all.skip(m));
                            assert(all.skip(m - 1)[0] == x);
                        }
                        assert(old(arena).given_back(arena, goal));
                    }
                }
            }
        }
        proof {
            assert(all.skip(0) =~= all);
        }
    }
}

/// How often `x` occurs in `s`.
pub open spec fn times(s: Seq<int>, x: int) -> nat
    decreases s.len(),
{
    if s.len() == 0 {
        0
    } else {
        times(s.skip(1), x) + if s[0] == x {
            1nat
        } else {
            0nat
        }
    }
}

/// What occurs in a sequence occurs in its first part or in the rest.
pub proof fn lemma_times_split(s: Seq<int>, m: int, x: int)
    requires
        0 <= m <= s.len(),
    ensures
        times(s, x) == times(s.take(m), x) + times(s.skip(m), x),
    decreases m,
{
    if m == 0 {
        assert(s.skip(0) =~= s);
        assert(s.take(0) =~= Seq::<int>::empty());
    } else {
        lemma_times_split(s.skip(1), m - 1, x);
        assert(s.skip(1).skip(m - 1) =~= s.skip(m));
        assert(s.take(m).skip(1) =~= s.skip(1).take(m - 1));
        assert(s.take(m)[0] == s[0]);
    }
}

impl<N, E> Arena<N, E> {
    /// `after` is this arena with new nodes after it, of which those of the
    /// view `graph` are left: what was there has not changed; a new node is
    /// alive exactly if it is a node of the view; and the strong handles on
    /// the new nodes are those of the view, one for each sink.
    pub open spec fn grown_by(&self, after: &Self, graph: &RelRcGraph) -> bool {
        &&& self.len() <= after.len()
        &&& after.n_registries() == self.n_registries()
        &&& forall|r: int|
            0 <= r < self.n_registries() ==> #[trigger] after.registry_map(r) == self.registry_map(r)
        &&& forall|i: int| 0 <= i < self.len() ==> #[trigger] after.is_live(i) == self.is_live(i)
        &&& forall|i: int| self.is_live(i) ==> #[trigger] after.node(i) == self.node(i)
        &&& forall|x: int|
            self.len() <= x < after.len() ==> (#[trigger] after.is_live(x) <==> graph.nodes().contains(
                x,
            ))
        &&& forall|x: int|
            self.len() <= x && after.is_live(x) ==> (#[trigger] after.node(x)).handles == unbump(
                more(1, times(graph.sink_ptrs(), x)),
            ) && after.node(x).registry is None
    }

    /// What can be reached in an arena can be reached in the arena with
    /// more nodes.
    pub proof fn lemma_untouched_descends(&self, after: &Self, d: int, a: int, pass: spec_fn(int) -> bool)
        requires
            forall|i: int| self.is_live(i) ==> after.is_live(i) && #[trigger] after.node(i) == self.node(i),
            self.descends(d, a, pass),
        ensures
            after.descends(d, a, pass),
        decreases d,
    {
        let x = after.node(d);
        if a != d {
            let k = choose|k: int|
                0 <= k < self.node(d).incoming.len() && 0 <= (#[trigger] self.edge(d, k)).source < d
                    && self.descends(self.edge(d, k).source, a, pass);
            self.lemma_untouched_descends(after, self.edge(d, k).source, a, pass);
            assert(after.edge(d, k) == self.edge(d, k));
        }
    }

    /// New nodes have been made after this arena, which gave `full`, one
    /// strong handle on each; then the view of some of them was made, and
    /// the one handle on each new node was given back, which gave `after`.
    pub proof fn lemma_grown_by(&self, full: &Self, after: &Self, graph: &RelRcGraph)
        requires
            self.wf(),
            full.wf(),
            after.wf(),
            self.len() <= full.len(),
            full.n_registries() == self.n_registries(),
            forall|r: int|
                0 <= r < self.n_registries() ==> #[trigger] full.registry_map(r) == self.registry_map(r),
            forall|i: int| 0 <= i < self.len() ==> #[trigger] full.is_live(i) == self.is_live(i),
            forall|i: int| self.is_live(i) ==> #[trigger] full.node(i) == self.node(i),
            forall|x: int|
                self.len() <= x < full.len() ==> full.is_live(x) && (#[trigger] full.node(x)).handles
                    == 1 && full.node(x).registry is None,
            graph.wf(after),
            graph.closed(after),
            forall|k: int|
                0 <= k < graph.sink_ptrs().len() ==> self.len() <= (#[trigger] graph.sink_ptrs()[k])
                    < full.len(),
            full.given_back(
                after,
                |j: int|
                    if self.len() <= j < full.len() {
                        unbump(more(full.node(j).handles, times(graph.sink_ptrs(), j)))
                    } else {
                        full.node(j).handles
                    },
            ),
        ensures
            self.grown_by(after, graph),
    {
        let all = |j: int| true;
        let base = self.len() as int;
        let ptrs = graph.sink_ptrs();
        let left = |j: int|
            if self.len() <= j < full.len() {
                unbump(more(full.node(j).handles, times(ptrs, j)))
            } else {
                full.node(j).handles
            };
        assert forall|i: int| 0 <= i < base implies #[trigger] after.is_live(i) == self.is_live(
            i,
        ) by {
            if self.is_live(i) {
                self.lemma_alive_iff_held(i);
                let d = choose|d: int|
                    self.is_live(d) && self.node(d).handles > 0 && #[trigger] self.is_ancestor(i, d);
                self.lemma_untouched_descends(full, d, i, all);
                let y = full.node(d);
                assert(left(d) > 0);
                assert(full.is_live(d) && full.is_ancestor(i, d));
                full.lemma_given_back_alive(after, left, i);
            } else {
                assert(!full.is_live(i));
            }
        }
        assert forall|i: int| self.is_live(i) implies #[trigger] after.node(i) == self.node(i) by {
            assert(after.is_live(i));
            let y = full.node(i);
        }
        assert forall|x: int| base <= x < after.len() implies (#[trigger] after.is_live(x)
            <==> graph.nodes().contains(x)) by {
            if graph.nodes().contains(x) {
                graph.lemma_nodes_live(after, x);
            }
            if after.is_live(x) {
                full.lemma_given_back_alive(after, left, x);
                let d = choose|d: int|
                    full.is_live(d) && left(d) > 0 && #[trigger] full.is_ancestor(x, d);
                full.lemma_ancestor_live(x, d);
                let y = full.node(d);
                if !ptrs.contains(d) {
                    lemma_times_none(ptrs, d);
                }
                let k = choose|k: int| 0 <= k < ptrs.len() && ptrs[k] == d;
                assert(after.is_live(ptrs[k]));
                full.lemma_given_back_descends(after, left, d, x, all);
                assert(graph.nodes().contains(ptrs[k]));
                crate::graph_view::serialization::lemma_closed_holds_ancestors(after, graph, d, x);
            }
        }
        assert forall|x: int| base <= x && after.is_live(x) implies (#[trigger] after.node(
            x,
        )).handles == unbump(more(1, times(ptrs, x))) && after.node(x).registry is None by {
            let y = full.node(x);
        }
        assert forall|r: int| 0 <= r < self.n_registries() implies #[trigger] after.registry_map(r)
            == self.registry_map(r) by {
            assert forall|k: u64| full.registry_map(r).contains_key(k) implies !full.reaped(
                after,
                full.registry_map(r)[k],
                r,
            ) by {
                let j = full.registry_map(r)[k];
                if full.is_live(j) && !after.is_live(j) {
                    if j < base {
                        assert(after.is_live(j) == self.is_live(j));
                    } else {
                        let y = full.node(j);
                    }
                }
            }
            assert(after.registry_map(r) =~= full.registry_map(r));
        }
    }
}

/// Making strong handles on some of the nodes from `base` to `top`, one for
/// each element of `ptrs`, and then giving one handle on each of the nodes
/// from `base` to `top` back.
pub proof fn lemma_held_given_back<N, E>(
    before: &Arena<N, E>,
    held: &Arena<N, E>,
    after: &Arena<N, E>,
    base: int,
    top: int,
    ptrs: Seq<int>,
)
    requires
        before.more_held(held),
        forall|x: int|
            before.is_live(x) ==> (#[trigger] held.node(x)).handles == more(
                before.node(x).handles,
                times(ptrs, x),
            ),
        forall|k: int| 0 <= k < ptrs.len() ==> base <= (#[trigger] ptrs[k]) < top,
        held.given_back(
            after,
            |j: int|
                if base <= j < top {
                    unbump(held.node(j).handles)
                } else {
                    held.node(j).handles
                },
        ),
    ensures
        before.given_back(
            after,
            |j: int|
                if base <= j < top {
                    unbump(more(before.node(j).handles, times(ptrs, j)))
                } else {
                    before.node(j).handles
                },
        ),
{
    let goal = |j: int|
        if base <= j < top {
            unbump(more(before.node(j).handles, times(ptrs, j)))
        } else {
            before.node(j).handles
        };
    assert forall|j: int| held.is_live(j) implies (if base <= j < top {
        unbump(held.node(j).handles)
    } else {
        held.node(j).handles
    }) == #[trigger] goal(j) by {
        let y = held.node(j);
        if !(base <= j < top) {
            lemma_times_none(ptrs, j);
        }
    }
    assert forall|j: int| after.is_live(j) implies #[trigger] after.node(j) == (
    crate::node::NodeView { handles: goal(j), ..before.node(j) }) by {
        let y = held.node(j);
        assert(held.is_live(j));
    }
    assert forall|j: int| #[trigger] before.is_live(j) && !after.is_live(j) implies goal(j)
        == 0 by {
        assert(held.is_live(j));
    }
    assert forall|r: int, k: u64| 0 <= r < before.n_registries() implies (
    #[trigger] after.registry_map(r).contains_key(k) <==> before.registry_map(r).contains_key(k)
        && !before.reaped(after, before.registry_map(r)[k], r)) by {
        let j = before.registry_map(r)[k];
        assert(held.registry_map(r) == before.registry_map(r));
        if held.is_live(j) {
            let y = held.node(j);
        }
    }
    assert forall|r: int, k: u64|
        0 <= r < before.n_registries() && #[trigger] after.registry_map(r).contains_key(
            k,
        ) implies after.registry_map(r)[k] == before.registry_map(r)[k] by {
        assert(held.registry_map(r) == before.registry_map(r));
    }
}

/// What is no element of a sequence does not occur in it.
pub proof fn lemma_times_none(s: Seq<int>, x: int)
    requires
        forall|k: int| 0 <= k < s.len() ==> s[k] != x,
    ensures
        times(s, x) == 0,
    decreases s.len(),
{
    if s.len() > 0 {
        lemma_times_none(s.skip(1), x);
    }
}

/// An element of a sequence occurs in it.
pub proof fn lemma_times_has(s: Seq<int>, j: int, x: int)
    requires
        0 <= j < s.len(),
        s[j] == x,
    ensures
        times(s, x) >= 1,
    decreases j,
{
    if j > 0 {
        lemma_times_has(s.skip(1), j - 1, x);
    }
}

/// The set of positions that a set of machine integers stands for is finite.
pub proof fn lemma_nodes_finite(s: Set<usize>)
    requires
        s.finite(),
    ensures
        Set::new(|i: int| 0 <= i <= usize::MAX && s.contains(i as usize)).finite(),
        Set::new(|i: int| 0 <= i <= usize::MAX && s.contains(i as usize)).len() == s.len(),
    decreases s.len(),
{
    let t = Set::new(|i: int| 0 <= i <= usize::MAX && s.contains(i as usize));
    if s.len() == 0 {
        assert(s =~= Set::<usize>::empty());
        assert(t =~= Set::<int>::empty());
    } else {
        let x = s.choose();
        lemma_nodes_finite(s.remove(x));
        let t0 = Set::new(|i: int| 0 <= i <= usize::MAX && s.remove(x).contains(i as usize));
        assert(t =~= t0.insert(x as int));
    }
}

/// A test that always holds lets every path pass.
pub proof fn lemma_always_passes<N, E>(
    arena: &Arena<N, E>,
    d: int,
    a: int,
    pass: spec_fn(int) -> bool,
)
    requires
        forall|i: int| arena.is_live(i) ==> #[trigger] pass(i),
    ensures
        arena.descends(d, a, pass) == arena.is_ancestor(a, d),
    decreases d,
{
    let all = |i: int| true;
    if arena.is_live(d) && a != d {
        assert forall|k: int|
            0 <= k < arena.node(d).incoming.len() && 0 <= (#[trigger] arena.edge(d, k)).source
                < d implies arena.descends(arena.edge(d, k).source, a, pass) == arena.descends(
            arena.edge(d, k).source,
            a,
            all,
        ) by {
            lemma_always_passes(arena, arena.edge(d, k).source, a, pass);
        }
    }
}

/// What can be reached through passing nodes is an ancestor.
pub proof fn lemma_pass_is_ancestor<N, E>(
    arena: &Arena<N, E>,
    d: int,
    a: int,
    pass: spec_fn(int) -> bool,
)
    requires
        arena.descends(d, a, pass),
    ensures
        arena.is_ancestor(a, d),
    decreases d,
{
    if a != d {
        let k = choose|k: int|
            0 <= k < arena.node(d).incoming.len() && 0 <= (#[trigger] arena.edge(d, k)).source < d
                && arena.descends(arena.edge(d, k).source, a, pass);
        lemma_pass_is_ancestor(arena, arena.edge(d, k).source, a, pass);
    }
}

/// A map by positions has as many entries as the map by machine integers that
/// it stands for.
pub proof fn lemma_positions_len<V>(m: Map<usize, V>, by_position: Map<int, V>)
    requires
        m.dom().finite(),
        forall|i: int| by_position.contains_key(i) <==> 0 <= i <= usize::MAX && m.contains_key(i as usize),
    ensures
        by_position.dom().finite(),
        by_position.len() == m.len(),
    decreases m.len(),
{
    if m.len() == 0 {
        assert(m.dom() =~= Set::<usize>::empty());
        assert(by_position.dom() =~= Set::<int>::empty());
    } else {
        let x = m.dom().choose();
        lemma_positions_len(m.remove(x), by_position.remove(x as int));
        assert(by_position.dom() =~= by_position.remove(x as int).dom().insert(x as int));
    }
}

/// Two lists of positions merged into one, the way two sorted lists are
/// merged: the smaller of the two heads comes first, and of two equal heads
/// one is dropped.
pub open spec fn merged(a: Seq<int>, b: Seq<int>) -> Seq<int>
    decreases a.len() + b.len(),
{
    if a.len() == 0 {
        b
    } else if b.len() == 0 {
        a
    } else if a[0] < b[0] {
        seq![a[0]] + merged(a.drop_first(), b)
    } else if a[0] > b[0] {
        seq![b[0]] + merged(a, b.drop_first())
    } else {
        seq![a[0]] + merged(a.drop_first(), b.drop_first())
    }
}

/// Whether a list of positions is sorted, without duplicates.
pub open spec fn increasing(s: Seq<int>) -> bool {
    forall|i: int, j: int| 0 <= i < j < s.len() ==> s[i] < s[j]
}

/// Merging keeps what the two lists hold, and nothing else.
pub proof fn lemma_merged_holds(a: Seq<int>, b: Seq<int>, x: int)
    ensures
        merged(a, b).contains(x) <==> a.contains(x) || b.contains(x),
    decreases a.len() + b.len(),
{
    if a.len() > 0 && b.len() > 0 {
        let m = merged(a, b);
        if a[0] < b[0] {
            lemma_merged_holds(a.drop_first(), b, x);
            lemma_cons_holds(a[0], merged(a.drop_first(), b), x);
            lemma_cons_holds(a[0], a.drop_first(), x);
            assert(seq![a[0]] + a.drop_first() =~= a);
        } else if a[0] > b[0] {
            lemma_merged_holds(a, b.drop_first(), x);
            lemma_cons_holds(b[0], merged(a, b.drop_first()), x);
            lemma_cons_holds(b[0], b.drop_first(), x);
            assert(seq![b[0]] + b.drop_first() =~= b);
        } else {
            lemma_merged_holds(a.drop_first(), b.drop_first(), x);
            lemma_cons_holds(a[0], merged(a.drop_first(), b.drop_first()), x);
            lemma_cons_holds(a[0], a.drop_first(), x);
            lemma_cons_holds(b[0], b.drop_first(), x);
            assert(seq![a[0]] + a.drop_first() =~= a);
            assert(seq![b[0]] + b.drop_first() =~= b);
        }
    }
}

/// A list with one more element at its head holds that element and what the
/// list holds.
pub proof fn lemma_cons_holds(head: int, tail: Seq<int>, x: int)
    ensures
        (seq![head] + tail).contains(x) <==> x == head || tail.contains(x),
{
    let s = seq![head] + tail;
    if s.contains(x) {
        let j = choose|j: int| 0 <= j < s.len() && s[j] == x;
        if j > 0 {
            assert(tail[j - 1] == x);
        }
    }
    if tail.contains(x) {
        let j = choose|j: int| 0 <= j < tail.len() && tail[j] == x;
        assert(s[j + 1] == x);
    }
    if x == head {
        assert(s[0] == x);
    }
}

/// Merging two sorted lists without duplicates gives a sorted list without
/// duplicates.
pub proof fn lemma_merged_increasing(a: Seq<int>, b: Seq<int>)
    requires
        increasing(a),
        increasing(b),
    ensures
        increasing(merged(a, b)),
    decreases a.len() + b.len(),
{
    if a.len() > 0 && b.len() > 0 {
        let (head, rest) = if a[0] < b[0] {
            (a[0], merged(a.drop_first(), b))
        } else if a[0] > b[0] {
            (b[0], merged(a, b.drop_first()))
        } else {
            (a[0], merged(a.drop_first(), b.drop_first()))
        };
        if a[0] < b[0] {
            lemma_merged_increasing(a.drop_first(), b);
        } else if a[0] > b[0] {
            lemma_merged_increasing(a, b.drop_first());
        } else {
            lemma_merged_increasing(a.drop_first(), b.drop_first());
        }
        let m = merged(a, b);
        assert(m =~= seq![head] + rest);
        assert forall|i: int, j: int| 0 <= i < j < m.len() implies m[i] < m[j] by {
            if i == 0 {
                let x = rest[j - 1];
                assert(rest.contains(x));
                if a[0] < b[0] {
                    lemma_merged_holds(a.drop_first(), b, x);
                } else if a[0] > b[0] {
                    lemma_merged_holds(a, b.drop_first(), x);
                } else {
                    lemma_merged_holds(a.drop_first(), b.drop_first(), x);
                }
                if a.contains(x) {
                    let k = choose|k: int| 0 <= k < a.len() && a[k] == x;
                    assert(a[0] <= a[k]);
                }
                if b.contains(x) {
                    let k = choose|k: int| 0 <= k < b.len() && b[k] == x;
                    assert(b[0] <= b[k]);
                }
                if a.drop_first().contains(x) {
                    let k = choose|k: int| 0 <= k < a.drop_first().len() && a.drop_first()[k] == x;
                    assert(a[0] < a[k + 1]);
                }
                if b.drop_first().contains(x) {
                    let k = choose|k: int| 0 <= k < b.drop_first().len() && b.drop_first()[k] == x;
                    assert(b[0] < b[k + 1]);
                }
            } else {
                assert(rest[i - 1] < rest[j - 1]);
            }
        }
    }
}

impl<N, E> Arena<N, E> {
    /// `after` is this arena with more strong handles on some of its nodes.
    pub open spec fn more_held(&self, after: &Self) -> bool {
        &&& after.len() == self.len()
        &&& after.same_tables(self)
        &&& forall|i: int| after.is_live(i) == self.is_live(i)
        &&& forall|i: int|
            self.is_live(i) ==> #[trigger] after.node(i) == (crate::node::NodeView {
                handles: after.node(i).handles,
                ..self.node(i)
            }) && after.node(i).handles >= self.node(i).handles
    }

    /// What can be reached in an arena can be reached in the arena with more
    /// strong handles.
    pub proof fn lemma_more_held_descends(&self, after: &Self, d: int, a: int, pass: spec_fn(int) -> bool)
        requires
            self.more_held(after),
            self.descends(d, a, pass),
        ensures
            after.descends(d, a, pass),
        decreases d,
    {
        let x = after.node(d);
        if a != d {
            let k = choose|k: int|
                0 <= k < self.node(d).incoming.len() && 0 <= (#[trigger] self.edge(d, k)).source < d
                    && self.descends(self.edge(d, k).source, a, pass);
            self.lemma_more_held_descends(after, self.edge(d, k).source, a, pass);
            assert(after.edge(d, k) == self.edge(d, k));
        }
    }
}

/// The number of handles on a node that had `c` of them after `n` more have
/// been made.
pub open spec fn more(c: nat, n: nat) -> nat {
    if c >= usize::MAX {
        c
    } else if c + n >= usize::MAX {
        usize::MAX as nat
    } else {
        c + n
    }
}

/// Whether the handles are accounted for while two lists are merged: `done`
/// holds what has been moved from the first list, `first`, and what has been
/// taken from the second, `taken`, and for each of the latter a strong
/// handle has been made.
pub open spec fn accounted<N, E>(
    before: &Arena<N, E>,
    now: &Arena<N, E>,
    first: Seq<int>,
    taken: Seq<int>,
    done: Seq<int>,
) -> bool {
    &&& forall|x: int| #[trigger] times(done, x) == times(first, x) + times(taken, x)
    &&& forall|x: int|
        before.is_live(x) ==> (#[trigger] now.node(x)).handles == more(
            before.node(x).handles,
            times(taken, x),
        )
}

/// One more element occurs once more.
pub proof fn lemma_times_push(s: Seq<int>, v: int, x: int)
    ensures
        times(s.push(v), x) == times(s, x) + if v == x {
            1nat
        } else {
            0nat
        },
{
    let t = s.push(v);
    lemma_times_split(t, s.len() as int, x);
    assert(t.take(s.len() as int) =~= s);
    assert(t.skip(s.len() as int) =~= seq![v]);
    assert(seq![v].skip(1) =~= Seq::<int>::empty());
    assert(times(seq![v], x) == times(seq![v].skip(1), x) + if v == x {
        1nat
    } else {
        0nat
    });
}

/// Moving a handle of the first list keeps the account.
pub proof fn lemma_accounted_kept<N, E>(
    before: &Arena<N, E>,
    now: &Arena<N, E>,
    first: Seq<int>,
    taken: Seq<int>,
    done: Seq<int>,
    v: int,
)
    requires
        accounted(before, now, first, taken, done),
    ensures
        accounted(before, now, first.push(v), taken, done.push(v)),
{
    assert forall|x: int| #[trigger]
        times(done.push(v), x) == times(first.push(v), x) + times(taken, x) by {
        lemma_times_push(done, v, x);
        lemma_times_push(first, v, x);
        assert(times(done, x) == times(first, x) + times(taken, x));
    }
}

/// Making a handle for one of the second list keeps the account.
pub proof fn lemma_accounted_taken<N, E>(
    before: &Arena<N, E>,
    mid: &Arena<N, E>,
    now: &Arena<N, E>,
    first: Seq<int>,
    taken: Seq<int>,
    done: Seq<int>,
    v: int,
)
    requires
        accounted(before, mid, first, taken, done),
        before.more_held(mid),
        mid.held(now, v),
    ensures
        accounted(before, now, first, taken.push(v), done.push(v)),
{
    assert forall|x: int| #[trigger]
        times(done.push(v), x) == times(first, x) + times(taken.push(v), x) by {
        lemma_times_push(done, v, x);
        lemma_times_push(taken, v, x);
        assert(times(done, x) == times(first, x) + times(taken, x));
    }
    assert forall|x: int| before.is_live(x) implies (#[trigger] now.node(x)).handles == more(
        before.node(x).handles,
        times(taken.push(v), x),
    ) by {
        lemma_times_push(taken, v, x);
        let y = mid.node(x);
        assert(mid.is_live(x));
    }
}

/// Merges the second list of handles into the first, by the positions of the
/// nodes, the way two sorted lists are merged. Of two handles on the same
/// node that meet, the one of the second list is left out. For every handle
/// that is taken from the second list, a strong handle is made.
pub fn merge_sorted_vecs_by_key<N, E>(arena: &mut Arena<N, E>, vec1: &mut Vec<RelRc>, vec2: &Vec<RelRc>)
    requires
        old(arena).wf(),
        forall|k: int| 0 <= k < vec2@.len() ==> old(arena).is_live((#[trigger] vec2@[k])@),
    ensures
        final(arena).wf(),
        old(arena).more_held(final(arena)),
        final(vec1)@.map_values(|n: RelRc| n@) == merged(
            old(vec1)@.map_values(|n: RelRc| n@),
            vec2@.map_values(|n: RelRc| n@),
        ),
        forall|x: int|
            old(arena).is_live(x) ==> (#[trigger] final(arena).node(x)).handles == more(
                old(arena).node(x).handles,
                (times(final(vec1)@.map_values(|n: RelRc| n@), x) - times(
                    old(vec1)@.map_values(|n: RelRc| n@),
                    x,
                )) as nat,
            ),
{
    let ghost a = vec1@.map_values(|n: RelRc| n@);
    let ghost b = vec2@.map_values(|n: RelRc| n@);
    let mut result: Vec<RelRc> = Vec::new();
    let mut i: usize = 0;
    let mut j: usize = 0;
    let ghost taken = Seq::<int>::empty();
    proof {
        assert(a.take(0) =~= Seq::<int>::empty());
        assert(a.skip(0) =~= a);
        assert(b.skip(0) =~= b);
        assert(result@.map_values(|n: RelRc| n@) + merged(a, b) =~= merged(a, b));
    }
    while i < vec1.len() && j < vec2.len()
        invariant
            i <= vec1@.len(),
            j <= vec2@.len(),
            arena.wf(),
            old(arena).more_held(arena),
            forall|k: int| 0 <= k < vec2@.len() ==> old(arena).is_live((#[trigger] vec2@[k])@),
            a == vec1@.map_values(|n: RelRc| n@),
            b == vec2@.map_values(|n: RelRc| n@),
            result@.map_values(|n: RelRc| n@) + merged(a.skip(i as int), b.skip(j as int)) == merged(
                a,
                b,
            ),
            accounted(old(arena), arena, a.take(i as int), taken, result@.map_values(|n: RelRc| n@)),
        decreases vec1@.len() - i + vec2@.len() - j,
    {
        let ghost done = result@.map_values(|n: RelRc| n@);
        let ghost ra = a.skip(i as int);
        let ghost rb = b.skip(j as int);
        let ghost prev = *arena;
        let key1 = vec1[i].as_ptr();
        let key2 = vec2[j].as_ptr();
        proof {
            assert(ra[0] == key1);
            assert(rb[0] == key2);
            assert(ra.drop_first() =~= a.skip(i + 1));
            assert(rb.drop_first() =~= b.skip(j + 1));
        }
        let ghost first = a.take(i as int);
        let ghost taken0 = taken;
        if key1 < key2 {
            result.push(RelRc { ptr: key1 });
            i += 1;
        } else if key1 > key2 {
            result.push(arena.hold(key2));
            proof {
                taken = taken.push(key2 as int);
            }
            j += 1;
        } else {
            result.push(RelRc { ptr: key1 });
            i += 1;
            j += 1;
        }
        proof {
            let now = result@.map_values(|n: RelRc| n@);
            assert(now =~= done.push(now[now.len() - 1]));
            if key1 > key2 {
                lemma_accounted_taken(old(arena), &prev, arena, first, taken0, done, key2 as int);
            } else {
                assert(a.take(i as int) =~= first.push(key1 as int));
                lemma_accounted_kept(old(arena), arena, first, taken, done, key1 as int);
            }
            assert(now + merged(a.skip(i as int), b.skip(j as int)) =~= done + merged(ra, rb));
            assert forall|x: int| old(arena).is_live(x) implies #[trigger] arena.node(x) == (
            crate::node::NodeView {
                handles: arena.node(x).handles,
                ..old(arena).node(x)
            }) && arena.node(x).handles >= old(arena).node(x).handles by {
                let y = prev.node(x);
            }
        }
    }
    while i < vec1.len()
        invariant
            i <= vec1@.len(),
            j <= vec2@.len(),
            i == vec1@.len() || j == vec2@.len(),
            a == vec1@.map_values(|n: RelRc| n@),
            b == vec2@.map_values(|n: RelRc| n@),
            result@.map_values(|n: RelRc| n@) + merged(a.skip(i as int), b.skip(j as int)) == merged(
                a,
                b,
            ),
            old(arena).more_held(arena),
            accounted(old(arena), arena, a.take(i as int), taken, result@.map_values(|n: RelRc| n@)),
        decreases vec1@.len() - i,
    {
        let ghost done = result@.map_values(|n: RelRc| n@);
        let ghost ra = a.skip(i as int);
        proof {
            assert(b.skip(j as int).len() == 0);
            assert(ra[0] == vec1@[i as int]@);
            assert(merged(ra, b.skip(j as int)) == ra);
            assert(merged(a.skip(i + 1), b.skip(j as int)) == a.skip(i + 1));
        }
        let ghost first = a.take(i as int);
        result.push(RelRc { ptr: vec1[i].as_ptr() });
        i += 1;
        proof {
            let now = result@.map_values(|n: RelRc| n@);
            assert(now =~= done.push(ra[0]));
            assert(a.take(i as int) =~= first.push(ra[0]));
            lemma_accounted_kept(old(arena), arena, first, taken, done, ra[0]);
            assert(now + a.skip(i as int) =~= done + ra);
        }
    }
    while j < vec2.len()
        invariant
            i == vec1@.len(),
            j <= vec2@.len(),
            arena.wf(),
            old(arena).more_held(arena),
            forall|k: int| 0 <= k < vec2@.len() ==> old(arena).is_live((#[trigger] vec2@[k])@),
            a == vec1@.map_values(|n: RelRc| n@),
            b == vec2@.map_values(|n: RelRc| n@),
            result@.map_values(|n: RelRc| n@) + merged(a.skip(i as int), b.skip(j as int)) == merged(
                a,
                b,
            ),
            accounted(old(arena), arena, a.take(i as int), taken, result@.map_values(|n: RelRc| n@)),
        decreases vec2@.len() - j,
    {
        let ghost done = result@.map_values(|n: RelRc| n@);
        let ghost rb = b.skip(j as int);
        let ghost prev = *arena;
        proof {
            assert(a.skip(i as int).len() == 0);
            assert(rb[0] == vec2@[j as int]@);
            assert(merged(a.skip(i as int), rb) == rb);
            assert(merged(a.skip(i as int), b.skip(j + 1)) == b.skip(j + 1));
        }
        let ghost taken0 = taken;
        result.push(arena.hold(vec2[j].as_ptr()));
        j += 1;
        proof {
            taken = taken.push(rb[0]);
            let now = result@.map_values(|n: RelRc| n@);
            assert(now =~= done.push(rb[0]));
            lemma_accounted_taken(old(arena), &prev, arena, a.take(i as int), taken0, done, rb[0]);
            assert(now + b.skip(j as int) =~= done + rb);
            assert forall|x: int| old(arena).is_live(x) implies #[trigger] arena.node(x) == (
            crate::node::NodeView {
                handles: arena.node(x).handles,
                ..old(arena).node(x)
            }) && arena.node(x).handles >= old(arena).node(x).handles by {
                let y = prev.node(x);
            }
        }
    }
    proof {
        assert(a.skip(i as int).len() == 0);
        assert(b.skip(j as int).len() == 0);
        assert(merged(a.skip(i as int), b.skip(j as int)) =~= Seq::<int>::empty());
        assert(result@.map_values(|n: RelRc| n@) + Seq::<int>::empty() =~= result@.map_values(
            |n: RelRc| n@,
        ));
        assert(a.take(i as int) =~= a);
        assert forall|x: int| old(arena).is_live(x) implies (#[trigger] arena.node(x)).handles
            == more(old(arena).node(x).handles, (times(merged(a, b), x) - times(a, x)) as nat) by {
            assert(times(merged(a, b), x) == times(a, x) + times(taken, x));
        }
    }
    *vec1 = result;
}

impl<N, E> Arena<N, E> {
    /// The outgoing edges of the node at position `n` whose target is in
    /// `mine` and not in `theirs`, in the order in which the edges were made.
    pub open spec fn unique_edges(&self, n: int, mine: Set<int>, theirs: Set<int>) -> Seq<
        crate::edge::EdgeView<E>,
    > {
        edges_within(self.node(n).outgoing, mine.difference(theirs)).map_values(
            |w: (int, int)| self.edge(w.0, w.1),
        )
    }
}

/// Whether the callback has been asked about the node at position `n`, which
/// is in both views, with the outgoing edges of the node that only the first
/// view has and those that only the second view has, and has answered
/// `answer`.
pub open spec fn asked<N, E, Ex, F: Fn(NodeId, &[&InnerEdgeData<E>], &[&InnerEdgeData<E>]) -> Result<
    (),
    Ex,
>>(
    callback: F,
    arena: &Arena<N, E>,
    n: int,
    mine: Set<int>,
    theirs: Set<int>,
    answer: Result<(), Ex>,
) -> bool {
    exists|id: NodeId, es1: &[&InnerEdgeData<E>], es2: &[&InnerEdgeData<E>]|
        #![trigger call_ensures(callback, (id, es1, es2), answer)]
        {
            &&& id@ == n
            &&& es1@.map_values(|e: &InnerEdgeData<E>| e@) == arena.unique_edges(n, mine, theirs)
            &&& es2@.map_values(|e: &InnerEdgeData<E>| e@) == arena.unique_edges(n, theirs, mine)
            &&& call_ensures(callback, (id, es1, es2), answer)
        }
}

/// Whether the callback has been asked about the node at position `n`, and
/// has agreed to the merge.
pub open spec fn agreed<N, E, Ex, F: Fn(NodeId, &[&InnerEdgeData<E>], &[&InnerEdgeData<E>]) -> Result<
    (),
    Ex,
>>(callback: F, arena: &Arena<N, E>, n: int, mine: Set<int>, theirs: Set<int>) -> bool {
    exists|u: ()| #[trigger] asked(callback, arena, n, mine, theirs, Ok::<(), Ex>(u))
}

impl RelRcGraph {
    /// The outgoing edges of the node at position `n` whose target is in this
    /// view and not in the other.
    fn edges_only_here<'a, N, E>(&self, arena: &'a Arena<N, E>, other: &Self, n: usize) -> (es: Vec<
        &'a InnerEdgeData<E>,
    >)
        requires
            arena.wf(),
            self.wf(arena),
            arena.is_live(n as int),
        ensures
            es@.map_values(|e: &InnerEdgeData<E>| e@) == arena.unique_edges(
                n as int,
                self.nodes(),
                other.nodes(),
            ),
    {
        let data = arena.slots[n].as_ref().unwrap();
        let ghost out = arena.node(n as int).outgoing;
        let ghost keep = self.nodes().difference(other.nodes());
        let mut es: Vec<&'a InnerEdgeData<E>> = Vec::new();
        let mut j: usize = 0;
        while j < data.outgoing.len()
            invariant
                j <= data.outgoing@.len(),
                arena.wf(),
                self.wf(arena),
                arena.is_live(n as int),
                data == arena.slots@[n as int].unwrap(),
                out == arena.node(n as int).outgoing,
                keep == self.nodes().difference(other.nodes()),
                es@.map_values(|e: &InnerEdgeData<E>| e@) == edges_within(
                    out.take(j as int),
                    keep,
                ).map_values(|w: (int, int)| arena.edge(w.0, w.1)),
            decreases data.outgoing@.len() - j,
        {
            let w = data.outgoing[j];
            let ghost done = edges_within(out.take(j as int), keep);
            proof {
                assert(arena.out(n as int, j as int) == w@);
                assert(out.take(j + 1).drop_last() == out.take(j as int));
                assert(out.take(j + 1).last() == w@);
            }
            let t = w.target.ptr;
            if self.all_nodes.contains(&t) && !other.all_nodes.contains(&t) {
                proof {
                    self.lemma_nodes_live(arena, t as int);
                }
                let target = arena.slots[t].as_ref().unwrap();
                let e = &target.incoming[w.index];
                let ghost es0 = es@.map_values(|e: &InnerEdgeData<E>| e@);
                es.push(e);
                proof {
                    assert(arena.out(n as int, j as int).1 < arena.node(t as int).incoming.len());
                    assert(e@ == arena.edge(w@.0, w@.1));
                    assert(es@.map_values(|e: &InnerEdgeData<E>| e@) =~= es0.push(e@));
                    assert(done.push(w@).map_values(|w: (int, int)| arena.edge(w.0, w.1))
                        =~= done.map_values(|w: (int, int)| arena.edge(w.0, w.1)).push(
                        arena.edge(w@.0, w@.1),
                    ));
                }
            }
            j += 1;
        }
        assert(out.take(data.outgoing@.len() as int) == out);
        es
    }

    /// Merges another view into this one.
    ///
    /// For every node that is in both views the callback is asked with the
    /// outgoing edges of the node that only this view has, and those that
    /// only the other view has. If the callback answers with an error,
    /// nothing is merged and the error is returned. Otherwise this view gets
    /// the nodes of the other, and its sinks, with a strong handle of its own
    /// on each sink that it did not have.
    pub fn merge<N, E, Ex, F: Fn(NodeId, &[&InnerEdgeData<E>], &[&InnerEdgeData<E>]) -> Result<
        (),
        Ex,
    >>(&mut self, arena: &mut Arena<N, E>, other: &Self, callback: F) -> (r: Result<(), Ex>)
        requires
            old(arena).wf(),
            old(self).wf(old(arena)),
            other.wf(old(arena)),
            forall|id: NodeId, es1: &[&InnerEdgeData<E>], es2: &[&InnerEdgeData<E>]|
                call_requires(callback, (id, es1, es2)),
        ensures
            final(arena).wf(),
            old(arena).more_held(final(arena)),
            r is Ok ==> {
                &&& final(self).wf(final(arena))
                &&& final(self).nodes() == old(self).nodes().union(other.nodes())
                &&& final(self).sink_ptrs() == merged(old(self).sink_ptrs(), other.sink_ptrs())
                &&& forall|x: int|
                    old(arena).is_live(x) ==> (#[trigger] final(arena).node(x)).handles == more(
                        old(arena).node(x).handles,
                        (times(final(self).sink_ptrs(), x) - times(old(self).sink_ptrs(), x)) as nat,
                    )
                &&& forall|n: int|
                    old(self).nodes().contains(n) && other.nodes().contains(n) ==> agreed(
                        callback,
                        old(arena),
                        n,
                        old(self).nodes(),
                        other.nodes(),
                    )
            },
            r matches Err(e) ==> {
                &&& *final(self) == *old(self)
                &&& *final(arena) == *old(arena)
                &&& exists|n: int|
                    old(self).nodes().contains(n) && other.nodes().contains(n) && #[trigger] asked(
                        callback,
                        old(arena),
                        n,
                        old(self).nodes(),
                        other.nodes(),
                        Err::<(), Ex>(e),
                    )
            },
    {
        let theirs = set_to_vec(&other.all_nodes);
        let ghost mine_set = self.nodes();
        let ghost their_set = other.nodes();
        let mut j: usize = 0;
        while j < theirs.len()
            invariant
                j <= theirs@.len(),
                *self == *old(self),
                *arena == *old(arena),
                arena.wf(),
                self.wf(arena),
                other.wf(arena),
                mine_set == self.nodes(),
                their_set == other.nodes(),
                theirs@.to_set() == other.all_nodes@,
                forall|id: NodeId, es1: &[&InnerEdgeData<E>], es2: &[&InnerEdgeData<E>]|
                    call_requires(callback, (id, es1, es2)),
                forall|j2: int|
                    0 <= j2 < j && mine_set.contains(#[trigger] theirs@[j2] as int) ==> agreed(
                        callback,
                        arena,
                        theirs@[j2] as int,
                        mine_set,
                        their_set,
                    ),
            decreases theirs@.len() - j,
        {
            let n = theirs[j];
            proof {
                assert(theirs@.to_set().contains(n));
                assert(their_set.contains(n as int));
            }
            if self.all_nodes.contains(&n) {
                proof {
                    self.lemma_nodes_live(arena, n as int);
                }
                let es1 = self.edges_only_here(arena, other, n);
                let es2 = other.edges_only_here(arena, self, n);
                let id = NodeId(n);
                let s1 = es1.as_slice();
                let s2 = es2.as_slice();
                let answer = callback(id, s1, s2);
                let ghost ans = answer;
                match answer {
                    Ok(u) => {
                        assert(ans == Ok::<(), Ex>(u));
                        assert(asked(callback, arena, n as int, mine_set, their_set, Ok::<(), Ex>(u))) by {
                            assert(call_ensures(callback, (id, s1, s2), Ok::<(), Ex>(u)));
                        }
                    },
                    Err(e) => {
                        assert(ans == Err::<(), Ex>(e));
                        assert(asked(
                            callback,
                            arena,
                            n as int,
                            mine_set,
                            their_set,
                            Err::<(), Ex>(e),
                        )) by {
                            assert(call_ensures(callback, (id, s1, s2), Err::<(), Ex>(e)));
                        }
                        return Err(e);
                    },
                }
            }
            j += 1;
        }
        proof {
            assert forall|n: int| mine_set.contains(n) && their_set.contains(n) implies agreed(
                callback,
                arena,
                n,
                mine_set,
                their_set,
            ) by {
                assert(theirs@.to_set().contains(n as usize));
                assert(theirs@.contains(n as usize));
                let j2 = choose|j2: int| 0 <= j2 < theirs@.len() && theirs@[j2] == n as usize;
                assert(mine_set.contains(theirs@[j2] as int));
            }
        }
        // The nodes of the other view.
        let mut nodes = self.all_nodes.clone();
        proof {
            use_type_invariant(&*self);
        }
        let mut j: usize = 0;
        while j < theirs.len()
            invariant
                j <= theirs@.len(),
                *self == *old(self),
                nodes@.finite(),
                theirs@.to_set() == other.all_nodes@,
                forall|x: usize|
                    nodes@.contains(x) <==> old(self).all_nodes@.contains(x) || theirs@.take(
                        j as int,
                    ).contains(x),
            decreases theirs@.len() - j,
        {
            let n = theirs[j];
            nodes.insert(n);
            proof {
                let t0 = theirs@.take(j as int);
                let t1 = theirs@.take(j + 1);
                assert forall|x: usize|
                    nodes@.contains(x) <==> old(self).all_nodes@.contains(x) || t1.contains(x) by {
                    if t1.contains(x) {
                        let k = choose|k: int| 0 <= k < t1.len() && t1[k] == x;
                        if k < j {
                            assert(t0[k] == x);
                        }
                    }
                    if t0.contains(x) {
                        let k = choose|k: int| 0 <= k < t0.len() && t0[k] == x;
                        assert(t1[k] == x);
                    }
                    if x == n {
                        assert(t1[j as int] == x);
                    }
                }
            }
            j += 1;
        }
        assert(theirs@.take(theirs@.len() as int) == theirs@);
        let ghost before_sinks = self.sink_ptrs();
        let mut sinks: Vec<RelRc> = Vec::new();
        let mut k: usize = 0;
        while k < self.sinks.len()
            invariant
                k <= self.sinks@.len(),
                *self == *old(self),
                sinks@.map_values(|n: RelRc| n@) == self.sink_ptrs().take(k as int),
            decreases self.sinks@.len() - k,
        {
            sinks.push(RelRc { ptr: self.sinks[k].as_ptr() });
            assert(self.sink_ptrs().take(k + 1) == self.sink_ptrs().take(k as int).push(
                self.sinks@[k as int]@,
            ));
            k += 1;
        }
        assert(self.sink_ptrs().take(self.sinks@.len() as int) == self.sink_ptrs());
        proof {
            assert forall|k: int| 0 <= k < other.sinks@.len() implies arena.is_live(
                (#[trigger] other.sinks@[k])@,
            ) by {
                assert(other.sink_ptrs()[k] == other.sinks@[k]@);
            }
        }
        merge_sorted_vecs_by_key(arena, &mut sinks, &other.sinks);
        self.all_nodes = nodes;
        self.sinks = sinks;
        proof {
            let all = |i: int| true;
            assert(self.nodes() =~= mine_set.union(their_set)) by {
                assert forall|i: int| self.nodes().contains(i) <==> mine_set.union(their_set).contains(
                    i,
                ) by {
                    if 0 <= i <= usize::MAX {
                        if theirs@.contains(i as usize) {
                            assert(theirs@.to_set().contains(i as usize));
                        }
                        if other.all_nodes@.contains(i as usize) {
                            assert(theirs@.to_set().contains(i as usize));
                        }
                    }
                }
            }
            lemma_nodes_finite(self.all_nodes@);
            assert forall|k: int| 0 <= k < self.sink_ptrs().len() implies arena.is_live(
                #[trigger] self.sink_ptrs()[k],
            ) by {
                let x = self.sink_ptrs()[k];
                assert(self.sink_ptrs().contains(x));
                lemma_merged_holds(before_sinks, other.sink_ptrs(), x);
                if before_sinks.contains(x) {
                    let k2 = choose|k2: int| 0 <= k2 < before_sinks.len() && before_sinks[k2] == x;
                    assert(old(arena).is_live(before_sinks[k2]));
                } else {
                    let k2 = choose|k2: int|
                        0 <= k2 < other.sink_ptrs().len() && other.sink_ptrs()[k2] == x;
                    assert(old(arena).is_live(other.sink_ptrs()[k2]));
                }
            }
            assert forall|i: int| #[trigger] self.nodes().contains(i) implies exists|k: int|
                0 <= k < self.sink_ptrs().len() && arena.is_ancestor(
                    i,
                    #[trigger] self.sink_ptrs()[k],
                ) by {
                let s = if mine_set.contains(i) {
                    let k2 = choose|k2: int|
                        0 <= k2 < before_sinks.len() && old(arena).is_ancestor(
                            i,
                            #[trigger] before_sinks[k2],
                        );
                    assert(before_sinks.contains(before_sinks[k2]));
                    before_sinks[k2]
                } else {
                    let k2 = choose|k2: int|
                        0 <= k2 < other.sink_ptrs().len() && old(arena).is_ancestor(
                            i,
                            #[trigger] other.sink_ptrs()[k2],
                        );
                    assert(other.sink_ptrs().contains(other.sink_ptrs()[k2]));
                    other.sink_ptrs()[k2]
                };
                lemma_merged_holds(before_sinks, other.sink_ptrs(), s);
                let k = choose|k: int| 0 <= k < self.sink_ptrs().len() && self.sink_ptrs()[k] == s;
                old(arena).lemma_more_held_descends(arena, s, i, all);
                assert(arena.is_ancestor(i, self.sink_ptrs()[k]));
            }
        }
        Ok(())
    }
}

/// Whether the `g`-th view holds the node at position `n` and the node at
/// position `t`.
pub open spec fn holds_both(graphs: Seq<&RelRcGraph>, g: int, n: int, t: int) -> bool {
    0 <= g < graphs.len() && graphs[g].nodes().contains(n) && graphs[g].nodes().contains(t)
}

/// Whether the `g`-th view holds the node at position `n` and not the node at
/// position `t`.
pub open spec fn holds_first(graphs: Seq<&RelRcGraph>, g: int, n: int, t: int) -> bool {
    0 <= g < graphs.len() && graphs[g].nodes().contains(n) && !graphs[g].nodes().contains(t)
}

/// Whether the views that hold the node at position `n` part at the node at
/// position `t`: one of them holds it, and one of them does not.
pub open spec fn part_at(graphs: Seq<&RelRcGraph>, n: int, t: int) -> bool {
    (exists|g: int| #[trigger] holds_both(graphs, g, n, t)) && (exists|g: int| #[trigger]
        holds_first(graphs, g, n, t))
}

/// Whether the node at position `n` is a lowest common ancestor of the views:
/// it is in two of the views at least, and it has an outgoing edge that is not
/// in all the views that hold the node.
pub open spec fn is_lowest_common<N, E>(arena: &Arena<N, E>, graphs: Seq<&RelRcGraph>, n: int) -> bool {
    exists|w: int|
        0 <= w < arena.node(n).outgoing.len() && part_at(graphs, n, (#[trigger] arena.out(n, w)).0)
}

impl RelRcGraph {
    /// Whether the views that hold the node at position `n` part at the node
    /// at position `t`.
    fn parts<N, E>(graphs: &Vec<&RelRcGraph>, n: usize, t: usize) -> (b: bool)
        ensures
            b == part_at(graphs@, n as int, t as int),
    {
        let mut some_in = false;
        let mut some_out = false;
        let mut g: usize = 0;
        while g < graphs.len()
            invariant
                g <= graphs@.len(),
                some_in <==> exists|g2: int| 0 <= g2 < g && #[trigger] holds_both(
                    graphs@,
                    g2,
                    n as int,
                    t as int,
                ),
                some_out <==> exists|g2: int| 0 <= g2 < g && #[trigger] holds_first(
                    graphs@,
                    g2,
                    n as int,
                    t as int,
                ),
            decreases graphs@.len() - g,
        {
            if graphs[g].all_nodes.contains(&n) {
                if graphs[g].all_nodes.contains(&t) {
                    assert(holds_both(graphs@, g as int, n as int, t as int));
                    some_in = true;
                } else {
                    assert(holds_first(graphs@, g as int, n as int, t as int));
                    some_out = true;
                }
            }
            g += 1;
        }
        some_in && some_out
    }

    /// Whether the node at position `n`, which is alive, is a lowest common
    /// ancestor of the views.
    fn is_lowest<N, E>(arena: &Arena<N, E>, graphs: &Vec<&RelRcGraph>, n: usize) -> (b: bool)
        requires
            arena.is_live(n as int),
        ensures
            b == is_lowest_common(arena, graphs@, n as int),
    {
        let data = arena.slots[n].as_ref().unwrap();
        let mut w: usize = 0;
        while w < data.outgoing.len()
            invariant
                w <= data.outgoing@.len(),
                arena.is_live(n as int),
                data == arena.slots@[n as int].unwrap(),
                forall|w2: int|
                    0 <= w2 < w ==> !part_at(graphs@, n as int, (#[trigger] arena.out(n as int, w2)).0),
            decreases data.outgoing@.len() - w,
        {
            let t = data.outgoing[w].target.ptr;
            assert(arena.out(n as int, w as int).0 == t);
            if Self::parts::<N, E>(graphs, n, t) {
                return true;
            }
            w += 1;
        }
        false
    }

    /// The nodes of all the views.
    fn all_of(graphs: &Vec<&RelRcGraph>) -> (all: BTreeSet<usize>)
        ensures
            forall|x: usize| all@.contains(x) <==> in_some(graphs@, graphs@.len() as int, x),
    {
        let mut all: BTreeSet<usize> = BTreeSet::new();
        let mut g: usize = 0;
        while g < graphs.len()
            invariant
                g <= graphs@.len(),
                forall|x: usize| all@.contains(x) <==> in_some(graphs@, g as int, x),
            decreases graphs@.len() - g,
        {
            let nodes = set_to_vec(&graphs[g].all_nodes);
            let ghost before = all@;
            let mut j: usize = 0;
            while j < nodes.len()
                invariant
                    j <= nodes@.len(),
                    forall|x: usize|
                        all@.contains(x) <==> before.contains(x) || nodes@.take(j as int).contains(x),
                decreases nodes@.len() - j,
            {
                let ghost prev = all@;
                all.insert(nodes[j]);
                proof {
                    let t0 = nodes@.take(j as int);
                    let t1 = nodes@.take(j + 1);
                    assert(t1 == t0.push(nodes@[j as int]));
                    assert forall|x: usize|
                        all@.contains(x) <==> before.contains(x) || t1.contains(x) by {
                        assert(prev.contains(x) <==> before.contains(x) || t0.contains(x));
                        if t1.contains(x) {
                            let k = choose|k: int| 0 <= k < t1.len() && t1[k] == x;
                            if k < j {
                                assert(t0[k] == x);
                            }
                        }
                        if t0.contains(x) {
                            let k = choose|k: int| 0 <= k < t0.len() && t0[k] == x;
                            assert(t1[k] == x);
                        }
                        if x == nodes@[j as int] {
                            assert(t1[j as int] == x);
                        }
                    }
                }
                j += 1;
            }
            proof {
                assert(nodes@.take(nodes@.len() as int) == nodes@);
                assert forall|x: usize| all@.contains(x) <==> in_some(graphs@, g + 1, x) by {
                    assert(before.contains(x) <==> in_some(graphs@, g as int, x));
                    if nodes@.contains(x) {
                        assert(nodes@.to_set().contains(x));
                        assert(graphs@[g as int].nodes().contains(x as int));
                    }
                    if graphs@[g as int].nodes().contains(x as int) {
                        assert(nodes@.to_set().contains(x));
                    }
                    if in_some(graphs@, g as int, x) {
                        let g2 = choose|g2: int|
                            0 <= g2 < g && g2 < graphs@.len() && (#[trigger] graphs@[g2]).nodes().contains(
                                x as int,
                            );
                        assert(graphs@[g2].nodes().contains(x as int));
                    }
                }
            }
            g += 1;
        }
        all
    }

    /// The lowest common ancestors of the views: the nodes that are in two of
    /// the views at least and that have an outgoing edge that is not in all
    /// the views that hold the node. Each is given once.
    pub fn lowest_common_ancestors<N, E>(arena: &Arena<N, E>, graphs: &Vec<&RelRcGraph>) -> (ids: Vec<
        NodeId,
    >)
        requires
            forall|g: int| 0 <= g < graphs@.len() ==> (#[trigger] graphs@[g]).wf(arena),
        ensures
            ids@.no_duplicates(),
            forall|n: usize|
                ids@.contains(NodeId(n)) <==> in_some(graphs@, graphs@.len() as int, n)
                    && is_lowest_common(arena, graphs@, n as int),
    {
        let all = Self::all_of(graphs);
        let candidates = set_to_vec(&all);
        let mut ids: Vec<NodeId> = Vec::new();
        let ghost lowest = |x: usize| is_lowest_common(arena, graphs@, x as int);
        let mut j: usize = 0;
        while j < candidates.len()
            invariant
                j <= candidates@.len(),
                candidates@.to_set() == all@,
                forall|g: int| 0 <= g < graphs@.len() ==> (#[trigger] graphs@[g]).wf(arena),
                forall|x: usize| all@.contains(x) <==> in_some(graphs@, graphs@.len() as int, x),
                lowest == (|x: usize| is_lowest_common(arena, graphs@, x as int)),
                ids@.map_values(|id: NodeId| id.0) == crate::traverse::filtered(
                    candidates@.take(j as int),
                    lowest,
                ),
            decreases candidates@.len() - j,
        {
            let n = candidates[j];
            proof {
                assert(candidates@.to_set().contains(n));
                assert(in_some(graphs@, graphs@.len() as int, n));
                let g2 = choose|g2: int|
                    0 <= g2 < graphs@.len() && (#[trigger] graphs@[g2]).nodes().contains(n as int);
                graphs@[g2].lemma_nodes_live(arena, n as int);
                assert(candidates@.take(j + 1).drop_last() == candidates@.take(j as int));
                assert(candidates@.take(j + 1).last() == n);
            }
            if Self::is_lowest(arena, graphs, n) {
                let ghost ids0 = ids@.map_values(|id: NodeId| id.0);
                ids.push(NodeId(n));
                assert(ids@.map_values(|id: NodeId| id.0) =~= ids0.push(n));
            }
            j += 1;
        }
        proof {
            assert(candidates@.take(candidates@.len() as int) == candidates@);
            crate::traverse::lemma_filtered(candidates@, lowest);
            let kept = ids@.map_values(|id: NodeId| id.0);
            assert forall|a: int, b: int| 0 <= a < b < ids@.len() implies ids@[a] != ids@[b] by {
                assert(kept[a] != kept[b]);
            }
            assert forall|n: usize|
                ids@.contains(NodeId(n)) <==> in_some(graphs@, graphs@.len() as int, n)
                    && is_lowest_common(arena, graphs@, n as int) by {
                if ids@.contains(NodeId(n)) {
                    let a = choose|a: int| 0 <= a < ids@.len() && ids@[a] == NodeId(n);
                    assert(kept[a] == n);
                    assert(kept.contains(n));
                    assert(candidates@.to_set().contains(n));
                }
                if in_some(graphs@, graphs@.len() as int, n) && lowest(n) {
                    assert(candidates@.to_set().contains(n));
                    assert(candidates@.contains(n));
                    assert(kept.contains(n));
                    let a = choose|a: int| 0 <= a < kept.len() && kept[a] == n;
                    assert(ids@[a] == NodeId(n));
                }
            }
        }
        ids
    }
}

/// Whether one of the first `g` views holds the node at position `x`.
pub open spec fn in_some(graphs: Seq<&RelRcGraph>, g: int, x: usize) -> bool {
    exists|g2: int| 0 <= g2 < g && g2 < graphs.len() && (#[trigger] graphs[g2]).nodes().contains(x as int)
}

impl<N, E> Arena<N, E> {
    /// Whether the node at position `x` is one of `sources` or a live
    /// descendant of one of them.
    pub open spec fn below(&self, sources: Seq<int>, x: int) -> bool {
        exists|j: int| 0 <= j < sources.len() && self.is_ancestor(#[trigger] sources[j], x)
    }

    /// Whether the node at position `c` is a live child of the node at
    /// position `v`.
    pub open spec fn live_child_of(&self, v: int, c: int) -> bool {
        exists|w: int|
            0 <= w < self.node(v).outgoing.len() && (#[trigger] self.out(v, w)).0 == c
                && self.is_live(c)
    }

    /// A set that holds a node and, with every node, its live children, holds
    /// the live descendants of the node.
    pub proof fn lemma_closed_holds_below(&self, found: Set<usize>, s: int, x: int)
        requires
            self.wf(),
            self.is_ancestor(s, x),
            0 <= s <= usize::MAX,
            found.contains(s as usize),
            forall|v: usize, c: int|
                found.contains(v) && #[trigger] self.live_child_of(v as int, c) ==> 0 <= c
                    <= usize::MAX && found.contains(c as usize),
        ensures
            0 <= x <= usize::MAX,
            found.contains(x as usize),
        decreases x,
    {
        if x != s {
            let all = |i: int| true;
            let k = choose|k: int|
                0 <= k < self.node(x).incoming.len() && 0 <= (#[trigger] self.edge(x, k)).source < x
                    && self.descends(self.edge(x, k).source, s, all);
            let p = self.edge(x, k).source;
            assert(self.is_ancestor(s, p));
            self.lemma_closed_holds_below(found, s, p);
            assert(self.node(p).outgoing.contains((x, k)));
            let w = choose|w: int|
                0 <= w < self.node(p).outgoing.len() && self.node(p).outgoing[w] == (x, k);
            assert(self.out(p, w).0 == x);
            assert(self.live_child_of(p, x));
        }
    }

    /// The live descendants of `sources`, the sources included, and those
    /// among them that have no live child, in the order in which they were
    /// found.
    pub(crate) fn collect_below(&self, sources: &Vec<usize>) -> (r: (BTreeSet<usize>, Vec<usize>))
        requires
            self.wf(),
            forall|j: int| 0 <= j < sources@.len() ==> self.is_live(#[trigger] sources@[j] as int),
        ensures
            r.0@.finite(),
            forall|x: usize| #[trigger]
                r.0@.contains(x) <==> self.below(sources@.map_values(|s: usize| s as int), x as int),
            r.1@.no_duplicates(),
            forall|x: usize| #[trigger]
                r.1@.contains(x) <==> r.0@.contains(x) && !self.has_live_child(x as int),
    {
        let ghost origin = sources@.map_values(|s: usize| s as int);
        let mut found: BTreeSet<usize> = BTreeSet::new();
        let mut leaves: Vec<usize> = Vec::new();
        let mut stack: Vec<usize> = Vec::new();
        let mut j: usize = 0;
        while j < sources.len()
            invariant
                j <= sources@.len(),
                stack@ == sources@.take(j as int),
            decreases sources@.len() - j,
        {
            stack.push(sources[j]);
            assert(sources@.take(j + 1) == sources@.take(j as int).push(sources@[j as int]));
            j += 1;
        }
        assert(sources@.take(sources@.len() as int) == sources@);
        proof {
            assert forall|x: usize| stack@.contains(x) implies self.is_live(x as int) && self.below(
                origin,
                x as int,
            ) by {
                let j = choose|j: int| 0 <= j < stack@.len() && stack@[j] == x;
                assert(self.is_ancestor(origin[j], x as int));
            }
        }
        while stack.len() > 0
            invariant
                self.wf(),
                origin == sources@.map_values(|s: usize| s as int),
                found@.finite(),
                leaves@.no_duplicates(),
                forall|x: usize| found@.contains(x) ==> x < self.len(),
                forall|x: usize| #[trigger]
                    stack@.contains(x) ==> self.is_live(x as int) && self.below(origin, x as int),
                forall|v: usize| #[trigger] found@.contains(v) ==> self.below(origin, v as int),
                forall|v: usize, c: int|
                    found@.contains(v) && #[trigger] self.live_child_of(v as int, c) ==> 0 <= c
                        <= usize::MAX && (found@.contains(c as usize) || stack@.contains(c as usize)),
                forall|j: int|
                    0 <= j < sources@.len() ==> found@.contains(#[trigger] sources@[j])
                        || stack@.contains(sources@[j]),
                forall|x: usize| #[trigger]
                    leaves@.contains(x) <==> found@.contains(x) && !self.has_live_child(x as int),
            decreases self.len() - found@.len(), stack@.len(),
        {
            let ghost stack0 = stack@;
            proof {
                crate::traverse::lemma_bounded_set_len(found@, self.len());
            }
            assert(forall|y: usize| #[trigger]
                stack0.contains(y) ==> self.is_live(y as int) && self.below(origin, y as int));
            let x = stack.pop().unwrap();
            assert(stack0.contains(x)) by {
                assert(stack0[stack0.len() - 1] == x);
            }
            assert forall|y: usize| stack0.contains(y) implies y == x || stack@.contains(y) by {
                let j = choose|j: int| 0 <= j < stack0.len() && stack0[j] == y;
                if j < stack@.len() {
                    assert(stack@[j] == y);
                }
            }
            assert forall|y: usize| #[trigger] stack@.contains(y) implies stack0.contains(y)
                && self.is_live(y as int) && self.below(origin, y as int) by {
                let j = choose|j: int| 0 <= j < stack@.len() && stack@[j] == y;
                assert(stack0[j] == y);
                assert(stack0.contains(y));
            }
            if !found.contains(&x) {
                let ghost found0 = found@;
                let ghost leaves0 = leaves@;
                found.insert(x);
                proof {
                    crate::traverse::lemma_bounded_set_len(found@, self.len());
                }
                let data = self.slots[x].as_ref().unwrap();
                let mut any = false;
                let mut w: usize = 0;
                let ghost stack1 = stack@;
                while w < data.outgoing.len()
                    invariant
                        self.wf(),
                        self.is_live(x as int),
                        data == self.slots@[x as int].unwrap(),
                        w <= data.outgoing@.len(),
                        self.below(origin, x as int),
                        forall|y: usize| #[trigger]
                            stack@.contains(y) ==> self.is_live(y as int) && self.below(
                                origin,
                                y as int,
                            ),
                        forall|y: usize| stack1.contains(y) ==> stack@.contains(y),
                        forall|w2: int|
                            0 <= w2 < w && self.is_live((#[trigger] self.out(x as int, w2)).0)
                                ==> stack@.contains(self.out(x as int, w2).0 as usize),
                        any <==> exists|w2: int|
                            0 <= w2 < w && self.is_live((#[trigger] self.out(x as int, w2)).0),
                    decreases data.outgoing@.len() - w,
                {
                    let edge = data.outgoing[w];
                    let c = edge.target.ptr;
                    let ghost stack2 = stack@;
                    assert(self.out(x as int, w as int) == edge@);
                    if self.slots[c].is_some() {
                        any = true;
                        stack.push(c);
                        proof {
                            assert(stack@[stack2.len() as int] == c);
                            assert forall|y: usize| stack2.contains(y) implies stack@.contains(
                                y,
                            ) by {
                                let j = choose|j: int| 0 <= j < stack2.len() && stack2[j] == y;
                                assert(stack@[j] == y);
                            }
                            assert forall|y: usize| #[trigger]
                                stack@.contains(y) implies self.is_live(y as int) && self.below(
                                origin,
                                y as int,
                            ) by {
                                let j = choose|j: int| 0 <= j < stack@.len() && stack@[j] == y;
                                if j < stack2.len() {
                                    assert(stack2[j] == y);
                                    assert(stack2.contains(y));
                                } else {
                                    let s = choose|s: int|
                                        0 <= s < origin.len() && self.is_ancestor(
                                            #[trigger] origin[s],
                                            x as int,
                                        );
                                    let k = edge@.1;
                                    assert(self.edge(c as int, k).source == x);
                                    self.lemma_child_below(origin[s], x as int, c as int, k);
                                }
                            }
                        }
                    }
                    w += 1;
                }
                if !any {
                    leaves.push(x);
                    proof {
                        assert(leaves@[leaves0.len() as int] == x);
                        assert forall|a: int, b: int|
                            0 <= a < b < leaves@.len() implies leaves@[a] != leaves@[b] by {
                            if b == leaves0.len() {
                                assert(leaves0.contains(leaves0[a]));
                            }
                        }
                    }
                }
                proof {
                    assert(any == self.has_live_child(x as int));
                    assert forall|y: usize| #[trigger]
                        leaves@.contains(y) <==> found@.contains(y) && !self.has_live_child(
                            y as int,
                        ) by {
                        if leaves0.contains(y) {
                            let a = choose|a: int| 0 <= a < leaves0.len() && leaves0[a] == y;
                            assert(leaves@[a] == y);
                        }
                        if leaves@.contains(y) {
                            let a = choose|a: int| 0 <= a < leaves@.len() && leaves@[a] == y;
                            if a < leaves0.len() {
                                assert(leaves0[a] == y);
                            }
                        }
                        if y == x && !any {
                            assert(leaves@[leaves0.len() as int] == y);
                        }
                    }
                    assert forall|v: usize, c: int|
                        found@.contains(v) && #[trigger] self.live_child_of(v as int, c) implies 0 <= c
                        <= usize::MAX && (found@.contains(c as usize) || stack@.contains(
                        c as usize,
                    )) by {
                        if v == x {
                            let w2 = choose|w2: int|
                                0 <= w2 < self.node(x as int).outgoing.len() && (#[trigger] self.out(
                                    x as int,
                                    w2,
                                )).0 == c && self.is_live(c);
                            assert(stack@.contains(self.out(x as int, w2).0 as usize));
                        } else {
                            assert(found0.contains(v));
                            if !found0.contains(c as usize) {
                                assert(stack0.contains(c as usize));
                            }
                        }
                    }
                }
            }
        }
        proof {
            assert forall|x: usize| #[trigger] found@.contains(x) <==> self.below(
                origin,
                x as int,
            ) by {
                if self.below(origin, x as int) {
                    let s = choose|s: int|
                        0 <= s < origin.len() && self.is_ancestor(#[trigger] origin[s], x as int);
                    assert(!stack@.contains(sources@[s]));
                    assert forall|v: usize, c: int|
                        found@.contains(v) && #[trigger] self.live_child_of(v as int, c) implies 0 <= c
                        <= usize::MAX && found@.contains(c as usize) by {
                        assert(!stack@.contains(c as usize));
                    }
                    self.lemma_closed_holds_below(found@, origin[s], x as int);
                }
            }
        }
        (found, leaves)
    }

    /// A live child of a descendant of a node is a descendant of the node.
    pub proof fn lemma_child_below(&self, s: int, v: int, c: int, k: int)
        requires
            self.is_ancestor(s, v),
            self.is_live(c),
            0 <= k < self.node(c).incoming.len(),
            self.edge(c, k).source == v,
            v < c,
        ensures
            self.is_ancestor(s, c),
    {
        self.lemma_ancestor_live(s, v);
    }
}

impl RelRcGraph {
    /// The view of the nodes and of all their live descendants. Its sinks are
    /// the descendants without a live child, on which it makes strong
    /// handles.
    pub fn from_sources<N, E>(arena: &mut Arena<N, E>, sources: &Vec<RelRc>) -> (graph: Self)
        requires
            old(arena).wf(),
            forall|j: int| 0 <= j < sources@.len() ==> old(arena).is_live((#[trigger] sources@[j])@),
        ensures
            final(arena).wf(),
            old(arena).more_held(final(arena)),
            graph.wf(final(arena)),
            forall|i: int|
                graph.nodes().contains(i) <==> old(arena).below(
                    sources@.map_values(|s: RelRc| s@),
                    i,
                ),
            graph.sink_ptrs().no_duplicates(),
            forall|i: int|
                graph.sink_ptrs().contains(i) <==> graph.nodes().contains(i) && !old(
                    arena,
                ).has_live_child(i),
            forall|x: int|
                old(arena).is_live(x) ==> (#[trigger] final(arena).node(x)).handles == more(
                    old(arena).node(x).handles,
                    times(graph.sink_ptrs(), x),
                ),
    {
        let ghost origin = sources@.map_values(|s: RelRc| s@);
        let mut starts: Vec<usize> = Vec::new();
        let mut j: usize = 0;
        while j < sources.len()
            invariant
                j <= sources@.len(),
                starts@.len() == j,
                forall|j2: int| 0 <= j2 < j ==> (#[trigger] starts@[j2]) == sources@[j2]@,
            decreases sources@.len() - j,
        {
            starts.push(sources[j].as_ptr());
            j += 1;
        }
        assert(starts@.map_values(|s: usize| s as int) =~= origin);
        let (all_nodes, leaves) = arena.collect_below(&starts);
        let mut sinks: Vec<RelRc> = Vec::new();
        let mut j: usize = 0;
        while j < leaves.len()
            invariant
                j <= leaves@.len(),
                arena.wf(),
                old(arena).more_held(arena),
                forall|x: usize| #[trigger] leaves@.contains(x) ==> old(arena).is_live(x as int),
                sinks@.map_values(|s: RelRc| s@) == leaves@.take(j as int).map_values(
                    |x: usize| x as int,
                ),
                forall|x: int|
                    old(arena).is_live(x) ==> (#[trigger] arena.node(x)).handles == more(
                        old(arena).node(x).handles,
                        times(sinks@.map_values(|s: RelRc| s@), x),
                    ),
            decreases leaves@.len() - j,
        {
            let ghost prev = *arena;
            let ghost done = sinks@.map_values(|s: RelRc| s@);
            assert(leaves@.contains(leaves@[j as int]));
            sinks.push(arena.hold(leaves[j]));
            proof {
                assert forall|x: int| old(arena).is_live(x) implies #[trigger] arena.node(x) == (
                crate::node::NodeView {
                    handles: arena.node(x).handles,
                    ..old(arena).node(x)
                }) && arena.node(x).handles >= old(arena).node(x).handles by {
                    let y = prev.node(x);
                }
                assert(leaves@.take(j + 1) == leaves@.take(j as int).push(leaves@[j as int]));
                assert(sinks@.map_values(|s: RelRc| s@) =~= done.push(leaves@[j as int] as int));
                assert forall|x: int| old(arena).is_live(x) implies (#[trigger] arena.node(
                    x,
                )).handles == more(
                    old(arena).node(x).handles,
                    times(done.push(leaves@[j as int] as int), x),
                ) by {
                    lemma_times_push(done, leaves@[j as int] as int, x);
                    let y = prev.node(x);
                    assert(prev.is_live(x));
                }
            }
            j += 1;
        }
        assert(leaves@.take(leaves@.len() as int) == leaves@);
        let graph = RelRcGraph { sinks, all_nodes };
        proof {
            let ptrs = graph.sink_ptrs();
            assert(ptrs == leaves@.map_values(|x: usize| x as int));
            assert forall|a: int, b: int| 0 <= a < b < ptrs.len() implies ptrs[a] != ptrs[b] by {
                assert(leaves@[a] != leaves@[b]);
            }
            assert forall|i: int|
                ptrs.contains(i) <==> graph.nodes().contains(i) && !old(arena).has_live_child(
                    i,
                ) by {
                if ptrs.contains(i) {
                    let a = choose|a: int| 0 <= a < ptrs.len() && ptrs[a] == i;
                    assert(leaves@.contains(leaves@[a]));
                }
                if graph.nodes().contains(i) && !old(arena).has_live_child(i) {
                    assert(leaves@.contains(i as usize));
                    let a = choose|a: int| 0 <= a < leaves@.len() && leaves@[a] == i as usize;
                    assert(ptrs[a] == i);
                }
            }
            assert forall|i: int| graph.nodes().contains(i) <==> old(arena).below(origin, i) by {
                if old(arena).below(origin, i) {
                    let s = choose|s: int|
                        0 <= s < origin.len() && old(arena).is_ancestor(#[trigger] origin[s], i);
                    old(arena).lemma_descends_live(i, origin[s], |x: int| true);
                }
            }
            lemma_nodes_finite(graph.all_nodes@);
            graph.lemma_sources_wf(old(arena), arena, origin);
        }
        graph
    }
}

impl RelRc {
    /// The node and all its ancestors, each once, as weak references.
    pub fn all_ancestors<N, E>(&self, arena: &Arena<N, E>) -> (ancestors: Vec<RelWeak>)
        requires
            arena.wf(),
            arena.is_live(self@),
        ensures
            ancestors@.map_values(|a: RelWeak| a@).no_duplicates(),
            forall|i: int|
                ancestors@.map_values(|a: RelWeak| a@).contains(i) <==> arena.is_ancestor(i, self@),
    {
        let always = |d: &InnerData<N, E>| -> (b: bool)
            ensures
                b,
            { true };
        let ghost verdict = |d: InnerData<N, E>| true;
        let mut starts: Vec<usize> = Vec::new();
        starts.push(self.as_ptr());
        let found = arena.collect(&starts, always, Ghost(verdict));
        let ptrs = set_to_vec(&found);
        let mut ancestors: Vec<RelWeak> = Vec::new();
        let mut j: usize = 0;
        while j < ptrs.len()
            invariant
                j <= ptrs@.len(),
                ancestors@.len() == j,
                forall|j2: int| 0 <= j2 < j ==> (#[trigger] ancestors@[j2])@ == ptrs@[j2],
            decreases ptrs@.len() - j,
        {
            ancestors.push(RelWeak { ptr: ptrs[j] });
            j += 1;
        }
        proof {
            let views = ancestors@.map_values(|a: RelWeak| a@);
            let pass = arena.holding(verdict);
            let origin = starts@.map_values(|s: usize| s as int);
            assert(origin[0] == self@);
            assert forall|a: int, b: int| 0 <= a < b < views.len() implies views[a] != views[b] by {
                assert(ptrs@[a] != ptrs@[b]);
            }
            assert forall|i: int| views.contains(i) <==> arena.is_ancestor(i, self@) by {
                lemma_always_passes(arena, self@, i, pass);
                if views.contains(i) {
                    let a = choose|a: int| 0 <= a < views.len() && views[a] == i;
                    assert(ptrs@.contains(ptrs@[a]));
                    assert(ptrs@.to_set().contains(ptrs@[a]));
                    assert(found@.contains(ptrs@[a]));
                    let s = choose|s: int|
                        0 <= s < origin.len() && arena.descends(#[trigger] origin[s], i, pass);
                }
                if arena.is_ancestor(i, self@) {
                    arena.lemma_ancestor_live(i, self@);
                    assert(arena.descends(origin[0], i, pass));
                    assert(found@.contains(i as usize));
                    assert(ptrs@.to_set().contains(i as usize));
                    assert(ptrs@.contains(i as usize));
                    let a = choose|a: int| 0 <= a < ptrs@.len() && ptrs@[a] == i as usize;
                    assert(views[a] == i);
                }
            }
        }
        ancestors
    }
}

impl<N, E> Arena<N, E> {
    /// An ancestor of an ancestor of a node is an ancestor of the node.
    pub proof fn lemma_ancestor_trans(&self, a: int, b: int, c: int)
        requires
            self.is_ancestor(a, b),
            self.is_ancestor(b, c),
        ensures
            self.is_ancestor(a, c),
        decreases c,
    {
        if b != c {
            let all = |i: int| true;
            let k = choose|k: int|
                0 <= k < self.node(c).incoming.len() && 0 <= (#[trigger] self.edge(c, k)).source < c
                    && self.descends(self.edge(c, k).source, b, all);
            self.lemma_ancestor_trans(a, b, self.edge(c, k).source);
        }
    }

    /// The position of a live descendant of the node at position `x` that has
    /// no live child; the node itself, if it has none.
    pub open spec fn leaf_below(&self, x: int) -> int
        decreases self.len() - x,
    {
        if self.is_live(x) && self.outgoing_wf() && self.has_live_child(x) {
            let w = choose|w: int|
                0 <= w < self.node(x).outgoing.len() && self.is_live((#[trigger] self.out(x, w)).0);
            self.leaf_below(self.out(x, w).0)
        } else {
            x
        }
    }

    /// Every live node has a live descendant without a live child.
    pub proof fn lemma_leaf_below(&self, x: int)
        requires
            self.wf(),
            self.is_live(x),
        ensures
            self.is_ancestor(x, self.leaf_below(x)),
            !self.has_live_child(self.leaf_below(x)),
        decreases self.len() - x,
    {
        if self.has_live_child(x) {
            let w = choose|w: int|
                0 <= w < self.node(x).outgoing.len() && self.is_live((#[trigger] self.out(x, w)).0);
            let c = self.out(x, w).0;
            let k = self.out(x, w).1;
            self.lemma_leaf_below(c);
            assert(self.edge(c, k).source == x);
            assert(self.is_ancestor(x, x));
            self.lemma_ancestor_step(x, c, k);
            self.lemma_ancestor_trans(x, c, self.leaf_below(c));
        } else {
            assert(self.is_ancestor(x, x));
        }
    }
}

impl RelRcGraph {
    /// A view of some nodes and all their live descendants, whose sinks are
    /// the descendants without a live child, is well formed.
    pub proof fn lemma_sources_wf<N, E>(&self, before: &Arena<N, E>, arena: &Arena<N, E>, sources: Seq<int>)
        requires
            before.wf(),
            before.more_held(arena),
            self.nodes().finite(),
            forall|i: int| self.nodes().contains(i) <==> before.below(sources, i),
            forall|i: int|
                self.sink_ptrs().contains(i) <==> self.nodes().contains(i) && !before.has_live_child(
                    i,
                ),
        ensures
            self.wf(arena),
    {
        let all = |i: int| true;
        assert forall|j: int| 0 <= j < self.sink_ptrs().len() implies arena.is_live(
            #[trigger] self.sink_ptrs()[j],
        ) by {
            let x = self.sink_ptrs()[j];
            assert(self.sink_ptrs().contains(x));
            let s = choose|s: int| 0 <= s < sources.len() && before.is_ancestor(#[trigger] sources[s], x);
            before.lemma_descends_live(x, sources[s], all);
        }
        assert forall|i: int| #[trigger] self.nodes().contains(i) implies exists|j: int|
            0 <= j < self.sink_ptrs().len() && arena.is_ancestor(i, #[trigger] self.sink_ptrs()[j]) by {
            let s = choose|s: int| 0 <= s < sources.len() && before.is_ancestor(#[trigger] sources[s], i);
            before.lemma_descends_live(i, sources[s], all);
            before.lemma_leaf_below(i);
            let l = before.leaf_below(i);
            before.lemma_ancestor_trans(sources[s], i, l);
            assert(before.below(sources, l));
            assert(self.sink_ptrs().contains(l));
            let j = choose|j: int| 0 <= j < self.sink_ptrs().len() && self.sink_ptrs()[j] == l;
            before.lemma_more_held_descends(arena, l, i, all);
            assert(arena.is_ancestor(i, self.sink_ptrs()[j]));
        }
    }
}

} // verus!
