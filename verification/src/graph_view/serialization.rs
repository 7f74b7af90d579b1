//! The flat form of a view: a list of nodes in which every parent comes
//! before its children.

use crate::graph_view::RelRcGraph;
use crate::node::{Arena, RelRc};
use crate::traverse::set_to_vec;
use std::collections::{BTreeMap, BTreeSet};
use vstd::pervasive::cloned;
use vstd::prelude::*;

verus! {

broadcast use vstd::std_specs::btree::group_btree_axioms;

/// The position of a node in the flat form of a view.
#[derive(Copy, Clone, Debug, PartialEq, Eq, Structural)]
pub struct SerializeNodeId(pub usize);

/// An incoming edge in the flat form of a view: the position of its source
/// and its value.
#[derive(Copy, Clone, Debug, PartialEq, Eq)]
pub struct SerializeEdgeData<E> {
    /// The position of the source of the edge.
    pub source: SerializeNodeId,
    /// The value of the edge.
    pub value: E,
}

/// A node in the flat form of a view: its value and its incoming edges.
#[derive(Clone, Debug, PartialEq, Eq)]
pub struct SerializeNodeData<N, E> {
    /// The value of the node.
    pub value: N,
    /// The incoming edges of the node, in their order.
    pub incoming: Vec<SerializeEdgeData<E>>,
}

/// The flat form of a view: its nodes, parents before children, and the
/// positions of its sinks.
#[derive(Clone, Debug, PartialEq, Eq)]
pub struct RelRcGraphSerializer<N, E> {
    /// The positions of the sinks of the view.
    pub sinks: Vec<SerializeNodeId>,
    /// The nodes of the view, every parent before its children.
    pub all_nodes: Vec<SerializeNodeData<N, E>>,
}

/// The error for a flat form that is not the flat form of a view.
#[derive(Copy, Clone, Debug, PartialEq, Eq, Structural)]
pub enum GraphDeserializationError {
    /// A node names a parent that does not come before it.
    InvalidTopologicalOrder,
}

impl GraphDeserializationError {
    /// The message of the error.
    pub fn message(&self) -> (s: String)
        ensures
            s@ == "Invalid graph: unknown parent (nodes must be in topological order)"@,
    {
        String::from_str("Invalid graph: unknown parent (nodes must be in topological order)")
    }
}

impl<N, E> RelRcGraphSerializer<N, E> {
    /// Whether every parent comes before its children.
    pub open spec fn topological(&self) -> bool {
        forall|i: int, k: int|
            0 <= i < self.all_nodes@.len() && 0 <= k < self.all_nodes@[i].incoming@.len() ==> (
            #[trigger] self.all_nodes@[i].incoming@[k]).source.0 < i
    }

    /// Whether the parents of the first `n` nodes come before their children.
    pub open spec fn topological_upto(&self, n: int) -> bool {
        forall|i: int, k: int|
            0 <= i < n && 0 <= k < self.all_nodes@[i].incoming@.len() ==> (
            #[trigger] self.all_nodes@[i].incoming@[k]).source.0 < i
    }

    /// Whether the flat form names as sinks nodes that it has.
    pub open spec fn sinks_known(&self) -> bool {
        forall|j: int| 0 <= j < self.sinks@.len() ==> (#[trigger] self.sinks@[j]).0 < self.all_nodes@.len()
    }

    /// Whether the flat form names as sinks nodes that it has.
    pub fn has_sinks(&self) -> (b: bool)
        ensures
            b == self.sinks_known(),
    {
        let mut j: usize = 0;
        while j < self.sinks.len()
            invariant
                j <= self.sinks@.len(),
                forall|j2: int| 0 <= j2 < j ==> (#[trigger] self.sinks@[j2]).0 < self.all_nodes@.len(),
            decreases self.sinks@.len() - j,
        {
            if self.sinks[j].0 >= self.all_nodes.len() {
                return false;
            }
            j += 1;
        }
        true
    }

    /// Whether every parent comes before its children.
    pub fn is_topological(&self) -> (b: bool)
        ensures
            b == self.topological(),
    {
        let mut i: usize = 0;
        while i < self.all_nodes.len()
            invariant
                i <= self.all_nodes@.len(),
                self.topological_upto(i as int),
            decreases self.all_nodes@.len() - i,
        {
            let node = &self.all_nodes[i];
            let mut k: usize = 0;
            while k < node.incoming.len()
                invariant
                    i < self.all_nodes@.len(),
                    *node == self.all_nodes@[i as int],
                    k <= node.incoming@.len(),
                    forall|k2: int| 0 <= k2 < k ==> (#[trigger] node.incoming@[k2]).source.0 < i,
                decreases node.incoming@.len() - k,
            {
                if node.incoming[k].source.0 >= i {
                    assert(!(self.all_nodes@[i as int].incoming@[k as int].source.0 < i));
                    return false;
                }
                k += 1;
            }
            i += 1;
        }
        true
    }
}

impl<N: Clone + std::hash::Hash, E: Clone + std::hash::Hash> RelRcGraphSerializer<N, E> {
    /// Whether the node at position `ptr` of the arena is the `i`-th node of
    /// the flat form, made when the arena had `base` positions: it has a clone
    /// of its value, and its incoming edges have clones of the values and the
    /// sources at the positions that the flat form names.
    pub open spec fn made(&self, arena: &Arena<N, E>, base: int, i: int) -> bool {
        let node = arena.node(base + i);
        let data = self.all_nodes@[i];
        &&& arena.is_live(base + i)
        &&& cloned(data.value, node.value)
        &&& node.incoming.len() == data.incoming@.len()
        &&& forall|k: int|
            0 <= k < node.incoming.len() ==> (#[trigger] node.incoming[k]).source == base
                + data.incoming@[k].source.0 && cloned(data.incoming@[k].value, node.incoming[k].value)
    }

    /// Makes the nodes of the flat form, in their order, and returns the
    /// strong handles on them.
    ///
    /// A flat form in which a node names a parent that does not come before
    /// it is rejected, and no node is made.
    pub fn get_diffs(&self, arena: &mut Arena<N, E>) -> (r: Result<
        Vec<RelRc>,
        GraphDeserializationError,
    >)
        requires
            old(arena).wf(),
        ensures
            final(arena).wf(),
            r is Ok <==> self.topological(),
            r matches Err(e) ==> e == GraphDeserializationError::InvalidTopologicalOrder,
            r is Err ==> *final(arena) == *old(arena),
            r matches Ok(nodes) ==> {
                &&& old(arena).extends(final(arena))
                &&& forall|i: int|
                    old(arena).is_live(i) ==> #[trigger] final(arena).node(i) == old(arena).node(i)
                &&& final(arena).len() == old(arena).len() + self.all_nodes@.len()
                &&& nodes@.len() == self.all_nodes@.len()
                &&& forall|i: int|
                    0 <= i < nodes@.len() ==> (#[trigger] nodes@[i])@ == old(arena).len() + i
                        && self.made(final(arena), old(arena).len() as int, i) && final(arena).node(
                        nodes@[i]@,
                    ).handles == 1
            },
    {
        if !self.is_topological() {
            return Err(GraphDeserializationError::InvalidTopologicalOrder);
        }
        let ghost base = arena.len() as int;
        let mut nodes: Vec<RelRc> = Vec::new();
        let mut i: usize = 0;
        proof {
            arena.lemma_extends_refl();
        }
        while i < self.all_nodes.len()
            invariant
                i <= self.all_nodes@.len(),
                self.topological(),
                base == old(arena).len(),
                arena.wf(),
                old(arena).extends(arena),
                forall|i2: int| old(arena).is_live(i2) ==> #[trigger] arena.node(i2) == old(arena).node(i2),
                arena.len() == base + i,
                nodes@.len() == i,
                forall|i2: int|
                    0 <= i2 < i ==> (#[trigger] nodes@[i2])@ == base + i2 && self.made(
                        arena,
                        base,
                        i2,
                    ) && arena.node(nodes@[i2]@).handles == 1,
            decreases self.all_nodes@.len() - i,
        {
            let data = &self.all_nodes[i];
            let ghost prev = *arena;
            let ghost nodes0 = nodes@;
            let value = data.value.clone();
            let mut parents: Vec<(&RelRc, E)> = Vec::new();
            let mut k: usize = 0;
            while k < data.incoming.len()
                invariant
                    i < self.all_nodes@.len(),
                    *data == self.all_nodes@[i as int],
                    self.topological(),
                    k <= data.incoming@.len(),
                    nodes@.len() == i,
                    parents@.len() == k,
                    forall|k2: int|
                        0 <= k2 < k ==> (#[trigger] parents@[k2]).0@ == nodes@[data.incoming@[k2].source.0 as int]@
                            && cloned(data.incoming@[k2].value, parents@[k2].1),
                decreases data.incoming@.len() - k,
            {
                let edge = &data.incoming[k];
                assert(self.all_nodes@[i as int].incoming@[k as int].source.0 < i);
                parents.push((&nodes[edge.source.0], edge.value.clone()));
                k += 1;
            }
            let ghost ps = parents@.map_values(|pe: (&RelRc, E)| pe.0@);
            let ghost vs = parents@.map_values(|pe: (&RelRc, E)| pe.1);
            proof {
                assert forall|k2: int| 0 <= k2 < parents@.len() implies arena.is_live(
                    (#[trigger] parents@[k2]).0@,
                ) by {
                    let s = data.incoming@[k2].source.0 as int;
                    assert(self.all_nodes@[i as int].incoming@[k2].source.0 < i);
                    let t = nodes@[s];
                    assert(self.made(arena, base, s));
                    assert(nodes@[s]@ == base + s);
                }
                assert forall|k2: int| 0 <= k2 < ps.len() implies #[trigger] ps[k2] >= base by {
                    let s = data.incoming@[k2].source.0 as int;
                    assert(self.all_nodes@[i as int].incoming@[k2].source.0 < i);
                    assert(nodes@[s]@ == base + s);
                    assert(ps[k2] == parents@[k2].0@);
                }
            }
            let node = RelRc::with_parents(arena, value, parents);
            nodes.push(node);
            proof {
                prev.lemma_created_extends(arena, base + i, value, ps, vs);
                old(arena).lemma_extends_trans(&prev, arena);
                assert forall|i2: int| old(arena).is_live(i2) implies #[trigger] arena.node(i2)
                    == old(arena).node(i2) by {
                    crate::node::lemma_backrefs_none(ps, i2, base + i);
                    assert(prev.is_live(i2));
                    let y = prev.node(i2);
                    assert(prev.node(i2).outgoing + Seq::<(int, int)>::empty() =~= prev.node(
                        i2,
                    ).outgoing);
                }
                assert forall|i2: int| 0 <= i2 < i + 1 implies (#[trigger] nodes@[i2])@ == base + i2
                    && self.made(arena, base, i2) && arena.node(nodes@[i2]@).handles == 1 by {
                    if i2 < i {
                        assert(nodes@[i2] == nodes0[i2]);
                        assert(self.made(&prev, base, i2));
                        let y = arena.node(base + i2);
                    } else {
                        assert forall|k2: int|
                            0 <= k2 < arena.node(base + i).incoming.len() implies (
                        #[trigger] arena.node(base + i).incoming[k2]).source == base
                            + data.incoming@[k2].source.0 && cloned(
                            data.incoming@[k2].value,
                            arena.node(base + i).incoming[k2].value,
                        ) by {
                            let s = data.incoming@[k2].source.0 as int;
                            assert(self.all_nodes@[i as int].incoming@[k2].source.0 < i);
                            assert(nodes0[s]@ == base + s);
                            assert(ps[k2] == base + s);
                        }
                    }
                }
            }
            i += 1;
        }
        Ok(nodes)
    }

    /// Makes the nodes of the flat form and returns the view of the ancestors
    /// of its sinks. The nodes that are no ancestors of a sink are destroyed
    /// again.
    ///
    /// A flat form in which a node names a parent that does not come before
    /// it is rejected.
    pub fn into_graph(&self, arena: &mut Arena<N, E>) -> (r: Result<
        RelRcGraph,
        GraphDeserializationError,
    >)
        requires
            old(arena).wf(),
            self.sinks_known(),
        ensures
            final(arena).wf(),
            r is Ok <==> self.topological(),
            r matches Err(e) ==> e == GraphDeserializationError::InvalidTopologicalOrder,
            r is Err ==> *final(arena) == *old(arena),
            r matches Ok(graph) ==> {
                &&& graph.wf(final(arena))
                &&& graph.closed(final(arena))
                &&& forall|i: int|
                    0 <= i < self.all_nodes@.len() && #[trigger] final(arena).is_live(
                        old(arena).len() + i,
                    ) ==> self.made(final(arena), old(arena).len() as int, i)
                &&& final(arena).len() == old(arena).len() + self.all_nodes@.len()
                &&& graph.sink_ptrs() == self.sinks@.map_values(
                    |s: SerializeNodeId| old(arena).len() + s.0,
                )
                &&& old(arena).grown_by(final(arena), &graph)
            },
    {
        let ghost base = arena.len() as int;
        let nodes = match self.get_diffs(arena) {
            Ok(nodes) => nodes,
            Err(e) => {
                return Err(e);
            },
        };
        let mut sinks: Vec<usize> = Vec::new();
        let mut j: usize = 0;
        while j < self.sinks.len()
            invariant
                j <= self.sinks@.len(),
                self.sinks_known(),
                sinks@.len() == j,
                forall|j2: int| 0 <= j2 < j ==> (#[trigger] sinks@[j2]) == self.sinks@[j2].0,
            decreases self.sinks@.len() - j,
        {
            sinks.push(self.sinks[j].0);
            j += 1;
        }
        proof {
            assert forall|x: int| base <= x < arena.len() implies arena.is_live(x) && (
            #[trigger] arena.node(x)).handles >= 1 by {
                let t = nodes@[x - base];
                assert(self.made(arena, base, x - base));
            }
        }
        let ghost built = *arena;
        let ghost made = nodes@;
        let graph = RelRcGraph::of_made(arena, nodes, &sinks);
        assert(graph.sink_ptrs() =~= self.sinks@.map_values(
            |s: SerializeNodeId| base + s.0,
        ));
        proof {
            assert forall|i: int|
                0 <= i < self.all_nodes@.len() && #[trigger] arena.is_live(base + i) implies self.made(
                arena,
                base,
                i,
            ) by {
                let t = made[i];
                assert(self.made(&built, base, i));
                let y = arena.node(base + i);
            }
            assert forall|x: int| base <= x < built.len() implies built.is_live(x) && (
            #[trigger] built.node(x)).handles == 1 && built.node(x).registry is None by {
                let t = made[x - base];
            }
            assert forall|k: int| 0 <= k < graph.sink_ptrs().len() implies base <= (
            #[trigger] graph.sink_ptrs()[k]) < built.len() by {
                assert(graph.sink_ptrs()[k] == base + self.sinks@[k].0);
            }
            old(arena).lemma_grown_by(&built, arena, &graph);
        }
        Ok(graph)
    }
}

impl RelRcGraph {
    /// Whether the view holds its sinks and the parents of its nodes.
    pub open spec fn closed<N, E>(&self, arena: &Arena<N, E>) -> bool {
        &&& forall|j: int|
            0 <= j < self.sink_ptrs().len() ==> self.nodes().contains(#[trigger] self.sink_ptrs()[j])
        &&& forall|i: int, k: int|
            self.nodes().contains(i) && 0 <= k < arena.node(i).incoming.len()
                ==> self.nodes().contains((#[trigger] arena.edge(i, k)).source)
    }

    /// Whether the view holds its sinks and the parents of its nodes.
    pub fn is_closed<N, E>(&self, arena: &Arena<N, E>) -> (b: bool)
        requires
            self.wf(arena),
        ensures
            b == self.closed(arena),
    {
        let mut s: usize = 0;
        while s < self.sinks.len()
            invariant
                s <= self.sinks@.len(),
                forall|s2: int| 0 <= s2 < s ==> self.nodes().contains(#[trigger] self.sink_ptrs()[s2]),
            decreases self.sinks@.len() - s,
        {
            assert(self.sink_ptrs()[s as int] == self.sinks@[s as int]@);
            if !self.all_nodes.contains(&self.sinks[s].as_ptr()) {
                return false;
            }
            s += 1;
        }
        let all = set_to_vec(&self.all_nodes);
        let mut j: usize = 0;
        while j < all.len()
            invariant
                j <= all@.len(),
                self.wf(arena),
                all@.to_set() == self.all_nodes@,
                forall|s2: int|
                    0 <= s2 < self.sink_ptrs().len() ==> self.nodes().contains(
                        #[trigger] self.sink_ptrs()[s2],
                    ),
                forall|j2: int, k: int|
                    0 <= j2 < j && 0 <= k < arena.node(all@[j2] as int).incoming.len()
                        ==> self.nodes().contains((#[trigger] arena.edge(all@[j2] as int, k)).source),
            decreases all@.len() - j,
        {
            let n = all[j];
            proof {
                assert(all@.to_set().contains(n));
                self.lemma_nodes_live(arena, n as int);
            }
            let data = arena.slots[n].as_ref().unwrap();
            let mut k: usize = 0;
            while k < data.incoming.len()
                invariant
                    k <= data.incoming@.len(),
                    arena.is_live(n as int),
                    data == arena.slots@[n as int].unwrap(),
                    self.nodes().contains(n as int),
                    forall|s2: int|
                        0 <= s2 < self.sink_ptrs().len() ==> self.nodes().contains(
                            #[trigger] self.sink_ptrs()[s2],
                        ),
                    forall|k2: int|
                        0 <= k2 < k ==> self.nodes().contains(
                            (#[trigger] arena.edge(n as int, k2)).source,
                        ),
                decreases data.incoming@.len() - k,
            {
                let p = data.incoming[k].source.ptr;
                assert(arena.edge(n as int, k as int).source == p);
                if !self.all_nodes.contains(&p) {
                    return false;
                }
                k += 1;
            }
            j += 1;
        }
        proof {
            assert forall|i: int, k: int|
                self.nodes().contains(i) && 0 <= k < arena.node(
                    i,
                ).incoming.len() implies self.nodes().contains(
                (#[trigger] arena.edge(i, k)).source,
            ) by {
                assert(all@.to_set().contains(i as usize));
                assert(all@.contains(i as usize));
                let j2 = choose|j2: int| 0 <= j2 < all@.len() && all@[j2] == i as usize;
                assert(self.nodes().contains(arena.edge(all@[j2] as int, k).source));
            }
        }
        true
    }
}

/// Whether the positions order the nodes that they hold: each comes after
/// its parents, which they hold too, and no two have the same position.
pub open spec fn numbered<N, E>(arena: &Arena<N, E>, positions: Map<usize, usize>, order: Seq<usize>) -> bool {
    &&& forall|x: usize| #[trigger]
        positions.contains_key(x) ==> positions[x] < order.len() && order[positions[x] as int] == x
            && arena.is_live(x as int)
    &&& forall|p: int| 0 <= p < order.len() ==> positions.contains_key(#[trigger] order[p])
        && positions[order[p]] == p
    &&& forall|x: usize, k: int|
        positions.contains_key(x) && 0 <= k < arena.node(x as int).incoming.len() ==> {
            &&& 0 <= (#[trigger] arena.edge(x as int, k)).source
            &&& positions.contains_key(arena.edge(x as int, k).source as usize)
            &&& positions[arena.edge(x as int, k).source as usize] < positions[x]
        }
}

/// Gives the node at position `x` of the arena, and before it its ancestors,
/// the next positions in the order, unless they have one.
pub(crate) fn number<N, E>(
    arena: &Arena<N, E>,
    x: usize,
    positions: &mut BTreeMap<usize, usize>,
    order: &mut Vec<usize>,
)
    requires
        arena.wf(),
        arena.is_live(x as int),
        numbered(arena, old(positions)@, old(order)@),
    ensures
        numbered(arena, final(positions)@, final(order)@),
        final(positions)@.contains_key(x),
        old(order)@.is_prefix_of(final(order)@),
        forall|y: usize| #[trigger]
            old(positions)@.contains_key(y) ==> final(positions)@.contains_key(y)
                && final(positions)@[y] == old(positions)@[y],
        forall|y: usize| #[trigger]
            final(positions)@.contains_key(y) && !old(positions)@.contains_key(y)
                ==> arena.is_ancestor(y as int, x as int),
    decreases x,
{
    if positions.contains_key(&x) {
        return ;
    }
    let data = arena.slots[x].as_ref().unwrap();
    let mut k: usize = 0;
    while k < data.incoming.len()
        invariant
            k <= data.incoming@.len(),
            arena.wf(),
            arena.is_live(x as int),
            data == arena.slots@[x as int].unwrap(),
            numbered(arena, positions@, order@),
            !positions@.contains_key(x),
            old(order)@.is_prefix_of(order@),
            forall|y: usize| #[trigger]
                old(positions)@.contains_key(y) ==> positions@.contains_key(y) && positions@[y]
                    == old(positions)@[y],
            forall|y: usize| #[trigger]
                positions@.contains_key(y) && !old(positions)@.contains_key(y) ==> arena.is_ancestor(
                    y as int,
                    x as int,
                ) && y != x,
            forall|k2: int|
                0 <= k2 < k ==> positions@.contains_key(
                    (#[trigger] arena.edge(x as int, k2)).source as usize,
                ),
        decreases data.incoming@.len() - k,
    {
        let p = data.incoming[k].source.ptr;
        let ghost before = positions@;
        assert(arena.edge(x as int, k as int).source == p);
        number(arena, p, positions, order);
        proof {
            assert forall|y: usize| #[trigger]
                positions@.contains_key(y) && !old(positions)@.contains_key(
                    y,
                ) implies arena.is_ancestor(y as int, x as int) && y != x by {
                if !before.contains_key(y) {
                    arena.lemma_ancestor_live(y as int, p as int);
                    arena.lemma_ancestor_step(y as int, x as int, k as int);
                }
            }
        }
        k += 1;
    }
    let ghost mid = positions@;
    let ghost mid_order = order@;
    positions.insert(x, order.len());
    order.push(x);
    proof {
        assert(arena.is_ancestor(x as int, x as int));
        assert forall|y: usize| #[trigger] positions@.contains_key(y) implies positions@[y]
            < order@.len() && order@[positions@[y] as int] == y && arena.is_live(y as int) by {
            if y != x {
                assert(mid.contains_key(y));
            }
        }
        assert forall|p: int| 0 <= p < order@.len() implies positions@.contains_key(
            #[trigger] order@[p],
        ) && positions@[order@[p]] == p by {
            if p < mid_order.len() {
                assert(mid.contains_key(mid_order[p]));
            }
        }
        assert forall|y: usize, k2: int|
            positions@.contains_key(y) && 0 <= k2 < arena.node(y as int).incoming.len() implies {
            &&& 0 <= (#[trigger] arena.edge(y as int, k2)).source
            &&& positions@.contains_key(arena.edge(y as int, k2).source as usize)
            &&& positions@[arena.edge(y as int, k2).source as usize] < positions@[y]
        } by {
            if y != x {
                assert(mid.contains_key(y));
            } else {
                assert(mid.contains_key(arena.edge(x as int, k2).source as usize));
            }
        }
    }
}

/// Gives every node of the view a position, parents before children.
pub(crate) fn number_all<N, E>(arena: &Arena<N, E>, graph: &RelRcGraph) -> (r: (
    BTreeMap<usize, usize>,
    Vec<usize>,
))
    requires
        arena.wf(),
        graph.wf(arena),
        graph.closed(arena),
    ensures
        numbered(arena, r.0@, r.1@),
        forall|i: int|
            graph.nodes().contains(i) <==> 0 <= i <= usize::MAX && r.0@.contains_key(i as usize),
        r.1@.len() == graph.nodes().len(),
{
    let all = set_to_vec(&graph.all_nodes);
    let mut positions: BTreeMap<usize, usize> = BTreeMap::new();
    let mut order: Vec<usize> = Vec::new();
    let mut j: usize = 0;
    while j < all.len()
        invariant
            j <= all@.len(),
            arena.wf(),
            graph.wf(arena),
            graph.closed(arena),
            all@.to_set() == graph.all_nodes@,
            numbered(arena, positions@, order@),
            forall|x: usize| #[trigger] positions@.contains_key(x) ==> graph.nodes().contains(x as int),
            forall|j2: int| 0 <= j2 < j ==> positions@.contains_key(#[trigger] all@[j2]),
        decreases all@.len() - j,
    {
        let n = all[j];
        let ghost before = positions@;
        proof {
            assert(all@.to_set().contains(n));
            graph.lemma_nodes_live(arena, n as int);
        }
        number(arena, n, &mut positions, &mut order);
        proof {
            assert forall|x: usize| #[trigger] positions@.contains_key(x) implies graph.nodes().contains(
            x as int) by {
                if !before.contains_key(x) {
                    lemma_closed_holds_ancestors(arena, graph, n as int, x as int);
                }
            }
        }
        j += 1;
    }
    proof {
        assert forall|i: int|
            graph.nodes().contains(i) <==> 0 <= i <= usize::MAX && positions@.contains_key(
                i as usize,
            ) by {
            if graph.nodes().contains(i) {
                assert(all@.to_set().contains(i as usize));
                assert(all@.contains(i as usize));
                let j2 = choose|j2: int| 0 <= j2 < all@.len() && all@[j2] == i as usize;
                assert(positions@.contains_key(all@[j2]));
            }
        }
        lemma_order_len(graph.all_nodes@, positions@, order@);
        crate::graph_view::lemma_nodes_finite(graph.all_nodes@);
    }
    (positions, order)
}

impl<N: Clone, E: Clone> RelRcGraphSerializer<N, E> {
    /// Whether this is the flat form of the view, with the nodes at the
    /// positions `positions`: every node of the view has a position, at which
    /// there is a clone of its value and, for each of its incoming edges, the
    /// position of the source and a clone of the value; and the sinks are
    /// named by their positions.
    pub open spec fn describes(
        &self,
        arena: &Arena<N, E>,
        graph: &RelRcGraph,
        positions: Map<usize, usize>,
    ) -> bool {
        &&& forall|i: int|
            graph.nodes().contains(i) <==> 0 <= i <= usize::MAX && positions.contains_key(i as usize)
        &&& forall|x: usize| #[trigger]
            positions.contains_key(x) ==> positions[x] < self.all_nodes@.len() && self.holds(
                arena,
                positions,
                x,
            )
        &&& forall|x: usize, y: usize|
            positions.contains_key(x) && positions.contains_key(y) && positions[x] == positions[y]
                ==> x == y
        &&& self.sinks@.len() == graph.sink_ptrs().len()
        &&& forall|j: int|
            0 <= j < self.sinks@.len() ==> positions.contains_key(graph.sink_ptrs()[j] as usize) && (
            #[trigger] self.sinks@[j]).0 == positions[graph.sink_ptrs()[j] as usize]
    }

    /// Whether the flat form holds the node at position `x` of the arena, at
    /// its position among `positions`.
    pub open spec fn holds(&self, arena: &Arena<N, E>, positions: Map<usize, usize>, x: usize) -> bool {
        let data = self.all_nodes@[positions[x] as int];
        let node = arena.node(x as int);
        &&& cloned(node.value, data.value)
        &&& data.incoming@.len() == node.incoming.len()
        &&& forall|k: int|
            0 <= k < node.incoming.len() ==> {
                &&& positions.contains_key((#[trigger] node.incoming[k]).source as usize)
                &&& data.incoming@[k].source.0 == positions[node.incoming[k].source as usize]
                &&& cloned(node.incoming[k].value, data.incoming@[k].value)
            }
    }

    /// The flat form of a view that holds the parents of its nodes, as the
    /// view of all ancestors of some nodes does.
    pub fn from_graph(arena: &Arena<N, E>, graph: &RelRcGraph) -> (ser: Self)
        requires
            arena.wf(),
            graph.wf(arena),
            graph.closed(arena),
        ensures
            ser.topological(),
            ser.sinks_known(),
            ser.all_nodes@.len() == graph.nodes().len(),
            exists|positions: Map<usize, usize>| #[trigger] ser.describes(arena, graph, positions),
    {
        let (positions, order) = number_all(arena, graph);
        // The nodes, in their order.
        let mut all_nodes: Vec<SerializeNodeData<N, E>> = Vec::new();
        let mut p: usize = 0;
        while p < order.len()
            invariant
                p <= order@.len(),
                arena.wf(),
                numbered(arena, positions@, order@),
                all_nodes@.len() == p,
                forall|q2: int|
                    0 <= q2 < p ==> Self::record_of(
                        arena,
                        positions@,
                        order@[q2],
                        #[trigger] all_nodes@[q2],
                    ),
            decreases order@.len() - p,
        {
            let x = order[p];
            assert(positions@.contains_key(order@[p as int]));
            let data = arena.slots[x].as_ref().unwrap();
            let mut incoming: Vec<SerializeEdgeData<E>> = Vec::new();
            let mut k: usize = 0;
            while k < data.incoming.len()
                invariant
                    k <= data.incoming@.len(),
                    arena.wf(),
                    arena.is_live(x as int),
                    data == arena.slots@[x as int].unwrap(),
                    numbered(arena, positions@, order@),
                    positions@.contains_key(x),
                    incoming@.len() == k,
                    forall|k2: int|
                        0 <= k2 < k ==> {
                            &&& (#[trigger] incoming@[k2]).source.0 == positions@[arena.edge(
                                x as int,
                                k2,
                            ).source as usize]
                            &&& incoming@[k2].source.0 < positions@[x]
                            &&& cloned(arena.edge(x as int, k2).value, incoming@[k2].value)
                        },
                decreases data.incoming@.len() - k,
            {
                let edge = &data.incoming[k];
                assert(arena.edge(x as int, k as int) == edge@);
                let source = *positions.get(&edge.source.ptr).unwrap();
                incoming.push(
                    SerializeEdgeData { source: SerializeNodeId(source), value: edge.value.clone() },
                );
                k += 1;
            }
            all_nodes.push(SerializeNodeData { value: data.value.clone(), incoming });
            p += 1;
        }
        let mut sinks: Vec<SerializeNodeId> = Vec::new();
        let mut j: usize = 0;
        while j < graph.sinks.len()
            invariant
                j <= graph.sinks@.len(),
                graph.wf(arena),
                graph.closed(arena),
                numbered(arena, positions@, order@),
                forall|i: int|
                    graph.nodes().contains(i) <==> 0 <= i <= usize::MAX && positions@.contains_key(
                        i as usize,
                    ),
                sinks@.len() == j,
                forall|j2: int|
                    0 <= j2 < j ==> positions@.contains_key(graph.sink_ptrs()[j2] as usize) && (
                    #[trigger] sinks@[j2]).0 == positions@[graph.sink_ptrs()[j2] as usize],
            decreases graph.sinks@.len() - j,
        {
            let s = graph.sinks[j].as_ptr();
            proof {
                assert(graph.sink_ptrs()[j as int] == s);
                assert(graph.nodes().contains(graph.sink_ptrs()[j as int]));
            }
            sinks.push(SerializeNodeId(*positions.get(&s).unwrap()));
            j += 1;
        }
        let ser = RelRcGraphSerializer { sinks, all_nodes };
        proof {
            assert(graph.sink_ptrs().len() == graph.sinks@.len());
            assert(ser.topological()) by {
                assert forall|i: int, k: int|
                    0 <= i < ser.all_nodes@.len() && 0 <= k < ser.all_nodes@[i].incoming@.len() implies (
                #[trigger] ser.all_nodes@[i].incoming@[k]).source.0 < i by {
                    let d = ser.all_nodes@[i];
                    assert(Self::record_of(arena, positions@, order@[i], d));
                    assert(positions@.contains_key(order@[i]));
                }
            }
            assert(ser.describes(arena, graph, positions@)) by {
                assert forall|x: usize| #[trigger] positions@.contains_key(x) implies positions@[x]
                    < ser.all_nodes@.len() && ser.holds(arena, positions@, x) by {
                    let d = ser.all_nodes@[positions@[x] as int];
                    assert(Self::record_of(arena, positions@, order@[positions@[x] as int], d));
                    assert forall|k: int| 0 <= k < arena.node(x as int).incoming.len() implies {
                        &&& positions@.contains_key(
                            (#[trigger] arena.node(x as int).incoming[k]).source as usize,
                        )
                        &&& d.incoming@[k].source.0 == positions@[arena.node(
                            x as int,
                        ).incoming[k].source as usize]
                        &&& cloned(arena.node(x as int).incoming[k].value, d.incoming@[k].value)
                    } by {
                        assert(arena.edge(x as int, k) == arena.node(x as int).incoming[k]);
                        let e = d.incoming@[k];
                    }
                }
            }
            assert(ser.sinks_known()) by {
                assert forall|j: int| 0 <= j < ser.sinks@.len() implies (#[trigger] ser.sinks@[j]).0
                    < ser.all_nodes@.len() by {
                    assert(positions@.contains_key(graph.sink_ptrs()[j] as usize));
                }
            }
        }
        ser
    }

    /// Whether `data` is what the flat form holds for the node at position
    /// `x` of the arena.
    pub open spec fn record_of(
        arena: &Arena<N, E>,
        positions: Map<usize, usize>,
        x: usize,
        data: SerializeNodeData<N, E>,
    ) -> bool {
        &&& cloned(arena.node(x as int).value, data.value)
        &&& data.incoming@.len() == arena.node(x as int).incoming.len()
        &&& forall|k: int|
            0 <= k < data.incoming@.len() ==> {
                &&& (#[trigger] data.incoming@[k]).source.0 == positions[arena.edge(
                    x as int,
                    k,
                ).source as usize]
                &&& data.incoming@[k].source.0 < positions[x]
                &&& cloned(arena.edge(x as int, k).value, data.incoming@[k].value)
            }
    }
}

/// A view that holds the parents of its nodes holds the ancestors of its
/// nodes.
pub proof fn lemma_closed_holds_ancestors<N, E>(arena: &Arena<N, E>, graph: &RelRcGraph, d: int, a: int)
    requires
        graph.closed(arena),
        graph.nodes().contains(d),
        arena.is_ancestor(a, d),
    ensures
        graph.nodes().contains(a),
    decreases d,
{
    if a != d {
        let all = |i: int| true;
        let k = choose|k: int|
            0 <= k < arena.node(d).incoming.len() && 0 <= (#[trigger] arena.edge(d, k)).source < d
                && arena.descends(arena.edge(d, k).source, a, all);
        lemma_closed_holds_ancestors(arena, graph, arena.edge(d, k).source, a);
    }
}

/// An order that holds each node of a set once is as long as the set is
/// large.
pub proof fn lemma_order_len(nodes: Set<usize>, positions: Map<usize, usize>, order: Seq<usize>)
    requires
        nodes.finite(),
        forall|x: usize| nodes.contains(x) <==> positions.contains_key(x),
        forall|x: usize| #[trigger]
            positions.contains_key(x) ==> positions[x] < order.len() && order[positions[x] as int] == x,
        forall|p: int| 0 <= p < order.len() ==> positions.contains_key(#[trigger] order[p])
            && positions[order[p]] == p,
    ensures
        order.len() == nodes.len(),
{
    assert(order.no_duplicates()) by {
        assert forall|a: int, b: int| 0 <= a < b < order.len() implies order[a] != order[b] by {
            assert(positions[order[a]] == a);
            assert(positions[order[b]] == b);
        }
    }
    order.unique_seq_to_set();
    assert(order.to_set() =~= nodes) by {
        assert forall|x: usize| order.to_set().contains(x) <==> nodes.contains(x) by {
            if order.contains(x) {
                let p = choose|p: int| 0 <= p < order.len() && order[p] == x;
                assert(positions.contains_key(order[p]));
            }
            if nodes.contains(x) {
                assert(positions.contains_key(x));
                assert(order[positions[x] as int] == x);
            }
        }
    }
}

} // verus!
