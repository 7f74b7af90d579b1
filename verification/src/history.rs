//! A graph of nodes without duplicates.
//!
//! A history graph folds chains of ancestors that were built independently
//! into one canonical graph. Whether two nodes stand for the same thing is
//! for the resolver to say; the graph keeps one node of each kind, and tells
//! how the edges that leave the other are to be rewritten.

use crate::edge::InnerEdgeData;
use crate::hash_id::{hash_words, mix_all};
use crate::node::{less, unbump, Arena, InnerData, RelRc};
use crate::resolver::{EquivalenceResolver, InvalidResolver, ResolverId};
use std::collections::BTreeMap;
use vstd::pervasive::cloned;
use vstd::prelude::*;
use vstd::std_specs::btree::*;

verus! {

broadcast use vstd::std_specs::btree::group_btree_axioms;

/// The identifier of a node in a history graph: the hash of its ancestry, and
/// its position among the nodes of the graph with that hash.
#[derive(Clone, Copy, Debug, PartialEq, Eq, Structural, Hash, PartialOrd, Ord)]
pub struct NodeId {
    /// The hash of the ancestry of the node.
    pub hash: u64,
    /// The position of the node among the nodes with that hash.
    pub index: usize,
}

/// The identifier of an edge in a history graph: the target of the edge and
/// the position of the edge among the incoming edges of the target.
#[derive(Clone, Copy, Debug, PartialEq, Eq, Structural, Hash, PartialOrd, Ord)]
pub struct EdgeId {
    /// The edge target.
    pub target: NodeId,
    /// The position of the edge among the incoming edges of the target.
    pub index: usize,
}

/// What a history graph gives for a node: the identifier and the position of
/// the canonical node that stands for it, and the mapping that turns the
/// edges that leave the node into edges that leave the canonical node, if the
/// two are not the same node.
pub struct Canonical<M> {
    /// The identifier of the canonical node.
    pub id: NodeId,
    /// The position of the canonical node in the arena.
    pub ptr: usize,
    /// The mapping from the node to the canonical node.
    pub mapping: Option<M>,
}

/// The positions of the canonical nodes.
pub open spec fn positions_of<M>(founds: Seq<Canonical<M>>) -> Seq<int> {
    founds.map_values(|p: Canonical<M>| p.ptr as int)
}

/// The values of the edges after their sources have been replaced by the
/// canonical nodes.
pub open spec fn moved_edges<N, E, R: EquivalenceResolver<N, E>>(
    resolver: R,
    parents: Seq<Canonical<R::MergeMapping>>,
    edges: Seq<E>,
) -> Seq<E> {
    Seq::new(
        edges.len(),
        |k: int|
            match parents[k].mapping {
                Some(m) => resolver.move_spec(m, edges[k]),
                None => edges[k],
            },
    )
}

/// The hash of the ancestry of a node: the digest of the hashes of the
/// ancestries of its parents, in their order, and of its key.
pub open spec fn ancestry_hash<M>(parents: Seq<Canonical<M>>, key: u64) -> u64 {
    mix_all(parents.map_values(|c: Canonical<M>| c.id.hash).push(key))
}

/// A graph of the canonical nodes of an arena, under a resolver.
pub struct HistoryGraph<R> {
    /// The rule for when two nodes stand for the same thing.
    resolver: R,
    /// The canonical nodes, by the hash of their ancestry.
    buckets: BTreeMap<u64, Vec<RelRc>>,
    /// The identifier of each canonical node, by its position in the arena.
    ids: BTreeMap<usize, NodeId>,
}

impl<R> HistoryGraph<R> {
    /// The resolver of the graph.
    pub closed spec fn resolver_spec(&self) -> R {
        self.resolver
    }

    /// The positions of the canonical nodes whose ancestry has the hash `h`,
    /// in the order in which they were inserted.
    pub closed spec fn bucket(&self, h: u64) -> Seq<int> {
        if self.buckets@.contains_key(h) {
            self.buckets@[h]@.map_values(|r: RelRc| r@)
        } else {
            Seq::empty()
        }
    }

    /// The identifiers of the canonical nodes, by their position in the arena.
    pub closed spec fn ids(&self) -> Map<int, NodeId> {
        Map::new(
            |i: int| 0 <= i <= usize::MAX && self.ids@.contains_key(i as usize),
            |i: int| self.ids@[i as usize],
        )
    }

    /// Whether the identifier is that of a node of the graph.
    pub open spec fn has_id(&self, id: NodeId) -> bool {
        id.index < self.bucket(id.hash).len()
    }

    /// The invariant of the graph in an arena: the canonical nodes are alive
    /// and have each one identifier, and the parents of a canonical node are
    /// canonical.
    pub open spec fn wf<N, E>(&self, arena: &Arena<N, E>) -> bool {
        &&& self.ids().dom().finite()
        &&& forall|id: NodeId| #[trigger]
            self.has_id(id) ==> arena.is_live(self.bucket(id.hash)[id.index as int])
                && self.ids().contains_key(self.bucket(id.hash)[id.index as int])
                && self.ids()[self.bucket(id.hash)[id.index as int]] == id
        &&& forall|i: int| #[trigger]
            self.ids().contains_key(i) ==> self.has_id(self.ids()[i]) && self.bucket(
                self.ids()[i].hash,
            )[self.ids()[i].index as int] == i
        &&& forall|i: int, k: int|
            self.ids().contains_key(i) && 0 <= k < arena.node(i).incoming.len()
                ==> self.ids().contains_key((#[trigger] arena.edge(i, k)).source)
    }

    /// `after` holds the nodes of this graph under the same identifiers, and
    /// has the same resolver.
    pub open spec fn within(&self, after: &Self) -> bool {
        &&& after.resolver_spec() == self.resolver_spec()
        &&& forall|h: u64| #[trigger] self.bucket(h).is_prefix_of(after.bucket(h))
        &&& forall|i: int| #[trigger]
            self.ids().contains_key(i) ==> after.ids().contains_key(i) && after.ids()[i]
                == self.ids()[i]
    }

    /// Whether the two graphs hold the same nodes under the same identifiers,
    /// and have the same resolver.
    pub open spec fn same(&self, after: &Self) -> bool {
        &&& after.resolver_spec() == self.resolver_spec()
        &&& forall|h: u64| #[trigger] self.bucket(h) == after.bucket(h)
        &&& self.ids() == after.ids()
    }

    /// What the graph gives for the first `k` parents of the node at position
    /// `x`, if it has something for each of them.
    pub open spec fn resolve_parents<N, E>(&self, arena: &Arena<N, E>, x: int, k: int) -> Option<
        Seq<Canonical<R::MergeMapping>>,
    > where R: EquivalenceResolver<N, E>
        decreases x, 0int, k,
    {
        if k <= 0 {
            Some(Seq::empty())
        } else {
            match self.resolve_parents(arena, x, k - 1) {
                None => None,
                Some(ps) => {
                    let p = arena.edge(x, k - 1).source;
                    if 0 <= p < x {
                        match self.resolve(arena, p) {
                            None => None,
                            Some(c) => Some(ps.push(c)),
                        }
                    } else {
                        None
                    }
                },
            }
        }
    }

    /// What the graph gives for the node at position `x`, if it holds a node
    /// that stands for it: the node itself, if it is canonical; else the first
    /// node with the same hash of the ancestry, with the canonical nodes of
    /// its parents as parents, that the resolver finds equivalent.
    pub open spec fn resolve<N, E>(&self, arena: &Arena<N, E>, x: int) -> Option<
        Canonical<R::MergeMapping>,
    > where R: EquivalenceResolver<N, E>
        decreases x, 1int, 0int,
    {
        if self.ids().contains_key(x) {
            Some(Canonical { id: self.ids()[x], ptr: x as usize, mapping: None })
        } else {
            match self.resolve_parents(arena, x, arena.node(x).incoming.len() as int) {
                None => None,
                Some(ps) => {
                    let edges = moved_edges(
                        self.resolver_spec(),
                        ps,
                        arena.node(x).incoming.map_values(|e: crate::edge::EdgeView<E>| e.value),
                    );
                    let key = self.resolver_spec().dedup_key_spec(arena.node(x).value, edges);
                    self.first_match(arena, x, edges, ps, ancestry_hash(ps, key), 0)
                },
            }
        }
    }

    /// Whether the canonical node at position `c` stands for the node at
    /// position `x`, whose parents have the canonical nodes `ps` and whose
    /// edges have the values `edges` once moved to them: it does if it has the
    /// canonical nodes as parents and the resolver finds the two equivalent.
    pub open spec fn verdict<N, E>(
        &self,
        arena: &Arena<N, E>,
        x: int,
        edges: Seq<E>,
        ps: Seq<Canonical<R::MergeMapping>>,
        c: int,
    ) -> Option<R::MergeMapping> where R: EquivalenceResolver<N, E> {
        if arena.parents_of(c) =~= ps.map_values(|p: Canonical<R::MergeMapping>| p.ptr as int) {
            self.resolver_spec().merge_spec(
                arena.node(x).value,
                edges,
                arena.node(c).value,
                arena.node(c).incoming.map_values(|e: crate::edge::EdgeView<E>| e.value),
            )
        } else {
            None
        }
    }

    /// The first node from position `from` on among those with the hash `h`
    /// that stands for the node at position `x`.
    pub open spec fn first_match<N, E>(
        &self,
        arena: &Arena<N, E>,
        x: int,
        edges: Seq<E>,
        ps: Seq<Canonical<R::MergeMapping>>,
        h: u64,
        from: int,
    ) -> Option<Canonical<R::MergeMapping>> where R: EquivalenceResolver<N, E>
        decreases self.bucket(h).len() - from,
    {
        if from < 0 || from >= self.bucket(h).len() {
            None
        } else {
            match self.verdict(arena, x, edges, ps, self.bucket(h)[from]) {
                Some(m) => Some(
                    Canonical {
                        id: NodeId { hash: h, index: from as usize },
                        ptr: self.bucket(h)[from] as usize,
                        mapping: Some(m),
                    },
                ),
                None => self.first_match(arena, x, edges, ps, h, from + 1),
            }
        }
    }

    /// A graph without nodes, under the given resolver.
    pub fn new(resolver: R) -> (graph: Self)
        ensures
            graph.resolver_spec() == resolver,
            forall|h: u64| graph.bucket(h) == Seq::<int>::empty(),
            graph.ids() == Map::<int, NodeId>::empty(),
    {
        let graph = HistoryGraph { resolver, buckets: BTreeMap::new(), ids: BTreeMap::new() };
        assert(graph.ids() =~= Map::<int, NodeId>::empty());
        graph
    }

    /// The resolver of the graph.
    pub fn resolver(&self) -> (r: &R)
        ensures
            *r == self.resolver_spec(),
    {
        &self.resolver
    }

    /// The number of nodes of the graph.
    pub fn n_nodes(&self) -> (n: usize)
        ensures
            n == self.ids().len(),
    {
        proof {
            crate::graph_view::lemma_positions_len(self.ids@, self.ids());
        }
        self.ids.len()
    }

    /// Whether the identifier is that of a node of the graph.
    pub fn contains_id(&self, node_id: NodeId) -> (b: bool)
        ensures
            b == self.has_id(node_id),
    {
        match self.buckets.get(&node_id.hash) {
            Some(bucket) => {
                assert(bucket@.map_values(|r: RelRc| r@).len() == bucket@.len());
                node_id.index < bucket.len()
            },
            None => false,
        }
    }

    /// The node that the identifier stands for, if there is one.
    pub fn get_node(&self, node_id: NodeId) -> (node: Option<&RelRc>)
        ensures
            node is Some == self.has_id(node_id),
            node matches Some(n) ==> n@ == self.bucket(node_id.hash)[node_id.index as int],
    {
        match self.buckets.get(&node_id.hash) {
            Some(bucket) => {
                assert(bucket@.map_values(|r: RelRc| r@).len() == bucket@.len());
                if node_id.index < bucket.len() {
                    Some(&bucket[node_id.index])
                } else {
                    None
                }
            },
            None => None,
        }
    }

    /// The identifier of the node in the graph, if it is a canonical node.
    pub fn get_node_id(&self, node: &RelRc) -> (id: Option<NodeId>)
        ensures
            id is Some == self.ids().contains_key(node@),
            id matches Some(i) ==> i == self.ids()[node@],
    {
        match self.ids.get(&node.as_ptr()) {
            Some(id) => Some(*id),
            None => None,
        }
    }

    /// Whether the node is a canonical node of the graph.
    pub fn contains(&self, node: &RelRc) -> (b: bool)
        ensures
            b == self.ids().contains_key(node@),
    {
        self.ids.contains_key(&node.as_ptr())
    }
}

impl<R> HistoryGraph<R> {
    /// Whether the canonical node at position `c` has the canonical nodes
    /// `founds` as parents, in their order.
    fn parents_match<N, E>(arena: &Arena<N, E>, c: usize, founds: &Vec<Canonical<R::MergeMapping>>) -> (b:
        bool) where R: EquivalenceResolver<N, E>
        requires
            arena.is_live(c as int),
        ensures
            b == (arena.parents_of(c as int) =~= founds@.map_values(
                |p: Canonical<R::MergeMapping>| p.ptr as int,
            )),
    {
        let data = arena.slots[c].as_ref().unwrap();
        let ghost want = founds@.map_values(|p: Canonical<R::MergeMapping>| p.ptr as int);
        if data.incoming.len() != founds.len() {
            return false;
        }
        let mut k: usize = 0;
        while k < founds.len()
            invariant
                k <= founds@.len(),
                arena.is_live(c as int),
                data == arena.slots@[c as int].unwrap(),
                data.incoming@.len() == founds@.len(),
                want == founds@.map_values(|p: Canonical<R::MergeMapping>| p.ptr as int),
                forall|k2: int| 0 <= k2 < k ==> arena.parents_of(c as int)[k2] == want[k2],
            decreases founds@.len() - k,
        {
            if data.incoming[k].source.ptr != founds[k].ptr {
                assert(arena.parents_of(c as int)[k as int] != want[k as int]);
                return false;
            }
            k += 1;
        }
        true
    }

    /// Inserts the node and all its ancestors, parents first, unless the graph
    /// holds nodes that stand for them, and returns what the graph gives for
    /// the node.
    ///
    /// A node for which the graph holds a canonical node is not added: the
    /// canonical node is returned, with the mapping that rewrites the edges
    /// that leave the node. Otherwise the node becomes canonical, if all its
    /// parents are canonical; else a copy of it is made whose parents are the
    /// canonical nodes of its parents and whose edges have been moved to them,
    /// and the copy becomes canonical.
    pub fn insert_node<N: Clone + std::hash::Hash, E: Clone + std::hash::Hash>(
        &mut self,
        arena: &mut Arena<N, E>,
        node: &RelRc,
    ) -> (r: Canonical<R::MergeMapping>) where R: EquivalenceResolver<N, E>
        requires
            old(self).wf(old(arena)),
            old(arena).wf(),
            old(arena).is_live(node@),
        ensures
            old(self).inserted(old(arena), final(self), final(arena), node@, r),
    {
        self.insert_at(arena, node.as_ptr())
    }

    /// Whether `after` and `arena` are this graph and `old_arena` after the
    /// node at position `x` has been inserted, with the result `r`: the
    /// graph has grown as [`Self::inserts`] says, it is well formed, it holds
    /// what it held, and a node for which it held a canonical node has that
    /// node as its result, with nothing changed.
    pub open spec fn inserted<N: Clone, E: Clone>(
        &self,
        old_arena: &Arena<N, E>,
        after: &Self,
        arena: &Arena<N, E>,
        x: int,
        r: Canonical<R::MergeMapping>,
    ) -> bool where R: EquivalenceResolver<N, E> {
        &&& after.wf(arena)
        &&& arena.wf()
        &&& old_arena.keeps_shape(arena)
        &&& old_arena.len() <= arena.len()
        &&& self.within(after)
        &&& after.ids().contains_key(r.ptr as int)
        &&& after.ids()[r.ptr as int] == r.id
        &&& self.resolve(old_arena, x) matches Some(c) ==> r == c && *after == *self && *arena
            == *old_arena
        &&& self.resolve(old_arena, x) is None ==> after.grown_for(self, old_arena, arena, x, r)
        &&& self.resolve(old_arena, x) is Some || r.ptr == x ==> after.resolve(arena, x) == Some(r)
        &&& self.inserts(old_arena, after, arena, x, r)
    }

    /// Insertion is idempotent: inserting a node a second time gives the same
    /// canonical node under the same identifier, and changes neither the
    /// graph nor the arena. This holds of a node for which the graph held a
    /// canonical node already, and of a node that has become canonical itself.
    pub proof fn lemma_insert_twice<N: Clone, E: Clone>(
        &self,
        arena0: &Arena<N, E>,
        once: &Self,
        arena1: &Arena<N, E>,
        twice: &Self,
        arena2: &Arena<N, E>,
        x: int,
        r1: Canonical<R::MergeMapping>,
        r2: Canonical<R::MergeMapping>,
    ) where R: EquivalenceResolver<N, E>
        requires
            self.inserted(arena0, once, arena1, x, r1),
            once.inserted(arena1, twice, arena2, x, r2),
            self.resolve(arena0, x) is Some || r1.ptr == x,
        ensures
            r2 == r1,
            *twice == *once,
            *arena2 == *arena1,
    {
    }

    /// Insertion is idempotent for every node that the graph stands for
    /// once it has been inserted: where the graph then gives the canonical
    /// node of the first insertion for the node, a second insertion gives
    /// that node, under the same identifier, and changes neither the graph
    /// nor the arena.
    pub proof fn lemma_insert_again<N: Clone, E: Clone>(
        &self,
        arena0: &Arena<N, E>,
        once: &Self,
        arena1: &Arena<N, E>,
        twice: &Self,
        arena2: &Arena<N, E>,
        x: int,
        r1: Canonical<R::MergeMapping>,
        r2: Canonical<R::MergeMapping>,
    ) where R: EquivalenceResolver<N, E>
        requires
            self.inserted(arena0, once, arena1, x, r1),
            once.inserted(arena1, twice, arena2, x, r2),
            once.resolve(arena1, x) matches Some(c) && c.id == r1.id,
        ensures
            r2.id == r1.id,
            r2.ptr == r1.ptr,
            *twice == *once,
            *arena2 == *arena1,
    {
        let c = once.resolve(arena1, x).unwrap();
        assert(r2 == c);
        assert(once.has_id(once.ids()[r1.ptr as int]));
        assert(once.has_id(once.ids()[r2.ptr as int]));
    }

    /// What inserting the node at position `x` has done where the graph held
    /// no node that stood for it: the canonical node that now stands for it
    /// was not canonical before. It is a node that the resolver finds
    /// equivalent, or the node itself, or a copy of it whose parents are
    /// canonical.
    pub open spec fn grown_for<N: Clone, E: Clone>(
        &self,
        before: &Self,
        old_arena: &Arena<N, E>,
        arena: &Arena<N, E>,
        x: int,
        r: Canonical<R::MergeMapping>,
    ) -> bool where R: EquivalenceResolver<N, E> {
        &&& !before.ids().contains_key(r.ptr as int)
        &&& r.ptr == x ==> r.mapping is None
        &&& r.mapping is None ==> r.ptr == x || {
            &&& r.ptr >= old_arena.len()
            &&& cloned(old_arena.node(x).value, arena.node(r.ptr as int).value)
            &&& arena.node(r.ptr as int).incoming.len() == old_arena.node(x).incoming.len()
        }
    }

    /// Whether the canonical nodes `founds` are the parents of the node at
    /// position `x` themselves, in their order.
    pub open spec fn parents_kept<N, E>(
        arena: &Arena<N, E>,
        x: int,
        founds: Seq<Canonical<R::MergeMapping>>,
    ) -> bool where R: EquivalenceResolver<N, E> {
        forall|k: int|
            0 <= k < founds.len() ==> (#[trigger] founds[k]).mapping is None && founds[k].ptr
                == arena.edge(x, k).source
    }

    /// Whether the node at position `c` of `arena` is a copy of the node at
    /// position `x` that has just been made: it has a clone of the value, the
    /// canonical nodes `founds` as parents, and clones of the values of the
    /// edges once moved to them.
    pub open spec fn copied<N: Clone, E: Clone>(
        &self,
        old_arena: &Arena<N, E>,
        arena: &Arena<N, E>,
        x: int,
        founds: Seq<Canonical<R::MergeMapping>>,
        c: int,
    ) -> bool where R: EquivalenceResolver<N, E> {
        exists|value: N, edges: Seq<E>|
            {
                &&& cloned(old_arena.node(x).value, value)
                &&& edges.len() == founds.len()
                &&& forall|k: int|
                    0 <= k < edges.len() ==> cloned(
                        self.edges_for(old_arena, x, founds)[k],
                        #[trigger] edges[k],
                    )
                &&& #[trigger] old_arena.created(
                    arena,
                    c,
                    value,
                    positions_of(founds),
                    edges,
                )
            }
    }

    /// Whether `after` and `arena` are this graph and `old_arena` after a
    /// node has been made canonical for the node at position `x`, whose
    /// parents have the canonical nodes `founds` and whose ancestry has the
    /// hash `h`: the node itself, with one more strong handle, if its parents
    /// are canonical; else a copy of it. The canonical node, which `r` gives,
    /// comes last among those with the hash `h`.
    pub open spec fn adopted<N: Clone, E: Clone>(
        &self,
        old_arena: &Arena<N, E>,
        after: &Self,
        arena: &Arena<N, E>,
        x: int,
        founds: Seq<Canonical<R::MergeMapping>>,
        h: u64,
        r: Canonical<R::MergeMapping>,
    ) -> bool where R: EquivalenceResolver<N, E> {
        &&& after.resolver_spec() == self.resolver_spec()
        &&& r.mapping is None
        &&& r.id.hash == h
        &&& r.id.index == self.bucket(h).len()
        &&& after.ids() == self.ids().insert(r.ptr as int, r.id)
        &&& after.bucket(h) == self.bucket(h).push(r.ptr as int)
        &&& forall|g: u64| g != h ==> #[trigger] after.bucket(g) == self.bucket(g)
        &&& if Self::parents_kept(old_arena, x, founds) {
            r.ptr == x && old_arena.held(arena, x)
        } else {
            r.ptr == old_arena.len() && self.copied(old_arena, arena, x, founds, r.ptr as int)
        }
    }

    /// Whether `after` and `arena` are this graph and `old_arena` after the
    /// node at position `x`, whose parents have the canonical nodes `founds`,
    /// has been given its canonical node `r`: the first node with the same
    /// hash of the ancestry that stands for it, if there is one, and then
    /// nothing has changed; else a node that has been made canonical for it.
    pub open spec fn settled<N: Clone, E: Clone>(
        &self,
        old_arena: &Arena<N, E>,
        after: &Self,
        arena: &Arena<N, E>,
        x: int,
        founds: Seq<Canonical<R::MergeMapping>>,
        r: Canonical<R::MergeMapping>,
    ) -> bool where R: EquivalenceResolver<N, E> {
        let h = self.hash_for(old_arena, x, founds);
        match self.first_match(old_arena, x, self.edges_for(old_arena, x, founds), founds, h, 0) {
            Some(c) => r == c && *after == *self && *arena == *old_arena,
            None => self.adopted(old_arena, after, arena, x, founds, h, r),
        }
    }

    /// Whether `after` and `arena` are this graph and `old_arena` after the
    /// first `k` parents of the node at position `x` have been inserted, in
    /// their order, with the results `founds`.
    pub open spec fn inserts_parents<N: Clone, E: Clone>(
        &self,
        old_arena: &Arena<N, E>,
        after: &Self,
        arena: &Arena<N, E>,
        x: int,
        k: int,
        founds: Seq<Canonical<R::MergeMapping>>,
    ) -> bool where R: EquivalenceResolver<N, E>
        decreases x, 0int, k,
    {
        if k <= 0 {
            founds == Seq::<Canonical<R::MergeMapping>>::empty() && *after == *self && *arena
                == *old_arena
        } else {
            let p = old_arena.edge(x, k - 1).source;
            0 <= p < x && founds.len() == k && exists|mid: Self, mid_arena: Arena<N, E>|
                #[trigger] mid.wf(&mid_arena) && self.inserts_parents(
                    old_arena,
                    &mid,
                    &mid_arena,
                    x,
                    k - 1,
                    founds.drop_last(),
                ) && mid.inserts(&mid_arena, after, arena, p, founds.last())
        }
    }

    /// Whether `after` and `arena` are this graph and `old_arena` after the
    /// node at position `x` has been inserted, with the result `r`. A
    /// canonical node is its own result, and nothing changes. For another
    /// node the parents are inserted first, in their order, and then the node
    /// is given its canonical node.
    pub open spec fn inserts<N: Clone, E: Clone>(
        &self,
        old_arena: &Arena<N, E>,
        after: &Self,
        arena: &Arena<N, E>,
        x: int,
        r: Canonical<R::MergeMapping>,
    ) -> bool where R: EquivalenceResolver<N, E>
        decreases x, 1int, 0int,
    {
        if self.ids().contains_key(x) {
            r == (Canonical::<R::MergeMapping> { id: self.ids()[x], ptr: x as usize, mapping: None })
                && *after == *self && *arena == *old_arena
        } else {
            exists|mid: Self, mid_arena: Arena<N, E>, founds: Seq<Canonical<R::MergeMapping>>|
                self.inserts_parents(
                    old_arena,
                    &mid,
                    &mid_arena,
                    x,
                    old_arena.node(x).incoming.len() as int,
                    founds,
                ) && #[trigger] mid.settled(&mid_arena, after, arena, x, founds, r)
        }
    }

    /// Inserting one more parent.
    pub proof fn lemma_inserts_parent<N: Clone, E: Clone>(
        &self,
        old_arena: &Arena<N, E>,
        mid: &Self,
        mid_arena: &Arena<N, E>,
        after: &Self,
        arena: &Arena<N, E>,
        x: int,
        k: int,
        founds: Seq<Canonical<R::MergeMapping>>,
    ) where R: EquivalenceResolver<N, E>
        requires
            k > 0,
            0 <= old_arena.edge(x, k - 1).source < x,
            founds.len() == k,
            mid.wf(mid_arena),
            self.inserts_parents(old_arena, mid, mid_arena, x, k - 1, founds.drop_last()),
            mid.inserts(mid_arena, after, arena, old_arena.edge(x, k - 1).source, founds.last()),
        ensures
            self.inserts_parents(old_arena, after, arena, x, k, founds),
    {
    }

    /// Giving a node its canonical node once its parents have been inserted.
    pub proof fn lemma_inserts_node<N: Clone, E: Clone>(
        &self,
        old_arena: &Arena<N, E>,
        mid: &Self,
        mid_arena: &Arena<N, E>,
        after: &Self,
        arena: &Arena<N, E>,
        x: int,
        founds: Seq<Canonical<R::MergeMapping>>,
        r: Canonical<R::MergeMapping>,
    ) where R: EquivalenceResolver<N, E>
        requires
            !self.ids().contains_key(x),
            self.inserts_parents(
                old_arena,
                mid,
                mid_arena,
                x,
                old_arena.node(x).incoming.len() as int,
                founds,
            ),
            mid.settled(mid_arena, after, arena, x, founds, r),
        ensures
            self.inserts(old_arena, after, arena, x, r),
    {
    }

    /// The values of the edges of the node at position `x` that have to move:
    /// for each parent whose canonical node comes with a mapping, the value
    /// of the edge moved along the mapping.
    fn move_edges<N, E>(&self, arena: &Arena<N, E>, x: usize, founds: &Vec<
        Canonical<R::MergeMapping>,
    >) -> (temps: Vec<Option<E>>) where R: EquivalenceResolver<N, E>
        requires
            arena.is_live(x as int),
            founds@.len() == arena.node(x as int).incoming.len(),
        ensures
            temps@.len() == founds@.len(),
            forall|k: int|
                0 <= k < temps@.len() ==> (#[trigger] temps@[k]) == (match founds@[k].mapping {
                    Some(m) => Some(
                        self.resolver_spec().move_spec(m, arena.node(x as int).incoming[k].value),
                    ),
                    None => None::<E>,
                }),
    {
        let data = arena.slots[x].as_ref().unwrap();
        let n = founds.len();
        let mut temps: Vec<Option<E>> = Vec::new();
        let mut k: usize = 0;
        while k < n
            invariant
                k <= n,
                n == founds@.len(),
                n == data.incoming@.len(),
                arena.is_live(x as int),
                data == arena.slots@[x as int].unwrap(),
                temps@.len() == k,
                forall|k2: int|
                    0 <= k2 < k ==> (#[trigger] temps@[k2]) == (match founds@[k2].mapping {
                        Some(m) => Some(
                            self.resolver_spec().move_spec(
                                m,
                                arena.node(x as int).incoming[k2].value,
                            ),
                        ),
                        None => None::<E>,
                    }),
            decreases n - k,
        {
            assert(arena.node(x as int).incoming[k as int].value == data.incoming@[k as int].value);
            let t = match &founds[k].mapping {
                Some(m) => Some(self.resolver.move_edge_source(m, &data.incoming[k].value)),
                None => None,
            };
            temps.push(t);
            k += 1;
        }
        temps
    }

    /// The values of the edges of the node at position `x` once its parents
    /// have been replaced by the canonical nodes `founds`.
    pub open spec fn edges_for<N, E>(
        &self,
        arena: &Arena<N, E>,
        x: int,
        founds: Seq<Canonical<R::MergeMapping>>,
    ) -> Seq<E> where R: EquivalenceResolver<N, E> {
        moved_edges(
            self.resolver_spec(),
            founds,
            arena.node(x).incoming.map_values(|e: crate::edge::EdgeView<E>| e.value),
        )
    }

    /// The hash of the ancestry of the node at position `x`, whose parents
    /// have the canonical nodes `founds`.
    pub open spec fn hash_for<N, E>(
        &self,
        arena: &Arena<N, E>,
        x: int,
        founds: Seq<Canonical<R::MergeMapping>>,
    ) -> u64 where R: EquivalenceResolver<N, E> {
        ancestry_hash(
            founds,
            self.resolver_spec().dedup_key_spec(
                arena.node(x).value,
                self.edges_for(arena, x, founds),
            ),
        )
    }

    /// Looks for the first canonical node that stands for the node at
    /// position `x`, whose parents have the canonical nodes `founds`. Returns
    /// the hash of the ancestry of the node, and what was found.
    fn find<N, E>(
        &self,
        arena: &Arena<N, E>,
        x: usize,
        founds: &Vec<Canonical<R::MergeMapping>>,
        temps: &Vec<Option<E>>,
    ) -> (r: (u64, Option<Canonical<R::MergeMapping>>)) where R: EquivalenceResolver<N, E>
        requires
            self.wf(arena),
            arena.is_live(x as int),
            founds@.len() == arena.node(x as int).incoming.len(),
            temps@.len() == founds@.len(),
            forall|k: int|
                0 <= k < temps@.len() ==> (#[trigger] temps@[k]) == (match founds@[k].mapping {
                    Some(m) => Some(
                        self.resolver_spec().move_spec(m, arena.node(x as int).incoming[k].value),
                    ),
                    None => None::<E>,
                }),
        ensures
            r.0 == self.hash_for(arena, x as int, founds@),
            r.1 == self.first_match(
                arena,
                x as int,
                self.edges_for(arena, x as int, founds@),
                founds@,
                r.0,
                0,
            ),
            r.1 matches Some(c) ==> self.has_id(c.id) && self.bucket(c.id.hash)[c.id.index as int]
                == c.ptr && c.mapping is Some && arena.parents_of(c.ptr as int) =~= founds@.map_values(
                |p: Canonical<R::MergeMapping>| p.ptr as int,
            ),
    {
        let data = arena.slots[x].as_ref().unwrap();
        let n = founds.len();
        let ghost edges = self.edges_for(arena, x as int, founds@);
        let mut refs: Vec<&E> = Vec::new();
        let mut k: usize = 0;
        while k < n
            invariant
                k <= n,
                n == founds@.len(),
                n == data.incoming@.len(),
                n == temps@.len(),
                arena.is_live(x as int),
                data == arena.slots@[x as int].unwrap(),
                edges == self.edges_for(arena, x as int, founds@),
                forall|k2: int|
                    0 <= k2 < n ==> (#[trigger] temps@[k2]) == (match founds@[k2].mapping {
                        Some(m) => Some(
                            self.resolver_spec().move_spec(
                                m,
                                arena.node(x as int).incoming[k2].value,
                            ),
                        ),
                        None => None::<E>,
                    }),
                refs@.len() == k,
                forall|k2: int| 0 <= k2 < k ==> *(#[trigger] refs@[k2]) == edges[k2],
            decreases n - k,
        {
            assert(arena.node(x as int).incoming[k as int].value == data.incoming@[k as int].value);
            let ghost t = temps@[k as int];
            let e: &E = match &temps[k] {
                Some(v) => v,
                None => &data.incoming[k].value,
            };
            refs.push(e);
            k += 1;
        }
        assert(refs@.map_values(|e: &E| *e) =~= edges);
        let key = self.resolver.dedup_key(&data.value, refs.as_slice());
        let mut words: Vec<u64> = Vec::new();
        let mut k: usize = 0;
        while k < n
            invariant
                k <= n,
                n == founds@.len(),
                words@ == founds@.map_values(|c: Canonical<R::MergeMapping>| c.id.hash).take(k as int),
            decreases n - k,
        {
            words.push(founds[k].id.hash);
            assert(founds@.map_values(|c: Canonical<R::MergeMapping>| c.id.hash).take(k + 1)
                == founds@.map_values(|c: Canonical<R::MergeMapping>| c.id.hash).take(k as int).push(
                founds@[k as int].id.hash,
            ));
            k += 1;
        }
        assert(founds@.map_values(|c: Canonical<R::MergeMapping>| c.id.hash).take(n as int)
            == founds@.map_values(|c: Canonical<R::MergeMapping>| c.id.hash));
        words.push(key);
        let h = hash_words(&words);
        assert(h == ancestry_hash(founds@, key));
        match self.buckets.get(&h) {
            Some(bucket) => {
                assert(bucket@.map_values(|r: RelRc| r@).len() == bucket@.len());
                let mut j: usize = 0;
                while j < bucket.len()
                    invariant
                        j <= bucket@.len(),
                        self.wf(arena),
                        arena.is_live(x as int),
                        data == arena.slots@[x as int].unwrap(),
                        self.buckets@.contains_key(h),
                        *bucket == self.buckets@[h],
                        bucket@.len() == self.bucket(h).len(),
                        refs@.map_values(|e: &E| *e) == edges,
                        edges == self.edges_for(arena, x as int, founds@),
                        h == self.hash_for(arena, x as int, founds@),
                        self.first_match(arena, x as int, edges, founds@, h, 0) == self.first_match(
                            arena,
                            x as int,
                            edges,
                            founds@,
                            h,
                            j as int,
                        ),
                    decreases bucket@.len() - j,
                {
                    let c = bucket[j].as_ptr();
                    proof {
                        assert(self.bucket(h)[j as int] == c);
                        assert(self.has_id(NodeId { hash: h, index: j }));
                    }
                    if Self::parents_match(arena, c, founds) {
                        let other = arena.slots[c].as_ref().unwrap();
                        let mut other_refs: Vec<&E> = Vec::new();
                        let mut k: usize = 0;
                        while k < other.incoming.len()
                            invariant
                                k <= other.incoming@.len(),
                                other_refs@.len() == k,
                                forall|k2: int|
                                    0 <= k2 < k ==> *(#[trigger] other_refs@[k2])
                                        == other.incoming@[k2].value,
                            decreases other.incoming@.len() - k,
                        {
                            other_refs.push(&other.incoming[k].value);
                            k += 1;
                        }
                        assert(other_refs@.map_values(|e: &E| *e) =~= arena.node(
                            c as int,
                        ).incoming.map_values(|e: crate::edge::EdgeView<E>| e.value));
                        match self.resolver.try_merge_mapping(
                            &data.value,
                            refs.as_slice(),
                            &other.value,
                            other_refs.as_slice(),
                        ) {
                            Ok(m) => {
                                assert(self.verdict(arena, x as int, edges, founds@, c as int)
                                    == Some(m));
                                return (
                                    h,
                                    Some(
                                        Canonical {
                                            id: NodeId { hash: h, index: j },
                                            ptr: c,
                                            mapping: Some(m),
                                        },
                                    ),
                                );
                            },
                            Err(_) => {
                                assert(self.verdict(arena, x as int, edges, founds@, c as int)
                                    is None);
                            },
                        }
                    } else {
                        assert(self.verdict(arena, x as int, edges, founds@, c as int) is None);
                    }
                    j += 1;
                }
                (h, None)
            },
            None => (h, None),
        }
    }

    /// Makes the node at position `x` canonical, or a copy of it whose parents
    /// are the canonical nodes `founds`, under the hash `h`.
    fn adopt<N: Clone + std::hash::Hash, E: Clone + std::hash::Hash>(
        &mut self,
        arena: &mut Arena<N, E>,
        x: usize,
        founds: &Vec<Canonical<R::MergeMapping>>,
        temps: Vec<Option<E>>,
        h: u64,
    ) -> (r: Canonical<R::MergeMapping>) where R: EquivalenceResolver<N, E>
        requires
            old(self).wf(old(arena)),
            old(arena).wf(),
            old(arena).is_live(x as int),
            !old(self).ids().contains_key(x as int),
            founds@.len() == old(arena).node(x as int).incoming.len(),
            temps@.len() == founds@.len(),
            forall|k: int|
                0 <= k < temps@.len() ==> (#[trigger] temps@[k]) == (match founds@[k].mapping {
                    Some(m) => Some(
                        old(self).resolver_spec().move_spec(
                            m,
                            old(arena).node(x as int).incoming[k].value,
                        ),
                    ),
                    None => None::<E>,
                }),
            forall|k: int|
                0 <= k < founds@.len() ==> old(self).ids().contains_key(
                    (#[trigger] founds@[k]).ptr as int,
                ),
        ensures
            old(self).adopted(old(arena), final(self), final(arena), x as int, founds@, h, r),
            final(self).wf(final(arena)),
            final(arena).wf(),
            old(arena).keeps_shape(final(arena)),
            old(arena).len() <= final(arena).len(),
            old(self).within(final(self)),
            final(self).ids() == old(self).ids().insert(r.ptr as int, r.id),
            !old(self).ids().contains_key(r.ptr as int),
            r.mapping is None,
            r.id.hash == h,
            r.ptr == x || {
                &&& r.ptr >= old(arena).len()
                &&& cloned(old(arena).node(x as int).value, final(arena).node(r.ptr as int).value)
                &&& final(arena).node(r.ptr as int).incoming.len() == old(arena).node(
                    x as int,
                ).incoming.len()
            },
    {
        let ghost graph0 = *self;
        let ghost arena0 = *arena;
        let n = founds.len();
        let data = arena.slots[x].as_ref().unwrap();
        let mut reuse = true;
        let mut k: usize = 0;
        while k < n
            invariant
                k <= n,
                n == founds@.len(),
                n == data.incoming@.len(),
                reuse ==> forall|k2: int|
                    0 <= k2 < k ==> (#[trigger] founds@[k2]).mapping is None && founds@[k2].ptr
                        == data.incoming@[k2].source.ptr,
                !reuse ==> exists|k2: int|
                    0 <= k2 < k && !((#[trigger] founds@[k2]).mapping is None && founds@[k2].ptr
                        == data.incoming@[k2].source.ptr),
            decreases n - k,
        {
            if founds[k].mapping.is_some() || founds[k].ptr != data.incoming[k].source.ptr {
                reuse = false;
            }
            k += 1;
        }
        proof {
            assert forall|k2: int| 0 <= k2 < n implies arena.edge(x as int, k2).source
                == data.incoming@[k2].source.ptr by {
                assert(arena.edge(x as int, k2) == data.incoming@[k2]@);
            }
            assert(reuse == Self::parents_kept(arena, x as int, founds@));
        }
        let ghost moved = graph0.edges_for(&arena0, x as int, founds@);
        let handle = if reuse {
            let held = arena.hold(x);
            proof {
                assert forall|k2: int| 0 <= k2 < arena.node(x as int).incoming.len() implies graph0.ids().contains_key(
                (#[trigger] arena.edge(x as int, k2)).source) by {
                    assert(arena.edge(x as int, k2) == arena0.edge(x as int, k2));
                    assert(founds@[k2].ptr == data.incoming@[k2].source.ptr);
                }
            }
            held
        } else {
            let value = data.value.clone();
            let mut owned: Vec<E> = Vec::new();
            let mut k: usize = 0;
            while k < n
                invariant
                    k <= n,
                    n == data.incoming@.len(),
                    n == temps@.len(),
                    n == founds@.len(),
                    arena.is_live(x as int),
                    data == arena.slots@[x as int].unwrap(),
                    moved == self.edges_for(arena, x as int, founds@),
                    forall|k2: int|
                        0 <= k2 < temps@.len() ==> (#[trigger] temps@[k2]) == (
                        match founds@[k2].mapping {
                            Some(m) => Some(
                                self.resolver_spec().move_spec(
                                    m,
                                    arena.node(x as int).incoming[k2].value,
                                ),
                            ),
                            None => None::<E>,
                        }),
                    owned@.len() == k,
                    forall|k2: int| 0 <= k2 < k ==> cloned(moved[k2], #[trigger] owned@[k2]),
                decreases n - k,
            {
                assert(arena.node(x as int).incoming[k as int].value == data.incoming@[k as int].value);
                let ghost t = temps@[k as int];
                let e = match &temps[k] {
                    Some(v) => v.clone(),
                    None => data.incoming[k].value.clone(),
                };
                assert(cloned(moved[k as int], e));
                owned.push(e);
                k += 1;
            }
            let ghost copies = owned@;
            let mut sources: Vec<RelRc> = Vec::new();
            let mut k: usize = 0;
            while k < n
                invariant
                    k <= n,
                    n == founds@.len(),
                    sources@.len() == k,
                    forall|k2: int| 0 <= k2 < k ==> (#[trigger] sources@[k2])@ == founds@[k2].ptr,
                decreases n - k,
            {
                sources.push(RelRc { ptr: founds[k].ptr });
                k += 1;
            }
            let mut parents: Vec<(&RelRc, E)> = Vec::new();
            for e in it: owned
                invariant
                    it.seq().len() == sources@.len(),
                    parents@.len() == it.index(),
                    forall|k2: int|
                        0 <= k2 < it.index() ==> (#[trigger] parents@[k2]).0@ == sources@[k2]@
                            && parents@[k2].1 == it.seq()[k2],
            {
                let k = parents.len();
                parents.push((&sources[k], e));
            }
            proof {
                assert forall|k2: int| 0 <= k2 < parents@.len() implies arena.is_live(
                    (#[trigger] parents@[k2]).0@,
                ) by {
                    assert(graph0.ids().contains_key(founds@[k2].ptr as int));
                    assert(graph0.has_id(graph0.ids()[founds@[k2].ptr as int]));
                }
            }
            let ghost ps = parents@.map_values(|pe: (&RelRc, E)| pe.0@);
            let ghost vs = parents@.map_values(|pe: (&RelRc, E)| pe.1);
            proof {
                assert(vs =~= copies);
                assert(ps =~= positions_of(founds@));
            }
            let made = RelRc::with_parents(arena, value, parents);
            proof {
                assert(arena0.created(arena, made@, value, positions_of(founds@), copies));
                assert(graph0.copied(&arena0, arena, x as int, founds@, made@));
                arena0.lemma_created_extends(arena, made@, value, ps, vs);
                assert forall|k2: int| 0 <= k2 < arena.node(made@).incoming.len() implies graph0.ids().contains_key(
                (#[trigger] arena.edge(made@, k2)).source) by {
                    assert(ps[k2] == founds@[k2].ptr);
                    assert(graph0.ids().contains_key(founds@[k2].ptr as int));
                }
            }
            made
        };
        let ptr = handle.as_ptr();
        proof {
            assert(arena0.keeps_shape(arena)) by {
                assert forall|i: int| arena0.is_live(i) implies arena.is_live(i) && (
                #[trigger] arena.node(i)).value == arena0.node(i).value && arena.node(i).incoming
                    == arena0.node(i).incoming by {}
            }
            assert(!graph0.ids().contains_key(ptr as int)) by {
                if ptr != x && graph0.ids().contains_key(ptr as int) {
                    assert(graph0.has_id(graph0.ids()[ptr as int]));
                }
            }
        }
        let mut bucket = match self.buckets.remove(&h) {
            Some(b) => b,
            None => Vec::new(),
        };
        assert(bucket@.map_values(|r: RelRc| r@) =~= graph0.bucket(h));
        let id = NodeId { hash: h, index: bucket.len() };
        bucket.push(handle);
        self.buckets.insert(h, bucket);
        self.ids.insert(ptr, id);
        proof {
            assert(self.bucket(h) =~= graph0.bucket(h).push(ptr as int));
            assert forall|g: u64| g != h implies self.bucket(g) == graph0.bucket(g) by {}
            assert(self.ids() =~= graph0.ids().insert(ptr as int, id));
            lemma_pushed_wf(&graph0, self, &arena0, arena, ptr as int, id);
            assert forall|g: u64| #[trigger] graph0.bucket(g).is_prefix_of(self.bucket(g)) by {}
        }
        Canonical { id, ptr, mapping: None }
    }

    fn insert_at<N: Clone + std::hash::Hash, E: Clone + std::hash::Hash>(
        &mut self,
        arena: &mut Arena<N, E>,
        x: usize,
    ) -> (r: Canonical<R::MergeMapping>) where R: EquivalenceResolver<N, E>
        requires
            old(self).wf(old(arena)),
            old(arena).wf(),
            old(arena).is_live(x as int),
        ensures
            final(self).wf(final(arena)),
            final(arena).wf(),
            old(arena).keeps_shape(final(arena)),
            old(arena).len() <= final(arena).len(),
            old(self).within(final(self)),
            final(self).ids().contains_key(r.ptr as int),
            final(self).ids()[r.ptr as int] == r.id,
            forall|i: int|
                final(self).ids().contains_key(i) && !old(self).ids().contains_key(i) ==> i <= x
                    || i >= old(arena).len(),
            old(self).resolve(old(arena), x as int) matches Some(c) ==> r == c && *final(self)
                == *old(self) && *final(arena) == *old(arena),
            old(self).resolve(old(arena), x as int) is None ==> final(self).grown_for(
                old(self),
                old(arena),
                final(arena),
                x as int,
                r,
            ),
            old(self).inserts(old(arena), final(self), final(arena), x as int, r),
        decreases x,
    {
        match self.ids.get(&x) {
            Some(id) => {
                return Canonical { id: *id, ptr: x, mapping: None };
            },
            None => {},
        }
        let ghost graph0 = *self;
        let ghost arena0 = *arena;
        let n = arena.slots[x].as_ref().unwrap().incoming.len();
        // The parents first.
        let mut founds: Vec<Canonical<R::MergeMapping>> = Vec::new();
        let mut k: usize = 0;
        while k < n
            invariant
                k <= n,
                n == arena0.node(x as int).incoming.len(),
                graph0.wf(&arena0),
                arena0.wf(),
                arena0.is_live(x as int),
                !graph0.ids().contains_key(x as int),
                self.wf(arena),
                arena.wf(),
                arena0.keeps_shape(arena),
                arena0.len() <= arena.len(),
                graph0.within(self),
                !self.ids().contains_key(x as int),
                forall|i: int|
                    self.ids().contains_key(i) && !graph0.ids().contains_key(i) ==> i < x || i
                        >= arena0.len(),
                founds@.len() == k,
                forall|k2: int|
                    0 <= k2 < k ==> self.ids().contains_key((#[trigger] founds@[k2]).ptr as int)
                        && self.ids()[founds@[k2].ptr as int] == founds@[k2].id,
                graph0.resolve_parents(&arena0, x as int, k as int) matches Some(ps) ==> founds@ == ps
                    && *self == graph0 && *arena == arena0,
                graph0.resolve_parents(&arena0, x as int, k as int) is None ==> exists|k2: int|
                    0 <= k2 < k && !graph0.ids().contains_key((#[trigger] founds@[k2]).ptr as int),
                graph0.inserts_parents(&arena0, self, arena, x as int, k as int, founds@),
            decreases n - k,
        {
            let ghost inner_graph = *self;
            let ghost inner_arena = *arena;
            let ghost founds0 = founds@;
            proof {
                let y = arena.node(x as int);
                assert(arena0.edge(x as int, k as int) == arena.edge(x as int, k as int));
            }
            let p = arena.slots[x].as_ref().unwrap().incoming[k].source.ptr;
            assert(p == arena0.edge(x as int, k as int).source);
            let c = self.insert_at(arena, p);
            proof {
                assert(arena0.keeps_shape(arena)) by {
                    assert forall|i: int| arena0.is_live(i) implies arena.is_live(i) && (
                    #[trigger] arena.node(i)).value == arena0.node(i).value && arena.node(i).incoming
                        == arena0.node(i).incoming by {
                        let y = inner_arena.node(i);
                    }
                }
                assert(graph0.within(self)) by {
                    assert forall|h: u64| #[trigger] graph0.bucket(h).is_prefix_of(self.bucket(h)) by {
                        assert(graph0.bucket(h).is_prefix_of(inner_graph.bucket(h)));
                        assert(inner_graph.bucket(h).is_prefix_of(self.bucket(h)));
                    }
                }
                assert forall|k2: int| 0 <= k2 < k implies self.ids().contains_key(
                    (#[trigger] founds0[k2]).ptr as int,
                ) && self.ids()[founds0[k2].ptr as int] == founds0[k2].id by {
                    assert(inner_graph.ids().contains_key(founds0[k2].ptr as int));
                }
            }
            founds.push(c);
            proof {
                assert(founds@.drop_last() =~= founds0);
                assert(founds@.last() == c);
                assert(inner_graph.inserts(&inner_arena, self, arena, p as int, c));
                graph0.lemma_inserts_parent(
                    &arena0,
                    &inner_graph,
                    &inner_arena,
                    self,
                    arena,
                    x as int,
                    k + 1,
                    founds@,
                );
                if graph0.resolve_parents(&arena0, x as int, k + 1) is None {
                    if graph0.resolve_parents(&arena0, x as int, k as int) is None {
                        let k2 = choose|k2: int|
                            0 <= k2 < k && !graph0.ids().contains_key(
                                (#[trigger] founds0[k2]).ptr as int,
                            );
                        assert(founds@[k2] == founds0[k2]);
                    } else {
                        assert(inner_graph == graph0);
                        assert(graph0.resolve(&arena0, p as int) is None);
                        assert(founds@[k as int] == c);
                    }
                }
            }
            k += 1;
        }
        let ghost found_all = graph0.resolve_parents(&arena0, x as int, n as int);
        assert(graph0.within(self));
        proof {
            let y = arena.node(x as int);
            assert(arena.node(x as int).incoming == arena0.node(x as int).incoming);
        }
        let ghost mid_graph = *self;
        let ghost mid_arena = *arena;
        let temps = self.move_edges(arena, x, &founds);
        let (h, found) = self.find(arena, x, &founds, &temps);
        match found {
            Some(c) => {
                proof {
                    assert(mid_graph.settled(&mid_arena, self, arena, x as int, founds@, c));
                    graph0.lemma_inserts_node(
                        &arena0,
                        &mid_graph,
                        &mid_arena,
                        self,
                        arena,
                        x as int,
                        founds@,
                        c,
                    );
                    if found_all is None {
                        let k2 = choose|k2: int|
                            0 <= k2 < n && !graph0.ids().contains_key(
                                (#[trigger] founds@[k2]).ptr as int,
                            );
                        if graph0.ids().contains_key(c.ptr as int) {
                            assert(graph0.has_id(graph0.ids()[c.ptr as int]));
                            let y = arena.node(c.ptr as int);
                            assert(arena0.edge(c.ptr as int, k2) == arena.edge(c.ptr as int, k2));
                            assert(arena.parents_of(c.ptr as int)[k2] == founds@[k2].ptr);
                        }
                    }
                    assert(c.id.index < self.bucket(c.id.hash).len());
                    assert(graph0.within(self));
                }
                c
            },
            None => {
                let r = self.adopt(arena, x, &founds, temps, h);
                proof {
                    assert(mid_graph.settled(&mid_arena, self, arena, x as int, founds@, r));
                    graph0.lemma_inserts_node(
                        &arena0,
                        &mid_graph,
                        &mid_arena,
                        self,
                        arena,
                        x as int,
                        founds@,
                        r,
                    );
                    assert(arena0.keeps_shape(arena)) by {
                        assert forall|i: int| arena0.is_live(i) implies arena.is_live(i) && (
                        #[trigger] arena.node(i)).value == arena0.node(i).value && arena.node(
                            i,
                        ).incoming == arena0.node(i).incoming by {
                            let y = mid_arena.node(i);
                        }
                    }
                    assert forall|g: u64| #[trigger] graph0.bucket(g).is_prefix_of(self.bucket(g)) by {
                        assert(graph0.bucket(g).is_prefix_of(mid_graph.bucket(g)));
                        assert(mid_graph.bucket(g).is_prefix_of(self.bucket(g)));
                    }
                    assert forall|i: int| #[trigger] graph0.ids().contains_key(i) implies self.ids().contains_key(
                    i) && self.ids()[i] == graph0.ids()[i] by {
                        assert(mid_graph.ids().contains_key(i));
                    }
                }
                r
            },
        }
    }
}

/// Where the graph has nothing for one of the first parents of a node, it has
/// nothing for the parents of the node.
pub proof fn lemma_parents_none<N, E, R: EquivalenceResolver<N, E>>(
    graph: &HistoryGraph<R>,
    arena: &Arena<N, E>,
    x: int,
    k: int,
    n: int,
)
    requires
        0 <= k <= n,
        graph.resolve_parents(arena, x, k) is None,
    ensures
        graph.resolve_parents(arena, x, n) is None,
    decreases n - k,
{
    if k < n {
        lemma_parents_none(graph, arena, x, k + 1, n);
    }
}

/// Making a live node whose parents are canonical canonical, under a new
/// identifier, leaves the graph well formed.
pub proof fn lemma_pushed_wf<N, E, R: EquivalenceResolver<N, E>>(
    before: &HistoryGraph<R>,
    graph: &HistoryGraph<R>,
    old_arena: &Arena<N, E>,
    arena: &Arena<N, E>,
    ptr: int,
    id: NodeId,
)
    requires
        before.wf(old_arena),
        old_arena.keeps_shape(arena),
        arena.is_live(ptr),
        0 <= ptr <= usize::MAX,
        !before.ids().contains_key(ptr),
        id.index == before.bucket(id.hash).len(),
        graph.bucket(id.hash) == before.bucket(id.hash).push(ptr),
        forall|g: u64| g != id.hash ==> graph.bucket(g) == before.bucket(g),
        graph.ids() == before.ids().insert(ptr, id),
        forall|k: int|
            0 <= k < arena.node(ptr).incoming.len() ==> before.ids().contains_key(
                (#[trigger] arena.edge(ptr, k)).source,
            ),
    ensures
        graph.wf(arena),
{
    assert forall|i: NodeId| #[trigger] graph.has_id(i) implies arena.is_live(
        graph.bucket(i.hash)[i.index as int],
    ) && graph.ids().contains_key(graph.bucket(i.hash)[i.index as int]) && graph.ids()[graph.bucket(
        i.hash,
    )[i.index as int]] == i by {
        if i.hash == id.hash && i.index == id.index {
            assert(i == id);
        } else {
            assert(before.has_id(i));
            let e = before.bucket(i.hash)[i.index as int];
            let y = arena.node(e);
            assert(graph.bucket(i.hash)[i.index as int] == e);
            assert(before.ids().contains_key(e));
            assert(e != ptr);
        }
    }
    assert forall|i: int| #[trigger] graph.ids().contains_key(i) implies graph.has_id(
        graph.ids()[i],
    ) && graph.bucket(graph.ids()[i].hash)[graph.ids()[i].index as int] == i by {
        if i != ptr {
            assert(before.ids().contains_key(i));
            assert(before.has_id(before.ids()[i]));
        }
    }
    assert forall|i: int, k: int|
        graph.ids().contains_key(i) && 0 <= k < arena.node(i).incoming.len() implies graph.ids().contains_key(
        (#[trigger] arena.edge(i, k)).source,
    ) by {
        if i != ptr {
            assert(before.ids().contains_key(i));
            assert(before.has_id(before.ids()[i]));
            let y = arena.node(i);
            assert(old_arena.edge(i, k) == arena.edge(i, k));
        }
    }
}

impl<R> HistoryGraph<R> {
    /// Inserts the node and all its ancestors, and returns the identifier of
    /// the canonical node that stands for the node.
    pub fn insert_ancestors<N: Clone + std::hash::Hash, E: Clone + std::hash::Hash>(
        &mut self,
        arena: &mut Arena<N, E>,
        node: &RelRc,
    ) -> (id: NodeId) where R: EquivalenceResolver<N, E>
        requires
            old(self).wf(old(arena)),
            old(arena).wf(),
            old(arena).is_live(node@),
        ensures
            final(self).wf(final(arena)),
            final(arena).wf(),
            old(arena).keeps_shape(final(arena)),
            old(arena).len() <= final(arena).len(),
            old(self).within(final(self)),
            final(self).has_id(id),
            old(self).resolve(old(arena), node@) matches Some(c) ==> id == c.id && *final(self)
                == *old(self) && *final(arena) == *old(arena),
            exists|r: Canonical<R::MergeMapping>| #[trigger]
                old(self).inserted(old(arena), final(self), final(arena), node@, r) && r.id == id,
    {
        let r = self.insert_node(arena, node);
        assert(self.has_id(self.ids()[r.ptr as int]));
        r.id
    }

    /// Whether the graph has no nodes and the given resolver.
    pub open spec fn is_new(&self, resolver: R) -> bool {
        &&& self.resolver_spec() == resolver
        &&& forall|h: u64| self.bucket(h) == Seq::<int>::empty()
        &&& self.ids() == Map::<int, NodeId>::empty()
    }

    /// Whether `after` and `arena` are this graph and `old_arena` after the
    /// nodes at the positions `xs` have been inserted, in their order.
    pub open spec fn inserted_all<N: Clone, E: Clone>(
        &self,
        old_arena: &Arena<N, E>,
        after: &Self,
        arena: &Arena<N, E>,
        xs: Seq<int>,
    ) -> bool where R: EquivalenceResolver<N, E>
        decreases xs.len(),
    {
        if xs.len() == 0 {
            *after == *self && *arena == *old_arena
        } else {
            exists|mid: Self, mid_arena: Arena<N, E>, r: Canonical<R::MergeMapping>|
                self.inserted_all(old_arena, &mid, &mid_arena, xs.drop_last()) && #[trigger] mid.inserted(
                    &mid_arena,
                    after,
                    arena,
                    xs.last(),
                    r,
                )
        }
    }

    /// The graph of the given nodes and their ancestors, under the given
    /// resolver. The nodes are inserted in their order.
    pub fn from_nodes<N: Clone + std::hash::Hash, E: Clone + std::hash::Hash>(
        arena: &mut Arena<N, E>,
        resolver: R,
        nodes: &Vec<RelRc>,
    ) -> (graph: Self) where R: EquivalenceResolver<N, E>
        requires
            old(arena).wf(),
            forall|j: int| 0 <= j < nodes@.len() ==> old(arena).is_live((#[trigger] nodes@[j])@),
        ensures
            graph.wf(final(arena)),
            final(arena).wf(),
            graph.resolver_spec() == resolver,
            old(arena).keeps_shape(final(arena)),
            old(arena).len() <= final(arena).len(),
            exists|start: Self|
                #[trigger] start.is_new(resolver) && start.inserted_all(
                    old(arena),
                    &graph,
                    final(arena),
                    nodes@.map_values(|n: RelRc| n@),
                ),
    {
        let mut graph = Self::new(resolver);
        assert(graph.wf(arena)) by {
            assert forall|id: NodeId| !graph.has_id(id) by {
                assert(graph.bucket(id.hash) == Seq::<int>::empty());
            }
        }
        let ghost start = graph;
        let ghost xs = nodes@.map_values(|n: RelRc| n@);
        let mut j: usize = 0;
        proof {
            assert(xs.take(0) =~= Seq::<int>::empty());
        }
        while j < nodes.len()
            invariant
                j <= nodes@.len(),
                xs == nodes@.map_values(|n: RelRc| n@),
                start.is_new(resolver),
                start.inserted_all(old(arena), &graph, arena, xs.take(j as int)),
                graph.wf(arena),
                arena.wf(),
                graph.resolver_spec() == resolver,
                old(arena).keeps_shape(arena),
                old(arena).len() <= arena.len(),
                forall|j2: int| 0 <= j2 < nodes@.len() ==> old(arena).is_live((#[trigger] nodes@[j2])@),
            decreases nodes@.len() - j,
        {
            let ghost prev = *arena;
            let ghost mid = graph;
            proof {
                let y = arena.node(nodes@[j as int]@);
            }
            let r = graph.insert_node(arena, &nodes[j]);
            proof {
                assert(xs.take(j + 1).drop_last() =~= xs.take(j as int));
                assert(xs.take(j + 1).last() == nodes@[j as int]@);
                assert(mid.inserted(&prev, &graph, arena, xs.take(j + 1).last(), r));
                assert forall|i: int| old(arena).is_live(i) implies arena.is_live(i) && (
                #[trigger] arena.node(i)).value == old(arena).node(i).value && arena.node(i).incoming
                    == old(arena).node(i).incoming by {
                    let y = prev.node(i);
                }
            }
            j += 1;
        }
        proof {
            assert(xs.take(nodes@.len() as int) =~= xs);
        }
        graph
    }

    /// The positions of the canonical nodes, each once.
    pub(crate) fn positions(&self) -> (ptrs: Vec<usize>)
        ensures
            ptrs@.no_duplicates(),
            forall|p: usize| ptrs@.contains(p) <==> self.ids().contains_key(p as int),
    {
        let ptrs = crate::detached::map_keys(&self.ids);
        proof {
            assert forall|p: usize| ptrs@.contains(p) <==> self.ids().contains_key(p as int) by {
                assert(ptrs@.to_set().contains(p) == ptrs@.contains(p));
            }
        }
        ptrs
    }

    /// Whether the graph has its strong handles: every canonical node is
    /// alive and has a strong handle.
    pub open spec fn owns<N, E>(&self, arena: &Arena<N, E>) -> bool {
        forall|i: int| #[trigger]
            self.ids().contains_key(i) ==> arena.is_live(i) && arena.node(i).handles >= 1
    }

    /// Gives the strong handles of the graph back, one for each canonical
    /// node.
    ///
    /// A node that is left without a strong handle and without a live child
    /// is destroyed, and so on upwards. Where the graph does not have its
    /// handles, those that it has are given back.
    pub fn release<N, E>(self, arena: &mut Arena<N, E>)
        requires
            old(arena).wf(),
        ensures
            final(arena).wf(),
            final(arena).len() == old(arena).len(),
            forall|i: int| final(arena).is_live(i) ==> old(arena).is_live(i),
            self.owns(old(arena)) ==> old(arena).given_back(
                final(arena),
                |j: int|
                    less(
                        old(arena).node(j).handles,
                        if self.ids().contains_key(j) {
                            1
                        } else {
                            0
                        },
                    ),
            ),
    {
        let ptrs = crate::detached::map_keys(&self.ids);
        let mut k: usize = 0;
        proof {
            arena.lemma_given_back_none();
            let start = |j: int|
                less(
                    old(arena).node(j).handles,
                    if ptrs@.take(0).contains(j as usize) && 0 <= j <= usize::MAX {
                        1
                    } else {
                        0
                    },
                );
            assert forall|j: int| #[trigger] start(j) == old(arena).node(j).handles by {}
            assert(old(arena).given_back(arena, start));
        }
        while k < ptrs.len()
            invariant
                k <= ptrs@.len(),
                ptrs@.no_duplicates(),
                ptrs@.to_set() == self.ids@.dom(),
                arena.wf(),
                arena.len() == old(arena).len(),
                forall|i: int| arena.is_live(i) ==> old(arena).is_live(i),
                self.owns(old(arena)) ==> old(arena).given_back(
                    arena,
                    |j: int|
                        less(
                            old(arena).node(j).handles,
                            if ptrs@.take(k as int).contains(j as usize) && 0 <= j <= usize::MAX {
                                1
                            } else {
                                0
                            },
                        ),
                ),
            decreases ptrs@.len() - k,
        {
            let ghost mid = *arena;
            let x = ptrs[k];
            let node = RelRc { ptr: x };
            proof {
                assert(ptrs@.to_set().contains(x));
                assert(self.ids().contains_key(x as int));
                if self.owns(old(arena)) {
                    let t0 = ptrs@.take(k as int);
                    if t0.contains(x) {
                        let j2 = choose|j2: int| 0 <= j2 < t0.len() && t0[j2] == x;
                        assert(ptrs@[j2] == ptrs@[k as int]);
                    }
                    assert(old(arena).is_live(x as int));
                    assert(arena.is_live(x as int));
                    let y = arena.node(x as int);
                }
            }
            if arena.contains(&node) && arena.get(&node).strong_count() > 0 {
                node.release(arena);
                proof {
                    if self.owns(old(arena)) {
                        let counts = |j: int|
                            less(
                                old(arena).node(j).handles,
                                if ptrs@.take(k as int).contains(j as usize) && 0 <= j <= usize::MAX {
                                    1
                                } else {
                                    0
                                },
                            );
                        let left = unbump(mid.node(x as int).handles);
                        old(arena).lemma_given_back_more(&mid, arena, counts, x as int, left);
                        let next = |j: int|
                            if j == x {
                                left
                            } else {
                                counts(j)
                            };
                        let goal = |j: int|
                            less(
                                old(arena).node(j).handles,
                                if ptrs@.take(k + 1).contains(j as usize) && 0 <= j <= usize::MAX {
                                    1
                                } else {
                                    0
                                },
                            );
                        let t0 = ptrs@.take(k as int);
                        let t1 = ptrs@.take(k + 1);
                        assert forall|j: int| next(j) == #[trigger] goal(j) by {
                            if t0.contains(j as usize) {
                                let j2 = choose|j2: int| 0 <= j2 < t0.len() && t0[j2] == j as usize;
                                assert(t1[j2] == j as usize);
                            }
                            if t1.contains(j as usize) && j != x && 0 <= j <= usize::MAX {
                                let j2 = choose|j2: int| 0 <= j2 < t1.len() && t1[j2] == j as usize;
                                assert(t0[j2] == j as usize);
                            }
                            if j == x {
                                assert(t1[k as int] == x);
                            }
                        }
                        assert(old(arena).given_back(arena, goal));
                    }
                }
            }
            k += 1;
        }
        proof {
            if self.owns(old(arena)) {
                let done = |j: int|
                    less(
                        old(arena).node(j).handles,
                        if ptrs@.take(k as int).contains(j as usize) && 0 <= j <= usize::MAX {
                            1
                        } else {
                            0
                        },
                    );
                let goal = |j: int|
                    less(
                        old(arena).node(j).handles,
                        if self.ids().contains_key(j) {
                            1
                        } else {
                            0
                        },
                    );
                assert(ptrs@.take(k as int) =~= ptrs@);
                assert forall|j: int| done(j) == #[trigger] goal(j) by {
                    if 0 <= j <= usize::MAX {
                        assert(ptrs@.to_set().contains(j as usize) == self.ids@.dom().contains(
                            j as usize,
                        ));
                    }
                }
                assert(old(arena).given_back(arena, goal));
            }
        }
    }

    /// The identifiers of all nodes of the graph, each once, in the order of
    /// the creation of the nodes.
    pub fn all_node_ids(&self) -> (ids: Vec<NodeId>)
        ensures
            ids@.len() == self.ids().len(),
            ids@.to_set() == self.ids().values(),
    {
        let ptrs = crate::detached::map_keys(&self.ids);
        proof {
            crate::graph_view::lemma_positions_len(self.ids@, self.ids());
            ptrs@.unique_seq_to_set();
        }
        let mut ids: Vec<NodeId> = Vec::new();
        let mut j: usize = 0;
        while j < ptrs.len()
            invariant
                j <= ptrs@.len(),
                ptrs@.to_set() == self.ids@.dom(),
                ids@.len() == j,
                forall|j2: int| 0 <= j2 < j ==> (#[trigger] ids@[j2]) == self.ids@[ptrs@[j2]],
            decreases ptrs@.len() - j,
        {
            assert(ptrs@.to_set().contains(ptrs@[j as int]));
            ids.push(*self.ids.get(&ptrs[j]).unwrap());
            j += 1;
        }
        proof {
            assert forall|id: NodeId| ids@.to_set().contains(id) <==> self.ids().values().contains(
                id,
            ) by {
                if ids@.contains(id) {
                    let j = choose|j: int| 0 <= j < ids@.len() && ids@[j] == id;
                    assert(ptrs@.to_set().contains(ptrs@[j]));
                    assert(self.ids().contains_key(ptrs@[j] as int));
                    assert(self.ids().dom().contains(ptrs@[j] as int));
                }
                if self.ids().values().contains(id) {
                    let i = choose|i: int| self.ids().dom().contains(i) && self.ids()[i] == id;
                    assert(ptrs@.to_set().contains(i as usize));
                    assert(ptrs@.contains(i as usize));
                    let j = choose|j: int| 0 <= j < ptrs@.len() && ptrs@[j] == i as usize;
                    assert(ids@[j] == id);
                }
            }
        }
        ids
    }

    /// The data of an edge of the graph, if the identifier is that of an edge.
    pub fn get_edge<'a, N, E>(&self, arena: &'a Arena<N, E>, edge_id: EdgeId) -> (edge: Option<
        &'a InnerEdgeData<E>,
    >)
        requires
            self.wf(arena),
        ensures
            edge is Some == self.has_edge(arena, edge_id),
            edge matches Some(e) ==> e@ == arena.edge(
                self.bucket(edge_id.target.hash)[edge_id.target.index as int],
                edge_id.index as int,
            ),
    {
        match self.get_node(edge_id.target) {
            Some(node) => {
                assert(self.has_id(edge_id.target));
                let data = arena.get(node);
                data.incoming(edge_id.index)
            },
            None => None,
        }
    }

    /// Whether the identifier is that of an edge of the graph: its target is
    /// a node of the graph that has an incoming edge at that position.
    pub open spec fn has_edge<N, E>(&self, arena: &Arena<N, E>, edge_id: EdgeId) -> bool {
        self.has_id(edge_id.target) && edge_id.index < arena.node(
            self.bucket(edge_id.target.hash)[edge_id.target.index as int],
        ).incoming.len()
    }

    /// Whether the identifier is that of an edge of the graph.
    pub fn contains_edge<N, E>(&self, arena: &Arena<N, E>, edge_id: EdgeId) -> (b: bool)
        requires
            self.wf(arena),
        ensures
            b == self.has_edge(arena, edge_id),
    {
        self.get_edge(arena, edge_id).is_some()
    }

    /// The identifier of the source of an edge of the graph.
    pub fn source<N, E>(&self, arena: &Arena<N, E>, edge_id: EdgeId) -> (id: Option<NodeId>)
        requires
            self.wf(arena),
        ensures
            id is Some == self.has_edge(arena, edge_id),
            id matches Some(i) ==> self.has_id(i) && self.bucket(i.hash)[i.index as int]
                == arena.edge(
                self.bucket(edge_id.target.hash)[edge_id.target.index as int],
                edge_id.index as int,
            ).source,
    {
        match self.get_edge(arena, edge_id) {
            Some(edge) => {
                proof {
                    let t = self.bucket(edge_id.target.hash)[edge_id.target.index as int];
                    assert(self.has_id(edge_id.target));
                    assert(self.ids().contains_key(t));
                    assert(self.ids().contains_key(arena.edge(t, edge_id.index as int).source));
                }
                let id = self.get_node_id(edge.source());
                assert(self.has_id(id.unwrap()));
                id
            },
            None => None,
        }
    }

    /// The identifier of the target of an edge of the graph.
    pub fn target<N, E>(&self, arena: &Arena<N, E>, edge_id: EdgeId) -> (id: Option<NodeId>)
        requires
            self.wf(arena),
        ensures
            id == (if self.has_edge(arena, edge_id) {
                Some(edge_id.target)
            } else {
                None
            }),
    {
        if self.contains_edge(arena, edge_id) {
            Some(edge_id.target)
        } else {
            None
        }
    }

    /// The identifiers of the incoming edges of a node of the graph, in their
    /// order. A node that is not in the graph has none.
    pub fn incoming_edges<N, E>(&self, arena: &Arena<N, E>, node_id: NodeId) -> (edges: Vec<EdgeId>)
        requires
            self.wf(arena),
        ensures
            !self.has_id(node_id) ==> edges@.len() == 0,
            self.has_id(node_id) ==> edges@.len() == arena.node(
                self.bucket(node_id.hash)[node_id.index as int],
            ).incoming.len(),
            forall|k: int|
                0 <= k < edges@.len() ==> (#[trigger] edges@[k]) == (EdgeId {
                    target: node_id,
                    index: k as usize,
                }),
    {
        let mut edges: Vec<EdgeId> = Vec::new();
        match self.get_node(node_id) {
            Some(node) => {
                assert(self.has_id(node_id));
                let n = arena.get(node).n_incoming();
                let mut k: usize = 0;
                while k < n
                    invariant
                        k <= n,
                        edges@.len() == k,
                        forall|k2: int|
                            0 <= k2 < k ==> (#[trigger] edges@[k2]) == (EdgeId {
                                target: node_id,
                                index: k2 as usize,
                            }),
                    decreases n - k,
                {
                    edges.push(EdgeId { target: node_id, index: k });
                    k += 1;
                }
            },
            None => {},
        }
        edges
    }

    /// The identifiers of the parents of a node of the graph, in the order of
    /// its incoming edges. A node that is not in the graph has none.
    pub fn parents<N, E>(&self, arena: &Arena<N, E>, node_id: NodeId) -> (ids: Vec<NodeId>)
        requires
            self.wf(arena),
        ensures
            !self.has_id(node_id) ==> ids@.len() == 0,
            self.has_id(node_id) ==> ids@.len() == arena.node(
                self.bucket(node_id.hash)[node_id.index as int],
            ).incoming.len(),
            forall|k: int|
                0 <= k < ids@.len() ==> self.has_id(#[trigger] ids@[k]) && self.bucket(
                    ids@[k].hash,
                )[ids@[k].index as int] == arena.edge(
                    self.bucket(node_id.hash)[node_id.index as int],
                    k,
                ).source,
    {
        let mut ids: Vec<NodeId> = Vec::new();
        match self.get_node(node_id) {
            Some(node) => {
                assert(self.has_id(node_id));
                let n = arena.get(node).n_incoming();
                let mut k: usize = 0;
                while k < n
                    invariant
                        k <= n,
                        self.wf(arena),
                        self.has_id(node_id),
                        n == arena.node(
                            self.bucket(node_id.hash)[node_id.index as int],
                        ).incoming.len(),
                        ids@.len() == k,
                        forall|k2: int|
                            0 <= k2 < k ==> self.has_id(#[trigger] ids@[k2]) && self.bucket(
                                ids@[k2].hash,
                            )[ids@[k2].index as int] == arena.edge(
                                self.bucket(node_id.hash)[node_id.index as int],
                                k2,
                            ).source,
                    decreases n - k,
                {
                    let id = self.source(arena, EdgeId { target: node_id, index: k });
                    ids.push(id.unwrap());
                    k += 1;
                }
            },
            None => {},
        }
        ids
    }

    /// The identifiers of the outgoing edges of a node of the graph whose
    /// target is a node of the graph, in the order in which the edges were
    /// made. A node that is not in the graph has none.
    pub fn outgoing_edges<N, E>(&self, arena: &Arena<N, E>, node_id: NodeId) -> (edges: Vec<EdgeId>)
        requires
            self.wf(arena),
        ensures
            !self.has_id(node_id) ==> edges@.len() == 0,
            self.has_id(node_id) ==> {
                let within = crate::graph_view::edges_within(
                    arena.node(self.bucket(node_id.hash)[node_id.index as int]).outgoing,
                    self.ids().dom(),
                );
                &&& edges@.len() == within.len()
                &&& forall|j: int|
                    0 <= j < edges@.len() ==> (#[trigger] edges@[j]) == (EdgeId {
                        target: self.ids()[within[j].0],
                        index: within[j].1 as usize,
                    })
            },
    {
        let mut edges: Vec<EdgeId> = Vec::new();
        match self.get_node(node_id) {
            Some(node) => {
                assert(self.has_id(node_id));
                let all = arena.get(node).all_outgoing_weak();
                let ghost out = arena.node(node@).outgoing;
                let ghost inside = self.ids().dom();
                assert(all@.len() == out.len()) by {
                    assert(all@.map_values(|w: crate::edge::WeakEdge| w@).len() == all@.len());
                }
                let mut j: usize = 0;
                while j < all.len()
                    invariant
                        j <= all@.len(),
                        inside == self.ids().dom(),
                        all@.map_values(|w: crate::edge::WeakEdge| w@) == out,
                        edges@.len() == crate::graph_view::edges_within(
                            out.take(j as int),
                            inside,
                        ).len(),
                        forall|j2: int|
                            0 <= j2 < edges@.len() ==> (#[trigger] edges@[j2]) == (EdgeId {
                                target: self.ids()[crate::graph_view::edges_within(
                                    out.take(j as int),
                                    inside,
                                )[j2].0],
                                index: crate::graph_view::edges_within(out.take(j as int), inside)[j2].1 as usize,
                            }),
                    decreases all@.len() - j,
                {
                    let w = all[j];
                    proof {
                        assert(out[j as int] == w@);
                        assert(out.take(j + 1).drop_last() == out.take(j as int));
                        assert(out.take(j + 1).last() == w@);
                    }
                    match self.ids.get(&w.target().as_ptr()) {
                        Some(id) => {
                            edges.push(EdgeId { target: *id, index: w.index() });
                        },
                        None => {},
                    }
                    j += 1;
                }
                assert(out.take(all@.len() as int) == out);
            },
            None => {},
        }
        edges
    }

    /// The identifiers of the children of a node of the graph that are nodes
    /// of the graph, one for each outgoing edge.
    pub fn children<N, E>(&self, arena: &Arena<N, E>, node_id: NodeId) -> (ids: Vec<NodeId>)
        requires
            self.wf(arena),
        ensures
            !self.has_id(node_id) ==> ids@.len() == 0,
            self.has_id(node_id) ==> {
                let within = crate::graph_view::edges_within(
                    arena.node(self.bucket(node_id.hash)[node_id.index as int]).outgoing,
                    self.ids().dom(),
                );
                &&& ids@.len() == within.len()
                &&& forall|j: int| 0 <= j < ids@.len() ==> (#[trigger] ids@[j]) == self.ids()[within[j].0]
            },
    {
        let edges = self.outgoing_edges(arena, node_id);
        let mut ids: Vec<NodeId> = Vec::new();
        let mut j: usize = 0;
        while j < edges.len()
            invariant
                j <= edges@.len(),
                ids@.len() == j,
                forall|j2: int| 0 <= j2 < j ==> (#[trigger] ids@[j2]) == edges@[j2].target,
            decreases edges@.len() - j,
        {
            ids.push(edges[j].target);
            j += 1;
        }
        ids
    }

    /// Checks that the graph was made with the given resolver: that the two
    /// resolvers have the same identifier.
    ///
    /// The error holds the identifier of the given resolver and the one of
    /// the resolver of the graph, in this order.
    pub fn check_resolver<N, E>(&self, resolver: &R) -> (r: Result<(), InvalidResolver>) where
        R: EquivalenceResolver<N, E>,

        ensures
            r is Ok <==> resolver.id_spec() == self.resolver_spec().id_spec(),
            r matches Err(e) ==> e.0@ == resolver.id_spec() && e.1@
                == self.resolver_spec().id_spec(),
    {
        let id = ResolverId::of::<N, E, R>(resolver);
        id.check::<N, E, R>(&self.resolver)
    }
}

} // verus!
