//! Nodes with their ancestors in plain values, to be handed to a codec.
//!
//! In the plain forms a node is named by a 64-bit identifier: the bits of its
//! content identity. A node in plain form holds its value and, for each of
//! its incoming edges, the identifier of the source and the edge value.

use crate::detached::{
    build, building, in_progress, lift, made_at, record_cloned, Detached,
    DetachedInnerData, Record,
};
use crate::history::HistoryGraph;
use crate::registry::Registry;
use crate::hash_id::RelRcHash;
use crate::node::{Arena, RelRc};
use std::collections::BTreeMap;
use std::hash::Hash;
use vstd::prelude::*;

verus! {

/// The content identity that an identifier stands for.
pub open spec fn key(id: u64) -> RelRcHash {
    RelRcHash(id as usize)
}

/// The plain form of a node: its value and its incoming edges, each by the
/// identifier of its source and the edge value.
#[derive(Debug, Clone, PartialEq, Eq)]
pub struct SerializedInnerData<N, E> {
    /// The value of the node.
    pub value: N,
    /// The incoming edges of the node.
    pub incoming: Vec<(u64, E)>,
}

impl<N, E> SerializedInnerData<N, E> {
    /// Whether the identifiers of the parents are content identities on this
    /// machine.
    pub open spec fn fits(&self) -> bool {
        forall|k: int| 0 <= k < self.incoming@.len() ==> (#[trigger] self.incoming@[k]).0 <= usize::MAX
    }

    /// The record that the plain form stands for.
    pub open spec fn record(&self) -> Record<N, E> {
        Record { value: self.value, incoming: self.incoming@.map_values(|e: (u64, E)| (key(e.0), e.1)) }
    }

    /// The plain form with the value of the node mapped.
    pub fn map_value<M, F: FnOnce(N) -> M>(self, f: F) -> (r: SerializedInnerData<M, E>)
        requires
            call_requires(f, (self.value,)),
        ensures
            call_ensures(f, (self.value,), r.value),
            r.incoming == self.incoming,
    {
        SerializedInnerData { value: f(self.value), incoming: self.incoming }
    }

    /// The plain form of the data of a detached node.
    pub fn from_detached(data: DetachedInnerData<N, E>) -> (r: Self)
        ensures
            r.fits(),
            r.record() == data@,
    {
        let (value, edges) = data.into_parts();
        let ghost es = edges@;
        let mut incoming: Vec<(u64, E)> = Vec::new();
        for pe in it: edges
            invariant
                it.seq() == es,
                incoming@.len() == it.index(),
                forall|k: int|
                    0 <= k < it.index() ==> (#[trigger] incoming@[k]).0 <= usize::MAX && key(
                        incoming@[k].0,
                    ) == es[k].0 && incoming@[k].1 == es[k].1,
        {
            let (p, e) = pe;
            incoming.push((p.0 as u64, e));
        }
        let r = SerializedInnerData { value, incoming };
        assert(r.record().incoming =~= es);
        r
    }

    /// Whether the identifiers of the parents are content identities on this
    /// machine.
    pub fn is_fit(&self) -> (b: bool)
        ensures
            b == self.fits(),
    {
        let mut k: usize = 0;
        while k < self.incoming.len()
            invariant
                k <= self.incoming@.len(),
                forall|k2: int| 0 <= k2 < k ==> (#[trigger] self.incoming@[k2]).0 <= usize::MAX,
            decreases self.incoming@.len() - k,
        {
            if self.incoming[k].0 > usize::MAX as u64 {
                return false;
            }
            k += 1;
        }
        true
    }

    /// The data of a detached node that the plain form stands for.
    pub fn into_detached(self) -> (r: DetachedInnerData<N, E>)
        requires
            self.fits(),
        ensures
            r@ == self.record(),
    {
        let ghost es = self.incoming@;
        let mut incoming: Vec<(RelRcHash, E)> = Vec::new();
        for pe in it: self.incoming
            invariant
                it.seq() == es,
                forall|k: int| 0 <= k < es.len() ==> (#[trigger] es[k]).0 <= usize::MAX,
                incoming@.len() == it.index(),
                forall|k: int|
                    0 <= k < it.index() ==> (#[trigger] incoming@[k]) == (key(es[k].0), es[k].1),
        {
            let (p, e) = pe;
            incoming.push((RelRcHash(p as usize), e));
        }
        let r = DetachedInnerData::new(self.value, incoming);
        assert(r@.incoming =~= es.map_values(|e: (u64, E)| (key(e.0), e.1)));
        r
    }
}

/// The records that a list of nodes in plain form stands for, each under the
/// content identity that its identifier stands for. Of two nodes with the
/// same identifier the later one counts.
pub open spec fn records_of<N, E>(nodes: Seq<(u64, SerializedInnerData<N, E>)>) -> Map<
    RelRcHash,
    Record<N, E>,
>
    decreases nodes.len(),
{
    if nodes.len() == 0 {
        Map::empty()
    } else {
        records_of(nodes.drop_last()).insert(key(nodes.last().0), nodes.last().1.record())
    }
}

/// Whether all identifiers in the list are content identities on this
/// machine.
pub open spec fn all_fit<N, E>(nodes: Seq<(u64, SerializedInnerData<N, E>)>) -> bool {
    forall|j: int| 0 <= j < nodes.len() ==> (#[trigger] nodes[j]).0 <= usize::MAX && nodes[j].1.fits()
}

/// The plain form of a table of nodes: the nodes in plain form, each with
/// its identifier.
#[derive(Debug, Clone, PartialEq, Eq)]
pub struct SerializedRegistry<N, E> {
    /// The nodes and their identifiers.
    pub nodes: Vec<(u64, SerializedInnerData<N, E>)>,
}

/// Whether the node `b` is the node `a` with its value mapped by `f`: it has
/// the same identifier, what `f` gives for a clone of the value as value, and
/// clones of the edges.
pub open spec fn mapped_node<N: Clone, E: Clone, M, F: Fn(N) -> M>(
    f: F,
    a: (u64, SerializedInnerData<N, E>),
    b: (u64, SerializedInnerData<M, E>),
) -> bool {
    &&& b.0 == a.0
    &&& exists|v: N| cloned(a.1.value, v) && call_ensures(f, (v,), b.1.value)
    &&& cloned(a.1.incoming, b.1.incoming)
}

impl<N: Clone, E: Clone> SerializedRegistry<N, E> {
    /// The table with the values of the nodes mapped; the identifiers and the
    /// edges stay, the edge values as clones.
    pub fn map_nodes<M, F: Fn(N) -> M>(&self, f: F) -> (r: SerializedRegistry<M, E>)
        requires
            forall|v: N| call_requires(f, (v,)),
        ensures
            r.nodes@.len() == self.nodes@.len(),
            forall|j: int|
                0 <= j < r.nodes@.len() ==> mapped_node(f, self.nodes@[j], #[trigger] r.nodes@[j]),
    {
        let mut nodes: Vec<(u64, SerializedInnerData<M, E>)> = Vec::new();
        let mut j: usize = 0;
        while j < self.nodes.len()
            invariant
                j <= self.nodes@.len(),
                forall|v: N| call_requires(f, (v,)),
                nodes@.len() == j,
                forall|j2: int|
                    0 <= j2 < j ==> mapped_node(f, self.nodes@[j2], #[trigger] nodes@[j2]),
            decreases self.nodes@.len() - j,
        {
            let id = self.nodes[j].0;
            let value = self.nodes[j].1.value.clone();
            let incoming = self.nodes[j].1.incoming.clone();
            let mapped = f(value);
            let ghost before = nodes@;
            nodes.push((id, SerializedInnerData { value: mapped, incoming }));
            proof {
                assert(cloned(self.nodes@[j as int].1.value, value) && call_ensures(
                    f,
                    (value,),
                    nodes@[j as int].1.value,
                ));
                assert(mapped_node(f, self.nodes@[j as int], nodes@[j as int]));
                assert forall|j2: int| 0 <= j2 < j + 1 implies mapped_node(
                    f,
                    self.nodes@[j2],
                    #[trigger] nodes@[j2],
                ) by {
                    if j2 < j {
                        assert(nodes@[j2] == before[j2]);
                    }
                }
            }
            j += 1;
        }
        SerializedRegistry { nodes }
    }
}

/// The plain form of a graph of nodes: the identifiers of its nodes, and the
/// table of all nodes that it takes to make them again, which are the nodes
/// and their ancestors.
#[derive(Debug, Clone, PartialEq, Eq)]
pub struct SerializedHistoryGraph<N, E> {
    /// The identifiers of the nodes of the graph.
    pub nodes: Vec<u64>,
    /// The nodes of the graph and their ancestors.
    pub registry: SerializedRegistry<N, E>,
}

/// The plain form of a node with its ancestors.
#[derive(Debug, Clone, PartialEq, Eq)]
pub struct SerializedRelRc<N, E> {
    /// The identifier of the node.
    pub id: u64,
    /// The node and its ancestors.
    pub ancestors_graph: SerializedHistoryGraph<N, E>,
}

impl<N, E> SerializedRelRc<N, E> {
    /// The records of the node and its ancestors.
    pub open spec fn records(&self) -> Map<RelRcHash, Record<N, E>> {
        records_of(self.ancestors_graph.registry.nodes@)
    }

    /// Whether all identifiers are content identities on this machine.
    pub open spec fn fits(&self) -> bool {
        self.id <= usize::MAX && all_fit(self.ancestors_graph.registry.nodes@)
    }

    /// Whether the detached node `d` is what the plain form stands for.
    pub open spec fn stands_for(&self, d: &Detached<N, E>) -> bool {
        d.current() == key(self.id) && d.records() == self.records()
    }

    /// Whether all identifiers are content identities on this machine.
    pub fn is_fit(&self) -> (b: bool)
        ensures
            b == self.fits(),
    {
        if self.id > usize::MAX as u64 {
            return false;
        }
        let mut j: usize = 0;
        while j < self.ancestors_graph.registry.nodes.len()
            invariant
                j <= self.ancestors_graph.registry.nodes@.len(),
                forall|j2: int|
                    0 <= j2 < j ==> (#[trigger] self.ancestors_graph.registry.nodes@[j2]).0
                        <= usize::MAX && self.ancestors_graph.registry.nodes@[j2].1.fits(),
            decreases self.ancestors_graph.registry.nodes@.len() - j,
        {
            if self.ancestors_graph.registry.nodes[j].0 > usize::MAX as u64
                || !self.ancestors_graph.registry.nodes[j].1.is_fit() {
                return false;
            }
            j += 1;
        }
        true
    }

    /// The plain form of a detached node.
    pub fn from_detached(detached: Detached<N, E>) -> (r: Self)
        ensures
            r.fits(),
            r.stands_for(&detached),
            r.ancestors_graph.nodes@ == r.ancestors_graph.registry.nodes@.map_values(
                |x: (u64, SerializedInnerData<N, E>)| x.0,
            ),
    {
        let mut detached = detached;
        let ghost whole = detached.records();
        let hashes = detached.hashes();
        let id = detached.current_hash().0 as u64;
        let mut ids: Vec<u64> = Vec::new();
        let mut nodes: Vec<(u64, SerializedInnerData<N, E>)> = Vec::new();
        let mut j: usize = 0;
        proof {
            assert(hashes@.take(0).to_set() =~= Set::<RelRcHash>::empty());
            assert(records_of(nodes@) =~= whole.restrict(Set::<RelRcHash>::empty()));
            assert(detached.records() =~= whole.remove_keys(Set::<RelRcHash>::empty()));
        }
        while j < hashes.len()
            invariant
                j <= hashes@.len(),
                hashes@.no_duplicates(),
                forall|h: RelRcHash| hashes@.contains(h) <==> whole.contains_key(h),
                detached.current() == key(id),
                all_fit(nodes@),
                ids@ == nodes@.map_values(|x: (u64, SerializedInnerData<N, E>)| x.0),
                records_of(nodes@) == whole.restrict(hashes@.take(j as int).to_set()),
                detached.records() == whole.remove_keys(hashes@.take(j as int).to_set()),
            decreases hashes@.len() - j,
        {
            let h = hashes[j];
            let ghost t0 = hashes@.take(j as int);
            let ghost t1 = hashes@.take(j + 1);
            let ghost before = nodes@;
            let ghost left = detached.records();
            proof {
                assert(hashes@.contains(h));
                if t0.contains(h) {
                    let a = choose|a: int| 0 <= a < t0.len() && t0[a] == h;
                    assert(hashes@[a] == hashes@[j as int]);
                }
                assert(!t0.to_set().contains(h));
                assert(detached.records().contains_key(h));
            }
            let data = detached.remove(h).unwrap();
            let plain = SerializedInnerData::from_detached(data);
            ids.push(h.0 as u64);
            nodes.push((h.0 as u64, plain));
            proof {
                assert(key(h.0 as u64) == h);
                assert(nodes@.drop_last() =~= before);
                assert(records_of(nodes@) == records_of(before).insert(h, plain.record()));
                assert(ids@ =~= nodes@.map_values(|x: (u64, SerializedInnerData<N, E>)| x.0));
                assert forall|g: RelRcHash| t1.contains(g) <==> t0.contains(g) || g == h by {
                    if t1.contains(g) {
                        let a = choose|a: int| 0 <= a < t1.len() && t1[a] == g;
                        if a < j {
                            assert(t0[a] == g);
                        }
                    }
                    if t0.contains(g) {
                        let a = choose|a: int| 0 <= a < t0.len() && t0[a] == g;
                        assert(t1[a] == g);
                    }
                    if g == h {
                        assert(t1[j as int] == g);
                    }
                }
                assert(t1.to_set() =~= t0.to_set().insert(h));
                assert(records_of(nodes@) =~= whole.restrict(t1.to_set()));
                assert(detached.records() =~= whole.remove_keys(t1.to_set()));
            }
            j += 1;
        }
        let r = SerializedRelRc {
            id,
            ancestors_graph: SerializedHistoryGraph { nodes: ids, registry: SerializedRegistry { nodes } },
        };
        proof {
            assert(hashes@.take(hashes@.len() as int) == hashes@);
            assert(hashes@.to_set() =~= whole.dom());
            assert(r.records() =~= whole);
        }
        r
    }

    /// The detached node that the plain form stands for, if all identifiers
    /// are content identities on this machine.
    pub fn into_detached(self) -> (r: Option<Detached<N, E>>)
        ensures
            r is Some <==> self.fits(),
            r matches Some(d) ==> self.stands_for(&d),
    {
        if !self.is_fit() {
            return None;
        }
        let ghost all = self.ancestors_graph.registry.nodes@;
        let mut detached: Detached<N, E> = Detached::empty(RelRcHash(self.id as usize));
        proof {
            assert(all.take(0) =~= Seq::<(u64, SerializedInnerData<N, E>)>::empty());
        }
        for x in it: self.ancestors_graph.registry.nodes
            invariant
                it.seq() == all,
                all_fit(all),
                detached.current() == key(self.id),
                detached.records() == records_of(all.take(it.index() as int)),
        {
            let ghost i = it.index() as int;
            let (id, data) = x;
            proof {
                assert(all[i] == (id, data));
                assert(all.take(i + 1).drop_last() =~= all.take(i));
                assert(all.take(i + 1).last() == all[i]);
            }
            let inner = data.into_detached();
            detached.insert(RelRcHash(id as usize), inner);
        }
        proof {
            assert(all.take(all.len() as int) =~= all);
        }
        Some(detached)
    }
}

/// Two detached nodes with the same records for the same node can be attached
/// to the same nodes.
pub proof fn lemma_same_attachable<N, E>(a: &Detached<N, E>, b: &Detached<N, E>, known: Set<RelRcHash>)
    requires
        a.current() == b.current(),
        a.records() == b.records(),
    ensures
        a.attachable(known) == b.attachable(known),
{
    assert forall|p: RelRcHash| a.names_parent(p) == b.names_parent(p) by {
        if a.names_parent(p) {
            let (h, k) = choose|h: RelRcHash, k: int|
                a.records().contains_key(h) && 0 <= k < a.records()[h].incoming.len()
                    && #[trigger] a.records()[h].incoming[k].0 == p;
            assert(b.records()[h].incoming[k].0 == p);
        }
        if b.names_parent(p) {
            let (h, k) = choose|h: RelRcHash, k: int|
                b.records().contains_key(h) && 0 <= k < b.records()[h].incoming.len()
                    && #[trigger] b.records()[h].incoming[k].0 == p;
            assert(a.records()[h].incoming[k].0 == p);
        }
    }
    assert(a.attaches_to_spec(known) == b.attaches_to_spec(known)) by {
        assert forall|p: RelRcHash| a.requires_hash(p) == b.requires_hash(p) by {}
    }
    if a.grounded(known) {
        let (rank, part) = choose|rank: spec_fn(RelRcHash) -> nat, part: Set<RelRcHash>|
            part.contains(a.current()) && #[trigger] a.ranked_on(rank, part, known);
        assert(b.ranked_on(rank, part, known));
    }
    if b.grounded(known) {
        let (rank, part) = choose|rank: spec_fn(RelRcHash) -> nat, part: Set<RelRcHash>|
            part.contains(b.current()) && #[trigger] b.ranked_on(rank, part, known);
        assert(a.ranked_on(rank, part, known));
    }
}

/// There are no more records than nodes in the list.
pub proof fn lemma_records_len<N, E>(nodes: Seq<(u64, SerializedInnerData<N, E>)>)
    ensures
        records_of(nodes).dom().finite(),
        records_of(nodes).dom().len() <= nodes.len(),
    decreases nodes.len(),
{
    if nodes.len() > 0 {
        lemma_records_len(nodes.drop_last());
        let before = records_of(nodes.drop_last()).dom();
        assert(records_of(nodes).dom() =~= before.insert(key(nodes.last().0)));
    }
}

/// Whether every parent that a record names has a record.
pub open spec fn closed_records<N, E>(records: Map<RelRcHash, Record<N, E>>) -> bool {
    forall|h: RelRcHash, k: int|
        records.contains_key(h) && 0 <= k < records[h].incoming.len() ==> records.contains_key(
            #[trigger] records[h].incoming[k].0,
        )
}

/// Whether `rank` puts every record above the records of its parents.
pub open spec fn ranked_records<N, E>(
    records: Map<RelRcHash, Record<N, E>>,
    rank: spec_fn(RelRcHash) -> nat,
) -> bool {
    forall|h: RelRcHash, k: int|
        records.contains_key(h) && 0 <= k < records[h].incoming.len() && records.contains_key(
            #[trigger] records[h].incoming[k].0,
        ) ==> rank(records[h].incoming[k].0) < rank(h)
}

/// Whether no record is its own ancestor.
pub open spec fn acyclic_records<N, E>(records: Map<RelRcHash, Record<N, E>>) -> bool {
    exists|rank: spec_fn(RelRcHash) -> nat| ranked_records(records, rank)
}

impl<N, E> Arena<N, E> {
    /// Whether `after` is this arena with one node made for each of the
    /// records, parents before children, and `made` holds the one strong
    /// handle on each of them, under the identifier of its record: every
    /// record has its node, which has the value and the edge values of the
    /// record and the nodes of the parents that the record names as parents;
    /// nothing else has been made, and what was there has not changed.
    pub open spec fn restored(
        &self,
        after: &Self,
        records: Map<RelRcHash, Record<N, E>>,
        made: Seq<(u64, RelRc)>,
    ) -> bool {
        &&& self.extends(after)
        &&& forall|h: RelRcHash|
            records.contains_key(h) <==> exists|j: int|
                0 <= j < made.len() && key((#[trigger] made[j]).0) == h
        &&& forall|j: int|
            0 <= j < made.len() ==> {
                &&& (#[trigger] made[j]).0 <= usize::MAX
                &&& after.is_live(made[j].1@)
                &&& after.node(made[j].1@).handles == 1
                &&& after.realizes(records, Map::empty(), key(made[j].0), made[j].1@)
            }
        &&& forall|j1: int, j2: int|
            0 <= j1 < j2 < made.len() ==> (#[trigger] made[j1]).0 != (#[trigger] made[j2]).0
        &&& exists|built: Map<RelRcHash, int>|
            {
                &&& #[trigger] after.assembles(self.len() as int, records, Map::empty(), built)
                &&& built.dom() == records.dom()
                &&& forall|j: int|
                    0 <= j < made.len() ==> built[key((#[trigger] made[j]).0)] == made[j].1@
            }
    }
}

/// Makes a node for each of the nodes in plain form, parents before
/// children, in whatever order they stand in the table, and returns the
/// strong handle on each, with its identifier.
///
/// Nothing is made, and `None` is returned, where an identifier is no
/// content identity on this machine, where a parent is named that is not in
/// the table, or where a node is its own ancestor.
pub fn deserialize_nodes<N: Hash, E: Hash>(
    arena: &mut Arena<N, E>,
    serialized: SerializedRegistry<N, E>,
) -> (r: Option<Vec<(u64, RelRc)>>)
    requires
        old(arena).wf(),
    ensures
        final(arena).wf(),
        r is Some <==> all_fit(serialized.nodes@) && closed_records(records_of(serialized.nodes@))
            && acyclic_records(records_of(serialized.nodes@)),
        r is None ==> *final(arena) == *old(arena),
        r matches Some(made) ==> old(arena).restored(
            final(arena),
            records_of(serialized.nodes@),
            made@,
        ) && made@.len() <= serialized.nodes@.len(),
{
    let ghost records = records_of(serialized.nodes@);
    let ghost start = *arena;
    let whole = SerializedRelRc {
        id: 0,
        ancestors_graph: SerializedHistoryGraph { nodes: Vec::new(), registry: serialized },
    };
    let detached = match whole.into_detached() {
        Some(d) => d,
        None => {
            return None;
        },
    };
    assert(detached.records() == records);
    let nothing: Vec<RelRc> = Vec::new();
    proof {
        assert(nothing@.map_values(|n: RelRc| n@) =~= Seq::<int>::empty());
        assert(arena.hashes_of(Seq::<int>::empty()) =~= Set::<RelRcHash>::empty());
        assert(detached.attaches_to_spec(Set::empty()) <==> closed_records(records)) by {
            if closed_records(records) {
                assert forall|p: RelRcHash| !detached.requires_hash(p) by {
                    if detached.names_parent(p) {
                        let (h, k) = choose|h: RelRcHash, k: int|
                            detached.records().contains_key(h) && 0 <= k
                                < detached.records()[h].incoming.len()
                                && #[trigger] detached.records()[h].incoming[k].0 == p;
                        assert(records.contains_key(records[h].incoming[k].0));
                    }
                }
            }
            if detached.attaches_to_spec(Set::empty()) {
                assert forall|h: RelRcHash, k: int|
                    records.contains_key(h) && 0 <= k
                        < records[h].incoming.len() implies records.contains_key(
                    #[trigger] records[h].incoming[k].0,
                ) by {
                    let p = records[h].incoming[k].0;
                    assert(detached.records().contains_key(h));
                    assert(detached.records()[h].incoming[k].0 == p);
                    assert(detached.names_parent(p));
                    if !records.contains_key(p) {
                        assert(detached.requires_hash(p));
                        assert(Set::<RelRcHash>::empty().contains(p));
                    }
                }
            }
        }
        assert(detached.well_founded() <==> acyclic_records(records)) by {
            if detached.well_founded() {
                let rank = choose|rank: spec_fn(RelRcHash) -> nat| detached.ranked(rank);
                assert(ranked_records(records, rank));
            }
            if acyclic_records(records) {
                let rank = choose|rank: spec_fn(RelRcHash) -> nat| ranked_records(records, rank);
                assert(detached.ranked(rank));
            }
        }
    }
    if !detached.attaches_to(arena, &nothing) {
        return None;
    }
    if !detached.is_well_founded() {
        return None;
    }
    let ghost rank = choose|rank: spec_fn(RelRcHash) -> nat| detached.ranked(rank);
    let ghost part = Set::<RelRcHash>::full();
    let hashes = detached.hashes();
    let mut data = detached.all_data;
    let known: BTreeMap<usize, usize> = BTreeMap::new();
    let mut built: BTreeMap<usize, usize> = BTreeMap::new();
    let mut made: Vec<(u64, RelRc)> = Vec::new();
    proof {
        arena.lemma_extends_refl();
        assert(lift(known@) =~= Map::<RelRcHash, int>::empty());
        assert(lift(built@) =~= Map::<RelRcHash, int>::empty());
        assert(arena.assembles(start.len() as int, records, lift(known@), lift(built@)));
        assert(building(&start, arena, records, known@, data@, built@));
    }
    let mut j: usize = 0;
    while j < hashes.len()
        invariant
            j <= hashes@.len(),
            hashes@.no_duplicates(),
            forall|h: RelRcHash| hashes@.contains(h) <==> records.contains_key(h),
            closed_records(records),
            ranked_records(records, rank),
            part == Set::<RelRcHash>::full(),
            known@ == Map::<usize, usize>::empty(),
            building(&start, arena, records, known@, data@, built@),
            forall|q: RelRcHash| !in_progress(records, data@, built@, q),
            made@.len() == j,
            forall|j2: int|
                0 <= j2 < j ==> (#[trigger] made@[j2]).0 == hashes@[j2].0 as u64
                    && built@.contains_key(hashes@[j2].0) && built@[hashes@[j2].0]
                    == made@[j2].1@,
        decreases hashes@.len() - j,
    {
        let h = hashes[j];
        let ghost before = made@;
        proof {
            assert(hashes@.contains(h));
        }
        let ptr = build(
            arena,
            &mut data,
            &known,
            &mut built,
            h,
            Ghost(start),
            Ghost(records),
            Ghost(rank),
            Ghost(part),
        );
        made.push((h.0 as u64, RelRc { ptr }));
        proof {
            assert forall|j2: int| 0 <= j2 < j + 1 implies (#[trigger] made@[j2]).0
                == hashes@[j2].0 as u64 && built@.contains_key(hashes@[j2].0)
                && built@[hashes@[j2].0] == made@[j2].1@ by {
                if j2 < j {
                    assert(made@[j2] == before[j2]);
                }
            }
        }
        j += 1;
    }
    proof {
        let b = lift(built@);
        lemma_records_len(serialized.nodes@);
        hashes@.unique_seq_to_set();
        assert(hashes@.to_set() =~= records.dom());
        assert(lift(known@) =~= Map::<RelRcHash, int>::empty());
        assert forall|j2: int| 0 <= j2 < made@.len() implies key((#[trigger] made@[j2]).0)
            == hashes@[j2] by {
            assert(hashes@[j2].0 as u64 as usize == hashes@[j2].0);
        }
        assert forall|h: RelRcHash|
            records.contains_key(h) <==> exists|j2: int|
                0 <= j2 < made@.len() && key((#[trigger] made@[j2]).0) == h by {
            if records.contains_key(h) {
                assert(hashes@.contains(h));
                let j2 = choose|j2: int| 0 <= j2 < hashes@.len() && hashes@[j2] == h;
                assert(key(made@[j2].0) == h);
            }
            if exists|j2: int| 0 <= j2 < made@.len() && key((#[trigger] made@[j2]).0) == h {
                let j2 = choose|j2: int| 0 <= j2 < made@.len() && key((#[trigger] made@[j2]).0) == h;
                assert(hashes@.contains(hashes@[j2]));
            }
        }
        assert forall|j2: int| 0 <= j2 < made@.len() implies {
            &&& (#[trigger] made@[j2]).0 <= usize::MAX
            &&& arena.is_live(made@[j2].1@)
            &&& arena.node(made@[j2].1@).handles == 1
            &&& arena.realizes(records, Map::empty(), key(made@[j2].0), made@[j2].1@)
        } by {
            let g = hashes@[j2].0;
            assert(built@.contains_key(g));
            assert(RelRcHash(g) == hashes@[j2]);
            assert(!lift(known@).contains_key(hashes@[j2]));
        }
        assert forall|j1: int, j2: int| 0 <= j1 < j2 < made@.len() implies (#[trigger] made@[j1]).0
            != (#[trigger] made@[j2]).0 by {
            assert(key(made@[j1].0) == hashes@[j1]);
            assert(key(made@[j2].0) == hashes@[j2]);
        }
        assert(b.dom() =~= records.dom()) by {
            assert forall|h: RelRcHash| b.contains_key(h) <==> records.contains_key(h) by {
                if b.contains_key(h) {
                    assert(built@.contains_key(h.0));
                    assert(RelRcHash(h.0) == h);
                }
                if records.contains_key(h) {
                    assert(hashes@.contains(h));
                    let j2 = choose|j2: int| 0 <= j2 < hashes@.len() && hashes@[j2] == h;
                    assert(built@.contains_key(hashes@[j2].0));
                }
            }
        }
        assert(arena.assembles(start.len() as int, records, Map::empty(), b));
        assert forall|j2: int| 0 <= j2 < made@.len() implies b[key((#[trigger] made@[j2]).0)]
            == made@[j2].1@ by {
            assert(key(made@[j2].0) == hashes@[j2]);
        }
    }
    Some(made)
}

impl<N: Clone, E: Clone> Arena<N, E> {
    /// Whether `nodes` holds the plain forms of the nodes at the positions
    /// `ptrs`, in their order, each under the bits of its content identity,
    /// with a clone of its value and of the values of its edges; and `ids`
    /// holds the identifiers.
    pub open spec fn plain_of(
        &self,
        ptrs: Seq<usize>,
        ids: Seq<u64>,
        nodes: Seq<(u64, SerializedInnerData<N, E>)>,
    ) -> bool {
        &&& ids.len() == ptrs.len()
        &&& nodes.len() == ptrs.len()
        &&& forall|j: int|
            0 <= j < ptrs.len() ==> {
                &&& ids[j] == (#[trigger] nodes[j]).0
                &&& nodes[j].0 <= usize::MAX
                &&& key(nodes[j].0) == self.node(ptrs[j] as int).hash
                &&& nodes[j].1.fits()
                &&& record_cloned(self.record_of(ptrs[j] as int), nodes[j].1.record())
            }
    }
}

/// The plain forms of the live nodes at the given positions.
fn plain_nodes<N: Clone, E: Clone>(arena: &Arena<N, E>, ptrs: &Vec<usize>) -> (r: (
    Vec<u64>,
    Vec<(u64, SerializedInnerData<N, E>)>,
))
    requires
        arena.wf(),
        forall|j: int| 0 <= j < ptrs@.len() ==> arena.is_live(#[trigger] ptrs@[j] as int),
    ensures
        arena.plain_of(ptrs@, r.0@, r.1@),
{
    let mut ids: Vec<u64> = Vec::new();
    let mut nodes: Vec<(u64, SerializedInnerData<N, E>)> = Vec::new();
    let mut j: usize = 0;
    while j < ptrs.len()
        invariant
            j <= ptrs@.len(),
            arena.wf(),
            forall|j2: int| 0 <= j2 < ptrs@.len() ==> arena.is_live(#[trigger] ptrs@[j2] as int),
            arena.plain_of(ptrs@.take(j as int), ids@, nodes@),
        decreases ptrs@.len() - j,
    {
        let a = ptrs[j];
        let data = arena.slots[a].as_ref().unwrap();
        let mut incoming: Vec<(u64, E)> = Vec::new();
        let mut k: usize = 0;
        while k < data.incoming.len()
            invariant
                arena.wf(),
                arena.is_live(a as int),
                data == arena.slots@[a as int].unwrap(),
                k <= data.incoming@.len(),
                incoming@.len() == k,
                forall|k2: int|
                    0 <= k2 < k ==> (#[trigger] incoming@[k2]).0 <= usize::MAX && key(
                        incoming@[k2].0,
                    ) == arena.record_of(a as int).incoming[k2].0 && cloned(
                        arena.record_of(a as int).incoming[k2].1,
                        incoming@[k2].1,
                    ),
            decreases data.incoming@.len() - k,
        {
            let e = &data.incoming[k];
            assert(arena.edge(a as int, k as int) == e@);
            let source_hash = arena.slots[e.source.ptr].as_ref().unwrap().hash;
            incoming.push((source_hash.0 as u64, e.value.clone()));
            k += 1;
        }
        let plain = SerializedInnerData { value: data.value.clone(), incoming };
        let id = data.hash.0 as u64;
        let ghost ids0 = ids@;
        let ghost nodes0 = nodes@;
        proof {
            assert(plain.fits());
            assert(record_cloned(arena.record_of(a as int), plain.record()));
        }
        ids.push(id);
        nodes.push((id, plain));
        proof {
            let t1 = ptrs@.take(j + 1);
            assert forall|j2: int| 0 <= j2 < t1.len() implies {
                &&& ids@[j2] == (#[trigger] nodes@[j2]).0
                &&& nodes@[j2].0 <= usize::MAX
                &&& key(nodes@[j2].0) == arena.node(t1[j2] as int).hash
                &&& nodes@[j2].1.fits()
                &&& record_cloned(arena.record_of(t1[j2] as int), nodes@[j2].1.record())
            } by {
                if j2 < j {
                    assert(nodes@[j2] == nodes0[j2]);
                    assert(ids@[j2] == ids0[j2]);
                    assert(ptrs@.take(j as int)[j2] == t1[j2]);
                }
            }
        }
        j += 1;
    }
    assert(ptrs@.take(ptrs@.len() as int) == ptrs@);
    (ids, nodes)
}

impl<R> HistoryGraph<R> {
    /// The plain form of the graph: the identifiers of its nodes, and the
    /// nodes in plain form. The nodes of a graph are their own ancestors, so
    /// that the table holds the nodes of the graph and no others.
    pub fn to_serialized<N: Clone, E: Clone>(&self, arena: &Arena<N, E>) -> (r:
        SerializedHistoryGraph<N, E>)
        requires
            arena.wf(),
            self.wf(arena),
        ensures
            all_fit(r.registry.nodes@),
            exists|ptrs: Seq<usize>|
                {
                    &&& ptrs.no_duplicates()
                    &&& forall|p: usize| ptrs.contains(p) <==> self.ids().contains_key(p as int)
                    &&& #[trigger] arena.plain_of(ptrs, r.nodes@, r.registry.nodes@)
                },
    {
        let ptrs = self.positions();
        proof {
            assert forall|j: int| 0 <= j < ptrs@.len() implies arena.is_live(
                #[trigger] ptrs@[j] as int,
            ) by {
                assert(ptrs@.contains(ptrs@[j]));
                let i = ptrs@[j] as int;
                assert(self.ids().contains_key(i));
                assert(self.has_id(self.ids()[i]));
            }
        }
        let (nodes, table) = plain_nodes(arena, &ptrs);
        let r = SerializedHistoryGraph { nodes, registry: SerializedRegistry { nodes: table } };
        proof {
            assert(arena.plain_of(ptrs@, r.nodes@, r.registry.nodes@));
        }
        r
    }
}

impl Registry {
    /// The plain form of the registry: the plain forms of the nodes that it
    /// tracks and that are alive, each under the bits of its content
    /// identity.
    pub fn to_serialized<N: Clone, E: Clone>(&self, arena: &Arena<N, E>) -> (r: SerializedRegistry<
        N,
        E,
    >)
        requires
            arena.wf(),
            0 <= self@ < arena.n_registries(),
        ensures
            all_fit(r.nodes@),
            exists|ptrs: Seq<usize>, ids: Seq<u64>|
                {
                    &&& forall|p: usize|
                        ptrs.contains(p) <==> arena.is_live(p as int) && arena.registry_holds(
                            self@,
                            p as int,
                        )
                    &&& #[trigger] arena.plain_of(ptrs, ids, r.nodes@)
                },
    {
        let ids = arena.tables[self.idx].ids();
        let ghost keys = ids@.map_values(|id: crate::registry::NodeId| id@);
        let mut ptrs: Vec<usize> = Vec::new();
        let mut j: usize = 0;
        while j < ids.len()
            invariant
                j <= ids@.len(),
                arena.wf(),
                0 <= self@ < arena.n_registries(),
                keys == ids@.map_values(|id: crate::registry::NodeId| id@),
                keys.to_set() == arena.registry_map(self@).dom(),
                forall|p: usize|
                    ptrs@.contains(p) <==> arena.is_live(p as int) && exists|j2: int|
                        0 <= j2 < j && arena.registry_map(self@)[#[trigger] keys[j2]] == p,
            decreases ids@.len() - j,
        {
            let ghost before = ptrs@;
            proof {
                assert(keys[j as int] == ids@[j as int]@);
                assert(keys.to_set().contains(keys[j as int]));
            }
            let found = arena.tables[self.idx].ptr_of(ids[j]);
            let mut added = false;
            match found {
                Some(p) => {
                    if p < arena.slots.len() && arena.slots[p].is_some() {
                        ptrs.push(p);
                        added = true;
                    }
                },
                None => {},
            }
            proof {
                let m = arena.registry_map(self@);
                let q = m[keys[j as int]];
                assert forall|p: usize|
                    ptrs@.contains(p) <==> arena.is_live(p as int) && exists|j2: int|
                        0 <= j2 < j + 1 && m[#[trigger] keys[j2]] == p by {
                    if before.contains(p) {
                        let a = choose|a: int| 0 <= a < before.len() && before[a] == p;
                        assert(ptrs@[a] == p);
                        let j2 = choose|j2: int| 0 <= j2 < j && m[#[trigger] keys[j2]] == p;
                        assert(m[keys[j2]] == p);
                    }
                    if ptrs@.contains(p) && !before.contains(p) {
                        let a = choose|a: int| 0 <= a < ptrs@.len() && ptrs@[a] == p;
                        if a < before.len() {
                            assert(before[a] == p);
                        }
                        assert(m[keys[j as int]] == p);
                    }
                    if arena.is_live(p as int) && exists|j2: int|
                        0 <= j2 < j + 1 && m[#[trigger] keys[j2]] == p {
                        let j2 = choose|j2: int| 0 <= j2 < j + 1 && m[#[trigger] keys[j2]] == p;
                        if j2 < j {
                            assert(before.contains(p));
                            let a = choose|a: int| 0 <= a < before.len() && before[a] == p;
                            assert(ptrs@[a] == p);
                        } else {
                            assert(added);
                            assert(ptrs@[ptrs@.len() - 1] == p);
                        }
                    }
                }
            }
            j += 1;
        }
        proof {
            let m = arena.registry_map(self@);
            assert forall|p: usize|
                ptrs@.contains(p) <==> arena.is_live(p as int) && arena.registry_holds(
                    self@,
                    p as int,
                ) by {
                if ptrs@.contains(p) {
                    let j2 = choose|j2: int| 0 <= j2 < ids@.len() && m[#[trigger] keys[j2]] == p;
                    assert(keys.to_set().contains(keys[j2]));
                    assert(m.contains_key(keys[j2]) && m[keys[j2]] == p as int);
                }
                if arena.is_live(p as int) && arena.registry_holds(self@, p as int) {
                    let k = choose|k: u64| m.contains_key(k) && #[trigger] m[k] == p as int;
                    assert(keys.to_set().contains(k));
                    assert(keys.contains(k));
                    let j2 = choose|j2: int| 0 <= j2 < keys.len() && keys[j2] == k;
                    assert(m[keys[j2]] == p);
                }
            }
            assert forall|j2: int| 0 <= j2 < ptrs@.len() implies arena.is_live(
                #[trigger] ptrs@[j2] as int,
            ) by {
                assert(ptrs@.contains(ptrs@[j2]));
            }
        }
        let (names, nodes) = plain_nodes(arena, &ptrs);
        let r = SerializedRegistry { nodes };
        proof {
            assert(arena.plain_of(ptrs@, names@, r.nodes@));
        }
        r
    }
}

/// Whether the node at position `x` is one of the nodes in `made`.
pub open spec fn tracked_among(made: Seq<(u64, RelRc)>, x: int) -> bool {
    exists|j: int| 0 <= j < made.len() && (#[trigger] made[j]).1@ == x
}

impl Registry {
    /// Makes the nodes of a registry in plain form again, see
    /// [`deserialize_nodes`], and a new registry that tracks them. Returns
    /// the registry and the strong handle on each node, with its identifier
    /// in the plain form.
    ///
    /// Nothing is made, and `None` is returned, where the nodes cannot be
    /// made or are more than a registry takes.
    pub fn from_serialized<N: Hash, E: Hash>(
        arena: &mut Arena<N, E>,
        serialized: SerializedRegistry<N, E>,
    ) -> (r: Option<(Registry, Vec<(u64, RelRc)>)>)
        requires
            old(arena).wf(),
        ensures
            final(arena).wf(),
            r is Some <==> serialized.nodes@.len() <= crate::registry::REGISTRY_LIMIT && all_fit(
                serialized.nodes@,
            ) && closed_records(records_of(serialized.nodes@)) && acyclic_records(
                records_of(serialized.nodes@),
            ),
            r is None ==> *final(arena) == *old(arena),
            r matches Some(found) ==> {
                &&& found.0@ == old(arena).n_registries()
                &&& final(arena).n_registries() == old(arena).n_registries() + 1
                &&& exists|mid: Arena<N, E>|
                    #[trigger] old(arena).restored(
                        &mid,
                        records_of(serialized.nodes@),
                        found.1@,
                    ) && mid.same_nodes(final(arena))
                &&& forall|j: int|
                    0 <= j < found.1@.len() ==> final(arena).registry_holds(
                        found.0@,
                        (#[trigger] found.1@[j]).1@,
                    )
                &&& forall|k: u64|
                    final(arena).registry_map(found.0@).contains_key(k) ==> tracked_among(
                        found.1@,
                        final(arena).registry_map(found.0@)[k],
                    )
                &&& forall|r2: int|
                    0 <= r2 < old(arena).n_registries() ==> #[trigger] final(arena).registry_map(r2)
                        == old(arena).registry_map(r2)
            },
    {
        let ghost table = serialized.nodes@;
        if serialized.nodes.len() > crate::registry::REGISTRY_LIMIT {
            return None;
        }
        let made = match deserialize_nodes(arena, serialized) {
            Some(made) => made,
            None => {
                return None;
            },
        };
        let ghost mid = *arena;
        let mut nodes: Vec<&RelRc> = Vec::new();
        let mut j: usize = 0;
        while j < made.len()
            invariant
                j <= made@.len(),
                nodes@.len() == j,
                forall|j2: int| 0 <= j2 < j ==> (#[trigger] nodes@[j2])@ == made@[j2].1@,
            decreases made@.len() - j,
        {
            nodes.push(&made[j].1);
            j += 1;
        }
        let registry = Registry::from_iter(arena, &nodes);
        proof {
            assert forall|j2: int| 0 <= j2 < made@.len() implies arena.registry_holds(
                registry@,
                (#[trigger] made@[j2]).1@,
            ) by {
                assert(arena.registry_holds(registry@, nodes@[j2]@));
            }
            assert forall|k: u64| arena.registry_map(registry@).contains_key(k) implies tracked_among(
                made@,
                arena.registry_map(registry@)[k],
            ) by {
                let j2 = choose|j2: int|
                    0 <= j2 < nodes@.len() && (#[trigger] nodes@[j2])@ == arena.registry_map(
                        registry@,
                    )[k];
                assert(made@[j2].1@ == nodes@[j2]@);
            }
            assert(mid.same_tables(old(arena)));
            assert forall|r2: int| 0 <= r2 < old(arena).n_registries() implies #[trigger] arena.registry_map(
            r2) == old(arena).registry_map(r2) by {
                assert(mid.registry_map(r2) == old(arena).registry_map(r2));
            }
            assert(old(arena).restored(&mid, records_of(table), made@) && mid.same_nodes(arena));
        }
        let r = Some((registry, made));
        proof {
            let found = r.unwrap();
            assert(found.1@ == made@);
            assert(old(arena).restored(&mid, records_of(table), found.1@) && mid.same_nodes(arena));
        }
        r
    }
}

/// Whether `id` is the identifier of a node in the list.
pub open spec fn listed<N, E>(nodes: Seq<(u64, SerializedInnerData<N, E>)>, id: u64) -> bool {
    exists|i: int| 0 <= i < nodes.len() && (#[trigger] nodes[i]).0 == id
}

/// Whether every identifier in `ids` is that of a node in the list.
pub open spec fn all_listed<N, E>(ids: Seq<u64>, nodes: Seq<(u64, SerializedInnerData<N, E>)>) -> bool {
    forall|j: int| 0 <= j < ids.len() ==> listed(nodes, #[trigger] ids[j])
}

/// Whether the node at position `x` is the node that was made for `id`.
pub open spec fn made_for(made: Seq<(u64, RelRc)>, id: u64, x: int) -> bool {
    exists|i: int| 0 <= i < made.len() && (#[trigger] made[i]).0 == id && made[i].1@ == x
}

/// Whether `positions` gives, for each of the identifiers in `ids`, the
/// position of the node that was made for it.
pub open spec fn positions_of_made(ids: Seq<u64>, made: Seq<(u64, RelRc)>, positions: Seq<int>) -> bool {
    &&& positions.len() == ids.len()
    &&& forall|j: int| 0 <= j < ids.len() ==> made_for(made, ids[j], #[trigger] positions[j])
}

impl<R> HistoryGraph<R> {
    /// Makes the nodes of a graph in plain form again, see
    /// [`deserialize_nodes`], and inserts those that the plain form names as
    /// the nodes of the graph into a new graph, in their order. Returns the
    /// graph and the strong handle on each node that was made, with its
    /// identifier in the plain form.
    ///
    /// Nothing is made, and `None` is returned, where the nodes cannot be
    /// made or a node of the graph is not among them.
    pub fn from_serialized<N: Clone + Hash, E: Clone + Hash>(
        arena: &mut Arena<N, E>,
        resolver: R,
        serialized: SerializedHistoryGraph<N, E>,
    ) -> (r: Option<(Self, Vec<(u64, RelRc)>)>) where R: crate::resolver::EquivalenceResolver<N, E>
        requires
            old(arena).wf(),
        ensures
            final(arena).wf(),
            r is Some <==> all_listed(serialized.nodes@, serialized.registry.nodes@) && all_fit(
                serialized.registry.nodes@,
            ) && closed_records(records_of(serialized.registry.nodes@)) && acyclic_records(
                records_of(serialized.registry.nodes@),
            ),
            r is None ==> *final(arena) == *old(arena),
            r matches Some(found) ==> {
                &&& found.0.wf(final(arena))
                &&& found.0.resolver_spec() == resolver
                &&& exists|mid: Arena<N, E>, start: Self, positions: Seq<int>|
                    {
                        &&& #[trigger] old(arena).restored(
                            &mid,
                            records_of(serialized.registry.nodes@),
                            found.1@,
                        )
                        &&& positions_of_made(serialized.nodes@, found.1@, positions)
                        &&& start.is_new(resolver)
                        &&& #[trigger] start.inserted_all(&mid, &found.0, final(arena), positions)
                    }
            },
    {
        let ghost table = serialized.registry.nodes@;
        let ghost records = records_of(table);
        let ghost wanted = serialized.nodes@;
        // Every node of the graph must be in the table.
        let mut names: std::collections::BTreeSet<u64> = std::collections::BTreeSet::new();
        let mut i: usize = 0;
        while i < serialized.registry.nodes.len()
            invariant
                i <= table.len(),
                *arena == *old(arena),
                arena.wf(),
                table == serialized.registry.nodes@,
                forall|x: u64|
                    names@.contains(x) <==> exists|i2: int|
                        0 <= i2 < i && (#[trigger] table[i2]).0 == x,
            decreases table.len() - i,
        {
            let ghost before = names@;
            let id = serialized.registry.nodes[i].0;
            names.insert(id);
            proof {
                assert forall|x: u64|
                    names@.contains(x) <==> exists|i2: int|
                        0 <= i2 < i + 1 && (#[trigger] table[i2]).0 == x by {
                    if before.contains(x) {
                        let i2 = choose|i2: int| 0 <= i2 < i && (#[trigger] table[i2]).0 == x;
                        assert(table[i2].0 == x);
                    }
                    if x == id {
                        assert(table[i as int].0 == x);
                    }
                }
            }
            i += 1;
        }
        let mut j: usize = 0;
        while j < serialized.nodes.len()
            invariant
                j <= serialized.nodes@.len(),
                *arena == *old(arena),
                arena.wf(),
                wanted == serialized.nodes@,
                table == serialized.registry.nodes@,
                forall|x: u64|
                    names@.contains(x) <==> exists|i2: int|
                        0 <= i2 < table.len() && (#[trigger] table[i2]).0 == x,
                forall|j2: int| 0 <= j2 < j ==> listed(table, #[trigger] serialized.nodes@[j2]),
            decreases serialized.nodes@.len() - j,
        {
            if !names.contains(&serialized.nodes[j]) {
                assert(!listed(table, serialized.nodes@[j as int]));
                return None;
            }
            j += 1;
        }
        let ids = serialized.nodes;
        assert(ids@ == wanted);
        assert(all_listed(wanted, table));
        let made = match deserialize_nodes(arena, serialized.registry) {
            Some(made) => made,
            None => {
                return None;
            },
        };
        let ghost mid = *arena;
        let mut index: BTreeMap<u64, usize> = BTreeMap::new();
        let mut i: usize = 0;
        while i < made.len()
            invariant
                i <= made@.len(),
                forall|x: u64| #[trigger]
                    index@.contains_key(x) ==> index@[x] < made@.len() && made@[index@[x] as int].0
                        == x,
                forall|i2: int| 0 <= i2 < i ==> index@.contains_key((#[trigger] made@[i2]).0),
            decreases made@.len() - i,
        {
            index.insert(made[i].0, i);
            i += 1;
        }
        let mut graph = Self::new(resolver);
        let ghost start = graph;
        let ghost mut positions = Seq::<int>::empty();
        proof {
            assert(graph.wf(arena)) by {
                assert forall|id: crate::history::NodeId| !graph.has_id(id) by {
                    assert(graph.bucket(id.hash) == Seq::<int>::empty());
                }
            }
        }
        let mut j: usize = 0;
        while j < ids.len()
            invariant
                j <= ids@.len(),
                ids@ == wanted,
                old(arena).restored(&mid, records, made@),
                all_listed(ids@, table),
                all_fit(table),
                records == records_of(table),
                forall|x: u64| #[trigger]
                    index@.contains_key(x) ==> index@[x] < made@.len() && made@[index@[x] as int].0
                        == x,
                forall|i2: int| 0 <= i2 < made@.len() ==> index@.contains_key((#[trigger] made@[i2]).0),
                graph.wf(arena),
                arena.wf(),
                graph.resolver_spec() == resolver,
                mid.keeps_shape(arena),
                start.is_new(resolver),
                positions_of_made(ids@.take(j as int), made@, positions),
                start.inserted_all(&mid, &graph, arena, positions),
            decreases ids@.len() - j,
        {
            let id = ids[j];
            let ghost prev = *arena;
            let ghost before = graph;
            let ghost positions0 = positions;
            proof {
                assert(listed(table, ids@[j as int]));
                let i2 = choose|i2: int| 0 <= i2 < table.len() && (#[trigger] table[i2]).0 == id;
                lemma_records_has(table, i2);
                assert(records.contains_key(key(id)));
                let i3 = choose|i3: int| 0 <= i3 < made@.len() && key((#[trigger] made@[i3]).0) == key(id);
                assert(made@[i3].0 <= usize::MAX && id <= usize::MAX);
                assert(made@[i3].0 as usize as u64 == made@[i3].0);
                assert(id as usize as u64 == id);
                assert(made@[i3].0 == id);
                assert(index@.contains_key(id));
            }
            let at = *index.get(&id).unwrap();
            proof {
                assert(mid.is_live(made@[at as int].1@));
                let y = arena.node(made@[at as int].1@);
            }
            let found = graph.insert_node(arena, &made[at].1);
            proof {
                positions = positions.push(made@[at as int].1@);
                assert(positions.drop_last() =~= positions0);
                assert(before.inserted(&prev, &graph, arena, positions.last(), found));
                assert(mid.keeps_shape(arena)) by {
                    assert forall|x: int| mid.is_live(x) implies arena.is_live(x) && (
                    #[trigger] arena.node(x)).value == mid.node(x).value && arena.node(x).incoming
                        == mid.node(x).incoming by {
                        let y = prev.node(x);
                    }
                }
                let t0 = ids@.take(j as int);
                let t1 = ids@.take(j + 1);
                assert forall|j2: int| 0 <= j2 < t1.len() implies made_for(
                    made@,
                    t1[j2],
                    #[trigger] positions[j2],
                ) by {
                    if j2 < j {
                        assert(made_for(made@, t0[j2], positions0[j2]));
                        assert(t0[j2] == t1[j2]);
                        assert(positions0[j2] == positions[j2]);
                    } else {
                        assert(made@[at as int].0 == t1[j2]);
                    }
                }
            }
            j += 1;
        }
        proof {
            assert(ids@.take(ids@.len() as int) =~= ids@);
            assert(old(arena).restored(&mid, records, made@) && positions_of_made(
                wanted,
                made@,
                positions,
            ) && start.is_new(resolver) && start.inserted_all(&mid, &graph, arena, positions));
        }
        let r = Some((graph, made));
        proof {
            let found = r.unwrap();
            assert(found.1@ == made@ && found.0 == graph);
            assert(old(arena).restored(&mid, records, found.1@) && positions_of_made(
                wanted,
                found.1@,
                positions,
            ) && start.is_new(resolver) && start.inserted_all(&mid, &found.0, arena, positions));
        }
        r
    }
}

/// A node in the list has a record, if the identifiers are content
/// identities on this machine.
pub proof fn lemma_records_has<N, E>(nodes: Seq<(u64, SerializedInnerData<N, E>)>, i: int)
    requires
        0 <= i < nodes.len(),
    ensures
        records_of(nodes).contains_key(key(nodes[i].0)),
    decreases nodes.len(),
{
    if i < nodes.len() - 1 {
        lemma_records_has(nodes.drop_last(), i);
    }
}

impl RelRc {
    /// The plain form of the node with all its ancestors, each under the bits
    /// of its content identity: what detaching the node from nothing gives.
    pub fn to_serialized<N: Clone, E: Clone>(&self, arena: &Arena<N, E>) -> (r: SerializedRelRc<N, E>)
        requires
            arena.wf(),
            arena.is_live(self@),
        ensures
            r.fits(),
            key(r.id) == arena.node(self@).hash,
            exists|d: Detached<N, E>|
                arena.detached(self@, Set::empty(), &d) && #[trigger] r.stands_for(&d),
            r.ancestors_graph.nodes@ == r.ancestors_graph.registry.nodes@.map_values(
                |x: (u64, SerializedInnerData<N, E>)| x.0,
            ),
    {
        let nothing: Vec<RelRcHash> = Vec::new();
        let detached = Detached::new(arena, self, &nothing);
        assert(nothing@.to_set() =~= Set::<RelRcHash>::empty());
        SerializedRelRc::from_detached(detached)
    }

    /// Makes the node of a plain form again, and before it those of its
    /// ancestors that it needs, parents before children, and returns the
    /// strong handle on it.
    ///
    /// Nothing is made, and `None` is returned, where an identifier is no
    /// content identity on this machine, where a parent is named that is not
    /// in the plain form, where the node itself is not in it, or where a node
    /// that is needed is its own ancestor.
    pub fn from_serialized<N: Hash, E: Hash>(
        arena: &mut Arena<N, E>,
        serialized: SerializedRelRc<N, E>,
    ) -> (r: Option<RelRc>)
        requires
            old(arena).wf(),
        ensures
            final(arena).wf(),
            r is Some <==> serialized.fits() && exists|d: Detached<N, E>| #[trigger]
                serialized.stands_for(&d) && d.attachable(Set::empty()),
            r is None ==> *final(arena) == *old(arena),
            r matches Some(n) ==> {
                &&& old(arena).attached(final(arena), n@)
                &&& final(arena).realizes(
                    serialized.records(),
                    Map::empty(),
                    key(serialized.id),
                    n@,
                )
                &&& exists|built: Map<RelRcHash, int>| #[trigger]
                    made_at(built, key(serialized.id), n@) && final(arena).assembles(
                        old(arena).len() as int,
                        serialized.records(),
                        Map::empty(),
                        built,
                    )
            },
    {
        let nothing: Vec<RelRc> = Vec::new();
        let ghost ptrs = nothing@.map_values(|n: RelRc| n@);
        proof {
            assert(ptrs =~= Seq::<int>::empty());
            assert(arena.hashes_of(ptrs) =~= Set::<RelRcHash>::empty());
            assert(arena.hash_index(ptrs) =~= Map::<RelRcHash, int>::empty());
        }
        match serialized.into_detached() {
            None => None,
            Some(detached) => {
                proof {
                    assert forall|d: Detached<N, E>| #[trigger]
                        serialized.stands_for(&d) implies d.attachable(Set::empty())
                        == detached.attachable(Set::empty()) by {
                        lemma_same_attachable(&d, &detached, Set::empty());
                    }
                }
                RelRc::try_attach(arena, detached, &nothing)
            },
        }
    }
}

} // verus!
