//! Detaching nodes from an arena and attaching them to another.
//!
//! A node and a part of its ancestry can be turned into a flat value that
//! holds no reference to the arena. The value can be moved to another arena,
//! in the same process or not, and attached to the nodes that are there.

pub mod mpi;

use crate::hash_id::RelRcHash;
use crate::node::{Arena, InnerData, RelRc};
use crate::traverse::set_to_vec;
use std::collections::{BTreeMap, BTreeSet};
use vstd::pervasive::cloned;
use vstd::prelude::*;
use vstd::std_specs::btree::*;
use vstd::std_specs::iter::IteratorSpec;

verus! {

broadcast use vstd::std_specs::btree::group_btree_axioms;

/// What a detached node is, as a mathematical value: its value and its
/// incoming edges, each given by the content identity of its source and the
/// edge value.
pub struct Record<N, E> {
    pub value: N,
    pub incoming: Seq<(RelRcHash, E)>,
}

/// Whether the record `b` holds clones of the values of the record `a`, with
/// the same sources.
pub open spec fn record_cloned<N: Clone, E: Clone>(a: Record<N, E>, b: Record<N, E>) -> bool {
    &&& cloned(a.value, b.value)
    &&& a.incoming.len() == b.incoming.len()
    &&& forall|k: int|
        0 <= k < a.incoming.len() ==> (#[trigger] a.incoming[k]).0 == b.incoming[k].0 && cloned(
            a.incoming[k].1,
            b.incoming[k].1,
        )
}

/// The data of a detached node.
#[derive(Clone, Debug, PartialEq, Eq)]
pub struct DetachedInnerData<N, E> {
    /// The value of the node.
    pub(crate) value: N,
    /// The incoming edges of the node, by the content identity of the source
    /// and the edge value.
    pub(crate) incoming: Vec<(RelRcHash, E)>,
}

impl<N, E> View for DetachedInnerData<N, E> {
    type V = Record<N, E>;

    open(crate) spec fn view(&self) -> Record<N, E> {
        Record { value: self.value, incoming: self.incoming@ }
    }
}

impl<N, E> DetachedInnerData<N, E> {
    /// The data of a detached node with the given value and incoming edges.
    pub fn new(value: N, incoming: Vec<(RelRcHash, E)>) -> (data: Self)
        ensures
            data@ == (Record { value, incoming: incoming@ }),
    {
        DetachedInnerData { value, incoming }
    }

    /// The value of the node.
    pub fn value(&self) -> (v: &N)
        ensures
            *v == self@.value,
    {
        &self.value
    }

    /// The incoming edges of the node.
    pub fn incoming(&self) -> (es: &[(RelRcHash, E)])
        ensures
            es@ == self@.incoming,
    {
        self.incoming.as_slice()
    }

    /// The content identities of the parents of the node, in the order of the
    /// incoming edges.
    pub fn parents(&self) -> (ps: Vec<RelRcHash>)
        ensures
            ps@ == self@.incoming.map_values(|e: (RelRcHash, E)| e.0),
    {
        let mut ps: Vec<RelRcHash> = Vec::new();
        let mut k: usize = 0;
        while k < self.incoming.len()
            invariant
                k <= self.incoming@.len(),
                ps@ == self@.incoming.map_values(|e: (RelRcHash, E)| e.0).take(k as int),
            decreases self.incoming@.len() - k,
        {
            ps.push(self.incoming[k].0);
            assert(self@.incoming.map_values(|e: (RelRcHash, E)| e.0).take(k + 1)
                == self@.incoming.map_values(|e: (RelRcHash, E)| e.0).take(k as int).push(
                self.incoming@[k as int].0,
            ));
            k += 1;
        }
        assert(self@.incoming.map_values(|e: (RelRcHash, E)| e.0).take(
            self.incoming@.len() as int,
        ) == self@.incoming.map_values(|e: (RelRcHash, E)| e.0));
        ps
    }
}

/// A detached node: the content identity of the node, and the data of the
/// node and of a part of its ancestry, each under its content identity.
#[derive(Clone, Debug, PartialEq, Eq)]
pub struct Detached<N, E> {
    pub(crate) current: RelRcHash,
    pub(crate) all_data: BTreeMap<usize, DetachedInnerData<N, E>>,
}

impl<N, E> Detached<N, E> {
    /// The content identity of the node that was detached.
    pub open(crate) spec fn current(&self) -> RelRcHash {
        self.current
    }

    /// The records of the detached nodes, each under its content identity.
    pub open(crate) spec fn records(&self) -> Map<RelRcHash, Record<N, E>> {
        Map::new(|h: RelRcHash| self.all_data@.contains_key(h.0), |h: RelRcHash| self.all_data@[h.0]@)
    }

    /// Whether `p` is named as a parent by one of the records.
    pub open spec fn names_parent(&self, p: RelRcHash) -> bool {
        exists|h: RelRcHash, k: int|
            self.records().contains_key(h) && 0 <= k < self.records()[h].incoming.len()
                && #[trigger] self.records()[h].incoming[k].0 == p
    }

    /// Whether `p` is named as a parent by one of the records and has no
    /// record itself: it must be supplied for the node to be attached.
    pub open spec fn requires_hash(&self, p: RelRcHash) -> bool {
        self.names_parent(p) && !self.records().contains_key(p)
    }

    /// Whether every content identity that is required is among `known`.
    pub open spec fn attaches_to_spec(&self, known: Set<RelRcHash>) -> bool {
        forall|p: RelRcHash| self.requires_hash(p) ==> known.contains(p)
    }

    /// A detached node without any record, to be filled record by record.
    pub fn empty(current: RelRcHash) -> (d: Self)
        ensures
            d.current() == current,
            d.records() == Map::<RelRcHash, Record<N, E>>::empty(),
    {
        let d = Detached { current, all_data: BTreeMap::new() };
        assert(d.records() =~= Map::<RelRcHash, Record<N, E>>::empty());
        d
    }

    /// Puts a record under a content identity, in place of the record that
    /// was there, if there was one.
    pub fn insert(&mut self, hash: RelRcHash, data: DetachedInnerData<N, E>)
        ensures
            final(self).current() == old(self).current(),
            final(self).records() == old(self).records().insert(hash, data@),
    {
        self.all_data.insert(hash.0, data);
        assert(self.records() =~= old(self).records().insert(hash, data@));
    }

    /// The content identity of the node that was detached.
    pub fn current_hash(&self) -> (h: RelRcHash)
        ensures
            h == self.current(),
    {
        self.current
    }

    /// The record under a content identity, if there is one.
    pub fn get(&self, hash: RelRcHash) -> (data: Option<&DetachedInnerData<N, E>>)
        ensures
            data is Some == self.records().contains_key(hash),
            data matches Some(d) ==> d@ == self.records()[hash],
    {
        self.all_data.get(&hash.0)
    }

    /// The number of detached nodes: the node itself and the ancestors that
    /// were detached with it.
    pub fn n_ancestors(&self) -> (n: usize)
        ensures
            n == self.records().len(),
    {
        proof {
            lemma_records_len(self.all_data@, self.records());
        }
        self.all_data.len()
    }

    /// Whether `p` is named as a parent by a record among the first `j` of
    /// `keys`, or by one of the first `k` edges of the record after them.
    pub open(crate) spec fn named_before(&self, keys: Seq<usize>, j: int, k: int, p: RelRcHash) -> bool {
        exists|j2: int, k2: int|
            0 <= j2 < keys.len() && (j2 < j || (j2 == j && k2 < k)) && 0 <= k2
                < self.all_data@[keys[j2]]@.incoming.len()
                && #[trigger] self.all_data@[keys[j2]]@.incoming[k2].0 == p
    }

    /// The content identities that must be supplied for the node to be
    /// attached: those that a record names as a parent and that have no
    /// record. Each is given once.
    pub fn required_hashes(&self) -> (hashes: Vec<RelRcHash>)
        ensures
            hashes@.no_duplicates(),
            forall|p: RelRcHash| hashes@.contains(p) <==> self.requires_hash(p),
    {
        let keys = map_keys(&self.all_data);
        let mut hashes: Vec<RelRcHash> = Vec::new();
        let mut seen: BTreeSet<usize> = BTreeSet::new();
        let mut j: usize = 0;
        while j < keys.len()
            invariant
                j <= keys@.len(),
                keys@.to_set() == self.all_data@.dom(),
                hashes@.no_duplicates(),
                forall|p: RelRcHash| hashes@.contains(p) <==> seen@.contains(p.0),
                forall|p: RelRcHash|
                    hashes@.contains(p) <==> !self.records().contains_key(p) && self.named_before(
                        keys@,
                        j as int,
                        0,
                        p,
                    ),
            decreases keys@.len() - j,
        {
            assert(keys@.to_set().contains(keys@[j as int]));
            let data = self.all_data.get(&keys[j]).unwrap();
            let mut k: usize = 0;
            while k < data.incoming.len()
                invariant
                    j < keys@.len(),
                    k <= data.incoming@.len(),
                    self.all_data@.contains_key(keys@[j as int]),
                    *data == self.all_data@[keys@[j as int]],
                    hashes@.no_duplicates(),
                    forall|p: RelRcHash| hashes@.contains(p) <==> seen@.contains(p.0),
                    forall|p: RelRcHash|
                        hashes@.contains(p) <==> !self.records().contains_key(p)
                            && self.named_before(keys@, j as int, k as int, p),
                decreases data.incoming@.len() - k,
            {
                let p = data.incoming[k].0;
                let ghost before = hashes@;
                let ghost seen0 = seen@;
                let fresh = !self.all_data.contains_key(&p.0) && !seen.contains(&p.0);
                if fresh {
                    seen.insert(p.0);
                    hashes.push(p);
                    assert(hashes@[before.len() as int] == p);
                    assert forall|a: int, b: int| 0 <= a < b < hashes@.len() implies hashes@[a]
                        != hashes@[b] by {
                        if b == before.len() {
                            assert(before.contains(before[a]));
                        }
                    }
                }
                proof {
                    assert(self.all_data@[keys@[j as int]]@.incoming[k as int].0 == p);
                    assert(self.records().contains_key(p) == self.all_data@.contains_key(p.0));
                    assert forall|q: RelRcHash| hashes@.contains(q) <==> before.contains(q) || (fresh
                        && q == p) by {
                        if before.contains(q) {
                            let a = choose|a: int| 0 <= a < before.len() && before[a] == q;
                            assert(hashes@[a] == q);
                        }
                        if hashes@.contains(q) {
                            let a = choose|a: int| 0 <= a < hashes@.len() && hashes@[a] == q;
                            if a < before.len() {
                                assert(before[a] == q);
                            }
                        }
                    }
                    assert forall|q: RelRcHash|
                        self.named_before(keys@, j as int, k + 1, q) <==> self.named_before(
                            keys@,
                            j as int,
                            k as int,
                            q,
                        ) || q == p by {
                        if self.named_before(keys@, j as int, k + 1, q) {
                            let (j2, k2) = choose|j2: int, k2: int|
                                0 <= j2 < keys@.len() && (j2 < j || (j2 == j && k2 < k + 1)) && 0
                                    <= k2 < self.all_data@[keys@[j2]]@.incoming.len()
                                    && #[trigger] self.all_data@[keys@[j2]]@.incoming[k2].0 == q;
                            if !(j2 == j && k2 == k) {
                                assert(self.all_data@[keys@[j2]]@.incoming[k2].0 == q);
                            }
                        }
                        if self.named_before(keys@, j as int, k as int, q) {
                            let (j2, k2) = choose|j2: int, k2: int|
                                0 <= j2 < keys@.len() && (j2 < j || (j2 == j && k2 < k)) && 0 <= k2
                                    < self.all_data@[keys@[j2]]@.incoming.len()
                                    && #[trigger] self.all_data@[keys@[j2]]@.incoming[k2].0 == q;
                            assert(self.all_data@[keys@[j2]]@.incoming[k2].0 == q);
                        }
                    }
                    assert forall|q: RelRcHash| hashes@.contains(q) <==> seen@.contains(q.0) by {
                        assert(before.contains(q) <==> seen0.contains(q.0));
                        if q.0 == p.0 {
                            assert(q == p);
                        }
                    }
                    assert forall|q: RelRcHash|
                        hashes@.contains(q) <==> !self.records().contains_key(q)
                            && self.named_before(keys@, j as int, k + 1, q) by {
                        assert(before.contains(q) <==> !self.records().contains_key(q)
                            && self.named_before(keys@, j as int, k as int, q));
                        assert(before.contains(p) <==> seen0.contains(p.0));
                    }
                }
                k += 1;
            }
            proof {
                assert forall|q: RelRcHash|
                    self.named_before(keys@, j as int, k as int, q) <==> self.named_before(
                        keys@,
                        j + 1,
                        0,
                        q,
                    ) by {
                    if self.named_before(keys@, j as int, k as int, q) {
                        let (j2, k2) = choose|j2: int, k2: int|
                            0 <= j2 < keys@.len() && (j2 < j || (j2 == j && k2 < k)) && 0 <= k2
                                < self.all_data@[keys@[j2]]@.incoming.len()
                                && #[trigger] self.all_data@[keys@[j2]]@.incoming[k2].0 == q;
                        assert(self.all_data@[keys@[j2]]@.incoming[k2].0 == q);
                    }
                    if self.named_before(keys@, j + 1, 0, q) {
                        let (j2, k2) = choose|j2: int, k2: int|
                            0 <= j2 < keys@.len() && (j2 < j + 1 || (j2 == j + 1 && k2 < 0)) && 0
                                <= k2 < self.all_data@[keys@[j2]]@.incoming.len()
                                && #[trigger] self.all_data@[keys@[j2]]@.incoming[k2].0 == q;
                        assert(self.all_data@[keys@[j2]]@.incoming[k2].0 == q);
                    }
                }
            }
            j += 1;
        }
        proof {
            assert forall|p: RelRcHash| hashes@.contains(p) <==> self.requires_hash(p) by {
                if hashes@.contains(p) {
                    let (j2, k) = choose|j2: int, k: int|
                        0 <= j2 < keys@.len() && (j2 < j || (j2 == j && k < 0)) && 0 <= k
                            < self.all_data@[keys@[j2]]@.incoming.len()
                            && #[trigger] self.all_data@[keys@[j2]]@.incoming[k].0 == p;
                    let h = RelRcHash(keys@[j2]);
                    assert(keys@.to_set().contains(keys@[j2]));
                    assert(self.records().contains_key(h));
                    assert(self.records()[h].incoming[k].0 == p);
                }
                if self.requires_hash(p) {
                    let (h, k) = choose|h: RelRcHash, k: int|
                        self.records().contains_key(h) && 0 <= k < self.records()[h].incoming.len()
                            && #[trigger] self.records()[h].incoming[k].0 == p;
                    assert(keys@.to_set().contains(h.0));
                    assert(keys@.contains(h.0));
                    let j2 = choose|j2: int| 0 <= j2 < keys@.len() && keys@[j2] == h.0;
                    assert(self.all_data@[keys@[j2]]@.incoming[k].0 == p);
                    assert(self.named_before(keys@, j as int, 0, p));
                }
            }
        }
        hashes
    }

    /// The content identities of the given nodes.
    pub(crate) fn known_hashes(arena: &Arena<N, E>, attach_to: &Vec<RelRc>) -> (known: BTreeSet<usize>)
        requires
            forall|j: int| 0 <= j < attach_to@.len() ==> arena.is_live((#[trigger] attach_to@[j])@),
        ensures
            forall|h: RelRcHash| #[trigger]
                known@.contains(h.0) <==> arena.hashes_of(
                    attach_to@.map_values(|n: RelRc| n@),
                ).contains(h),
    {
        let ghost ptrs = attach_to@.map_values(|n: RelRc| n@);
        let mut known: BTreeSet<usize> = BTreeSet::new();
        let mut j: usize = 0;
        while j < attach_to.len()
            invariant
                j <= attach_to@.len(),
                ptrs == attach_to@.map_values(|n: RelRc| n@),
                forall|j2: int| 0 <= j2 < ptrs.len() ==> arena.is_live(#[trigger] ptrs[j2]),
                forall|h: RelRcHash| #[trigger]
                    known@.contains(h.0) <==> arena.hashes_of(ptrs.take(j as int)).contains(h),
            decreases attach_to@.len() - j,
        {
            assert(ptrs[j as int] == attach_to@[j as int]@);
            let h = arena.get(&attach_to[j]).hash_id();
            known.insert(h.0);
            proof {
                assert(ptrs[j as int] == attach_to@[j as int]@);
                assert forall|g: RelRcHash| #[trigger]
                    known@.contains(g.0) <==> arena.hashes_of(ptrs.take(j + 1)).contains(g) by {
                    let t0 = ptrs.take(j as int);
                    let t1 = ptrs.take(j + 1);
                    if arena.hashes_of(t1).contains(g) {
                        let a = choose|a: int| 0 <= a < t1.len() && arena.node(#[trigger] t1[a]).hash == g;
                        if a < j {
                            assert(arena.node(t0[a]).hash == g);
                        }
                    }
                    if arena.hashes_of(t0).contains(g) {
                        let a = choose|a: int| 0 <= a < t0.len() && arena.node(#[trigger] t0[a]).hash == g;
                        assert(arena.node(t1[a]).hash == g);
                    }
                    if g == h {
                        assert(arena.node(t1[j as int]).hash == g);
                    }
                }
            }
            j += 1;
        }
        assert(ptrs.take(attach_to@.len() as int) == ptrs);
        known
    }

    /// Whether the node can be attached to the given nodes: whether every
    /// content identity that is required is that of one of them.
    pub fn attaches_to(&self, arena: &Arena<N, E>, attach_to: &Vec<RelRc>) -> (b: bool)
        requires
            forall|j: int| 0 <= j < attach_to@.len() ==> arena.is_live((#[trigger] attach_to@[j])@),
        ensures
            b == self.attaches_to_spec(arena.hashes_of(attach_to@.map_values(|n: RelRc| n@))),
    {
        let ghost ptrs = attach_to@.map_values(|n: RelRc| n@);
        let known = Self::known_hashes(arena, attach_to);
        let required = self.required_hashes();
        let mut k: usize = 0;
        while k < required.len()
            invariant
                k <= required@.len(),
                ptrs == attach_to@.map_values(|n: RelRc| n@),
                forall|p: RelRcHash| required@.contains(p) <==> self.requires_hash(p),
                forall|h: RelRcHash| #[trigger]
                    known@.contains(h.0) <==> arena.hashes_of(ptrs).contains(h),
                forall|k2: int| 0 <= k2 < k ==> known@.contains((#[trigger] required@[k2]).0),
            decreases required@.len() - k,
        {
            if !known.contains(&required[k].0) {
                proof {
                    let p = required@[k as int];
                    assert(required@.contains(p));
                    assert(self.requires_hash(p));
                    assert(!arena.hashes_of(ptrs).contains(p));
                }
                return false;
            }
            k += 1;
        }
        proof {
            assert forall|p: RelRcHash| self.requires_hash(p) implies arena.hashes_of(ptrs).contains(
                p,
            ) by {
                assert(required@.contains(p));
                let k2 = choose|k2: int| 0 <= k2 < required@.len() && required@[k2] == p;
                assert(known@.contains(required@[k2].0));
            }
        }
        true
    }
}

impl<N, E> Arena<N, E> {
    /// The content identities of the nodes at the given positions.
    pub open spec fn hashes_of(&self, ptrs: Seq<int>) -> Set<RelRcHash> {
        Set::new(|h: RelRcHash| exists|j: int| 0 <= j < ptrs.len() && self.node(#[trigger] ptrs[j]).hash == h)
    }
}

/// The records of a detached node are as many as the entries of its map.
pub proof fn lemma_records_len<V, R>(m: Map<usize, V>, records: Map<RelRcHash, R>)
    requires
        m.dom().finite(),
        forall|h: RelRcHash| records.contains_key(h) <==> m.contains_key(h.0),
    ensures
        records.dom().finite(),
        records.len() == m.len(),
    decreases m.len(),
{
    if m.len() == 0 {
        assert(m.dom() =~= Set::<usize>::empty());
        assert(records.dom() =~= Set::<RelRcHash>::empty());
    } else {
        let x = m.dom().choose();
        lemma_records_len(m.remove(x), records.remove(RelRcHash(x)));
        assert(records.dom() =~= records.remove(RelRcHash(x)).dom().insert(RelRcHash(x)));
    }
}

/// The keys of a map, each once.
pub(crate) fn map_keys<V>(m: &BTreeMap<usize, V>) -> (v: Vec<usize>)
    ensures
        v@.to_set() == m@.dom(),
        v@.no_duplicates(),
{
    let mut v: Vec<usize> = Vec::new();
    for x in it: m.keys()
        invariant
            v@ == it.seq().take(it.index() as int).unref(),
    {
        v.push(*x);
    }
    proof {
        let r = spec_keys_iter(m).remaining();
        assert(v@ == r.unref());
        assert(r.unref().to_set() == m@.dom());
        assert(r.no_duplicates());
        assert forall|i: int, j: int| 0 <= i < j < v@.len() implies v@[i] != v@[j] by {
            assert(r[i] != r[j]);
        }
    }
    v
}

impl<N, E> Arena<N, E> {
    /// The record of the live node at position `i`.
    pub open spec fn record_of(&self, i: int) -> Record<N, E> {
        Record {
            value: self.node(i).value,
            incoming: self.node(i).incoming.map_values(
                |e: crate::edge::EdgeView<E>| (self.node(e.source).hash, e.value),
            ),
        }
    }

    /// The nodes whose content identity is not in `stop`.
    pub open spec fn outside(&self, stop: Set<RelRcHash>) -> spec_fn(int) -> bool {
        |i: int| !stop.contains(self.node(i).hash)
    }
}

impl<N: Clone, E: Clone> Arena<N, E> {
    /// Whether `d` is the node at position `node` detached from the nodes
    /// whose content identity is in `stop`: it has a record for the node and
    /// for every ancestor that can be reached from it without going through a
    /// node of `stop`, and for nothing else.
    pub open spec fn detached(&self, node: int, stop: Set<RelRcHash>, d: &Detached<N, E>) -> bool {
        &&& d.current() == self.node(node).hash
        &&& d.records().dom().finite()
        &&& forall|h: RelRcHash| #[trigger]
            d.records().contains_key(h) <==> exists|a: int|
                self.descends(node, a, self.outside(stop)) && (#[trigger] self.node(a)).hash == h
        &&& forall|h: RelRcHash| #[trigger]
            d.records().contains_key(h) ==> exists|a: int|
                self.descends(node, a, self.outside(stop)) && (#[trigger] self.node(a)).hash == h
                    && record_cloned(self.record_of(a), d.records()[h])
    }
}

impl<N: Clone, E: Clone> Detached<N, E> {
    /// Detaches the node from the nodes whose content identity is in
    /// `detach_from`: the nodes that will be there when it is attached again.
    pub fn new(arena: &Arena<N, E>, obj: &RelRc, detach_from: &Vec<RelRcHash>) -> (d: Self)
        requires
            arena.wf(),
            arena.is_live(obj@),
        ensures
            arena.detached(obj@, detach_from@.to_set(), &d),
    {
        let ghost stop = detach_from@.to_set();
        let mut stop_bits: BTreeSet<usize> = BTreeSet::new();
        let mut j: usize = 0;
        while j < detach_from.len()
            invariant
                j <= detach_from@.len(),
                forall|h: RelRcHash| #[trigger]
                    stop_bits@.contains(h.0) <==> detach_from@.take(j as int).contains(h),
            decreases detach_from@.len() - j,
        {
            stop_bits.insert(detach_from[j].0);
            proof {
                let t0 = detach_from@.take(j as int);
                let t1 = detach_from@.take(j + 1);
                assert forall|h: RelRcHash| #[trigger]
                    stop_bits@.contains(h.0) <==> t1.contains(h) by {
                    if t1.contains(h) {
                        let a = choose|a: int| 0 <= a < t1.len() && t1[a] == h;
                        if a < j {
                            assert(t0[a] == h);
                        }
                    }
                    if t0.contains(h) {
                        let a = choose|a: int| 0 <= a < t0.len() && t0[a] == h;
                        assert(t1[a] == h);
                    }
                    if h.0 == detach_from@[j as int].0 {
                        assert(h == detach_from@[j as int]);
                        assert(t1[j as int] == h);
                    }
                }
            }
            j += 1;
        }
        assert(detach_from@.take(detach_from@.len() as int) == detach_from@);
        let ghost p = |d: InnerData<N, E>| !stop.contains(d.hash);
        let test = |d: &InnerData<N, E>| -> (b: bool)
            ensures
                b == !stop_bits@.contains(d.hash.0),
            { !stop_bits.contains(&d.hash.0) };
        let mut starts: Vec<usize> = Vec::new();
        starts.push(obj.as_ptr());
        let found = arena.collect(&starts, test, Ghost(p));
        let ptrs = set_to_vec(&found);
        let ghost pass = arena.outside(stop);
        proof {
            assert(arena.holding(p) =~= pass);
            assert forall|a: usize| #[trigger] found@.contains(a) <==> arena.descends(
                obj@,
                a as int,
                pass,
            ) by {
                let origin = starts@.map_values(|s: usize| s as int);
                assert(origin[0] == obj@);
                if arena.descends(obj@, a as int, pass) {
                    assert(arena.descends(origin[0], a as int, pass));
                }
            }
        }
        proof {
            assert forall|j2: int| 0 <= j2 < ptrs@.len() implies arena.is_live(
                #[trigger] ptrs@[j2] as int,
            ) by {
                assert(ptrs@.contains(ptrs@[j2]));
                assert(ptrs@.to_set().contains(ptrs@[j2]));
                assert(found@.contains(ptrs@[j2]));
                arena.lemma_descends_live(obj@, ptrs@[j2] as int, pass);
            }
        }
        let mut all_data: BTreeMap<usize, DetachedInnerData<N, E>> = BTreeMap::new();
        let mut j: usize = 0;
        while j < ptrs.len()
            invariant
                j <= ptrs@.len(),
                arena.wf(),
                forall|j2: int| 0 <= j2 < ptrs@.len() ==> arena.is_live(#[trigger] ptrs@[j2] as int),
                forall|h: usize| #[trigger]
                    all_data@.contains_key(h) <==> exists|j2: int|
                        0 <= j2 < j && (#[trigger] arena.node(ptrs@[j2] as int)).hash.0 == h,
                forall|h: usize| #[trigger]
                    all_data@.contains_key(h) ==> exists|j2: int|
                        0 <= j2 < j && (#[trigger] arena.node(ptrs@[j2] as int)).hash.0 == h
                            && record_cloned(arena.record_of(ptrs@[j2] as int), all_data@[h]@),
            decreases ptrs@.len() - j,
        {
            let a = ptrs[j];
            let data = arena.slots[a].as_ref().unwrap();
            let mut incoming: Vec<(RelRcHash, E)> = Vec::new();
            let mut k: usize = 0;
            while k < data.incoming.len()
                invariant
                    arena.wf(),
                    arena.is_live(a as int),
                    data == arena.slots@[a as int].unwrap(),
                    k <= data.incoming@.len(),
                    incoming@.len() == k,
                    forall|k2: int|
                        0 <= k2 < k ==> (#[trigger] incoming@[k2]).0 == arena.record_of(
                            a as int,
                        ).incoming[k2].0 && cloned(
                            arena.record_of(a as int).incoming[k2].1,
                            incoming@[k2].1,
                        ),
                decreases data.incoming@.len() - k,
            {
                let e = &data.incoming[k];
                assert(arena.edge(a as int, k as int) == e@);
                let source_hash = arena.slots[e.source.ptr].as_ref().unwrap().hash;
                incoming.push((source_hash, e.value.clone()));
                k += 1;
            }
            let record = DetachedInnerData { value: data.value.clone(), incoming };
            let ghost before = all_data@;
            let h = data.hash.0;
            assert(record_cloned(arena.record_of(a as int), record@));
            all_data.insert(h, record);
            proof {
                assert forall|g: usize| #[trigger]
                    all_data@.contains_key(g) <==> exists|j2: int|
                        0 <= j2 < j + 1 && (#[trigger] arena.node(ptrs@[j2] as int)).hash.0 == g by {
                    if g == h {
                        assert(arena.node(ptrs@[j as int] as int).hash.0 == g);
                    }
                    if before.contains_key(g) {
                        let j2 = choose|j2: int|
                            0 <= j2 < j && (#[trigger] arena.node(ptrs@[j2] as int)).hash.0 == g;
                        assert(arena.node(ptrs@[j2] as int).hash.0 == g);
                    }
                }
                assert forall|g: usize| #[trigger] all_data@.contains_key(g) implies exists|j2: int|
                    0 <= j2 < j + 1 && (#[trigger] arena.node(ptrs@[j2] as int)).hash.0 == g
                        && record_cloned(arena.record_of(ptrs@[j2] as int), all_data@[g]@) by {
                    if g == h {
                        assert(arena.node(ptrs@[j as int] as int).hash.0 == g && record_cloned(
                            arena.record_of(ptrs@[j as int] as int),
                            all_data@[g]@,
                        ));
                    } else {
                        let j2 = choose|j2: int|
                            0 <= j2 < j && (#[trigger] arena.node(ptrs@[j2] as int)).hash.0 == g
                                && record_cloned(arena.record_of(ptrs@[j2] as int), before[g]@);
                        assert(arena.node(ptrs@[j2] as int).hash.0 == g && record_cloned(
                            arena.record_of(ptrs@[j2] as int),
                            all_data@[g]@,
                        ));
                    }
                }
            }
            j += 1;
        }
        let d = Detached { current: arena.get(obj).hash_id(), all_data };
        proof {
            lemma_records_len(d.all_data@, d.records());
            assert forall|h: RelRcHash| #[trigger] d.records().contains_key(h) <==> exists|a: int|
                arena.descends(obj@, a, pass) && (#[trigger] arena.node(a)).hash == h by {
                if d.records().contains_key(h) {
                    let j2 = choose|j2: int|
                        0 <= j2 < ptrs@.len() && (#[trigger] arena.node(ptrs@[j2] as int)).hash.0
                            == h.0;
                    assert(ptrs@.contains(ptrs@[j2]));
                    assert(ptrs@.to_set().contains(ptrs@[j2]));
                    assert(found@.contains(ptrs@[j2]));
                    assert(arena.node(ptrs@[j2] as int).hash == h);
                }
                if exists|a: int|
                    arena.descends(obj@, a, pass) && (#[trigger] arena.node(a)).hash == h {
                    let a = choose|a: int|
                        arena.descends(obj@, a, pass) && (#[trigger] arena.node(a)).hash == h;
                    arena.lemma_descends_live(obj@, a, pass);
                    assert(found@.contains(a as usize));
                    assert(ptrs@.to_set().contains(a as usize));
                    assert(ptrs@.contains(a as usize));
                    let j2 = choose|j2: int| 0 <= j2 < ptrs@.len() && ptrs@[j2] == a as usize;
                    assert(arena.node(ptrs@[j2] as int).hash.0 == h.0);
                }
            }
            assert forall|h: RelRcHash| #[trigger] d.records().contains_key(h) implies exists|a: int|
                arena.descends(obj@, a, pass) && (#[trigger] arena.node(a)).hash == h
                    && record_cloned(arena.record_of(a), d.records()[h]) by {
                let j2 = choose|j2: int|
                    0 <= j2 < ptrs@.len() && (#[trigger] arena.node(ptrs@[j2] as int)).hash.0 == h.0
                        && record_cloned(arena.record_of(ptrs@[j2] as int), d.all_data@[h.0]@);
                assert(ptrs@.contains(ptrs@[j2]));
                assert(ptrs@.to_set().contains(ptrs@[j2]));
                assert(found@.contains(ptrs@[j2]));
                let a = ptrs@[j2] as int;
                assert(arena.descends(obj@, a, pass) && arena.node(a).hash == h && record_cloned(
                    arena.record_of(a),
                    d.records()[h],
                ));
            }
        }
        d
    }
}

impl RelRc {
    /// Detaches the node from the nodes whose content identity is in
    /// `detach_from`: the nodes that will be there when it is attached again.
    ///
    /// The result holds the node and every ancestor that can be reached from
    /// it without going through a node of `detach_from`.
    pub fn detach<N: Clone, E: Clone>(&self, arena: &Arena<N, E>, detach_from: &Vec<RelRcHash>) -> (d:
        Detached<N, E>)
        requires
            arena.wf(),
            arena.is_live(self@),
        ensures
            arena.detached(self@, detach_from@.to_set(), &d),
    {
        Detached::new(arena, self, detach_from)
    }
}

impl<N, E> Detached<N, E> {
    /// Whether `rank` puts every record above the records of its parents.
    pub open spec fn ranked(&self, rank: spec_fn(RelRcHash) -> nat) -> bool {
        forall|h: RelRcHash, k: int|
            self.records().contains_key(h) && 0 <= k < self.records()[h].incoming.len()
                && self.records().contains_key(#[trigger] self.records()[h].incoming[k].0)
                ==> rank(self.records()[h].incoming[k].0) < rank(h)
    }

    /// Whether no record is its own ancestor.
    pub open spec fn well_founded(&self) -> bool {
        exists|rank: spec_fn(RelRcHash) -> nat| self.ranked(rank)
    }

    /// Whether `rank` puts every record among `part` above the records of
    /// its parents that are not known, which are among `part` too.
    pub open spec fn ranked_on(
        &self,
        rank: spec_fn(RelRcHash) -> nat,
        part: Set<RelRcHash>,
        known: Set<RelRcHash>,
    ) -> bool {
        forall|h: RelRcHash, k: int|
            part.contains(h) && self.records().contains_key(h) && 0 <= k
                < self.records()[h].incoming.len() && self.records().contains_key(
                #[trigger] self.records()[h].incoming[k].0,
            ) && !known.contains(self.records()[h].incoming[k].0) ==> part.contains(
                self.records()[h].incoming[k].0,
            ) && rank(self.records()[h].incoming[k].0) < rank(h)
    }

    /// Whether going from the node to the parents that have a record and are
    /// not known, and so on, never comes back to where it has been: no
    /// record that is needed for the node is its own ancestor.
    pub open spec fn grounded(&self, known: Set<RelRcHash>) -> bool {
        exists|rank: spec_fn(RelRcHash) -> nat, part: Set<RelRcHash>|
            part.contains(self.current()) && #[trigger] self.ranked_on(rank, part, known)
    }

    /// Whether the node can be attached to nodes with the content identities
    /// `known`: the node itself is known; or every content identity that is
    /// required is known, the node has a record, and no record that is needed
    /// for it is its own ancestor.
    pub open spec fn attachable(&self, known: Set<RelRcHash>) -> bool {
        known.contains(self.current()) || (self.attaches_to_spec(known)
            && self.records().contains_key(self.current()) && self.grounded(known))
    }

    /// Records of which none is its own ancestor are grounded, whatever is
    /// known.
    pub proof fn lemma_well_founded_grounded(&self, known: Set<RelRcHash>)
        requires
            self.well_founded(),
        ensures
            self.grounded(known),
    {
        let rank = choose|rank: spec_fn(RelRcHash) -> nat| self.ranked(rank);
        assert(self.ranked_on(rank, Set::full(), known));
    }
}

/// The map from content identities to positions that a map from their bits
/// stands for.
pub open spec fn lift(known: Map<usize, usize>) -> Map<RelRcHash, int> {
    Map::new(|h: RelRcHash| known.contains_key(h.0), |h: RelRcHash| known[h.0] as int)
}

impl<N, E> Arena<N, E> {
    /// The map from the content identities of the nodes at the given positions
    /// to the positions. Where two of the nodes have the same content
    /// identity, the later one is taken.
    pub open spec fn hash_index(&self, ptrs: Seq<int>) -> Map<RelRcHash, int>
        decreases ptrs.len(),
    {
        if ptrs.len() == 0 {
            Map::empty()
        } else {
            self.hash_index(ptrs.drop_last()).insert(self.node(ptrs.last()).hash, ptrs.last())
        }
    }

    /// The index of some nodes holds the content identities of the nodes, and
    /// gives for each a node that has it.
    pub proof fn lemma_hash_index(&self, ptrs: Seq<int>)
        ensures
            self.hash_index(ptrs).dom() =~= self.hashes_of(ptrs),
            forall|h: RelRcHash| #[trigger]
                self.hash_index(ptrs).contains_key(h) ==> exists|j: int|
                    0 <= j < ptrs.len() && #[trigger] ptrs[j] == self.hash_index(ptrs)[h]
                        && self.node(ptrs[j]).hash == h,
        decreases ptrs.len(),
    {
        if ptrs.len() > 0 {
            let rest = ptrs.drop_last();
            self.lemma_hash_index(rest);
            assert forall|h: RelRcHash| self.hash_index(ptrs).dom().contains(h)
                <==> self.hashes_of(ptrs).contains(h) by {
                if self.hashes_of(ptrs).contains(h) {
                    let j = choose|j: int|
                        0 <= j < ptrs.len() && self.node(#[trigger] ptrs[j]).hash == h;
                    if j < rest.len() {
                        assert(self.node(rest[j]).hash == h);
                        assert(self.hashes_of(rest).contains(h));
                    }
                }
                if self.hash_index(rest).dom().contains(h) {
                    assert(self.hashes_of(rest).contains(h));
                    let j = choose|j: int|
                        0 <= j < rest.len() && self.node(#[trigger] rest[j]).hash == h;
                    assert(self.node(ptrs[j]).hash == h);
                }
                if h == self.node(ptrs.last()).hash {
                    assert(self.node(ptrs[ptrs.len() - 1]).hash == h);
                }
            }
            assert forall|h: RelRcHash| #[trigger]
                self.hash_index(ptrs).contains_key(h) implies exists|j: int|
                0 <= j < ptrs.len() && #[trigger] ptrs[j] == self.hash_index(ptrs)[h] && self.node(
                    ptrs[j],
                ).hash == h by {
                if h == self.node(ptrs.last()).hash {
                    assert(ptrs[ptrs.len() - 1] == self.hash_index(ptrs)[h]);
                } else {
                    assert(self.hash_index(rest).contains_key(h));
                    let j = choose|j: int|
                        0 <= j < rest.len() && #[trigger] rest[j] == self.hash_index(rest)[h]
                            && self.node(rest[j]).hash == h;
                    assert(ptrs[j] == self.hash_index(ptrs)[h]);
                }
            }
        }
    }

    /// Whether the node at position `i` is what the records give for the
    /// content identity `h`: the known node with that content identity, if
    /// there is one, and else a node with the value and the edge values of the
    /// record of `h`, whose parents are what the records give for the sources
    /// that the record names.
    pub open spec fn realizes(
        &self,
        records: Map<RelRcHash, Record<N, E>>,
        known: Map<RelRcHash, int>,
        h: RelRcHash,
        i: int,
    ) -> bool
        decreases i,
    {
        if known.contains_key(h) {
            i == known[h]
        } else {
            &&& records.contains_key(h)
            &&& self.is_live(i)
            &&& self.node(i).value == records[h].value
            &&& self.node(i).incoming.len() == records[h].incoming.len()
            &&& forall|k: int|
                0 <= k < self.node(i).incoming.len() ==> {
                    &&& (#[trigger] self.edge(i, k)).value == records[h].incoming[k].1
                    &&& 0 <= self.edge(i, k).source < i
                    &&& self.realizes(records, known, records[h].incoming[k].0, self.edge(i, k).source)
                }
        }
    }

    /// `after` is this arena with more nodes: the nodes that were there have
    /// not changed, but that they may have learnt of new outgoing edges.
    pub open spec fn extends(&self, after: &Self) -> bool {
        &&& self.len() <= after.len()
        &&& after.same_tables(self)
        &&& forall|i: int| 0 <= i < self.len() ==> after.is_live(i) == self.is_live(i)
        &&& forall|i: int|
            self.is_live(i) ==> #[trigger] after.node(i) == (crate::node::NodeView {
                outgoing: after.node(i).outgoing,
                ..self.node(i)
            }) && self.node(i).outgoing.is_prefix_of(after.node(i).outgoing)
        &&& forall|i: int|
            self.len() <= i < after.len() ==> after.is_live(i) && (#[trigger] after.node(
                i,
            )).registry is None
    }

    /// An arena extends itself.
    pub proof fn lemma_extends_refl(&self)
        ensures
            self.extends(self),
    {
    }

    /// Extending twice is extending.
    pub proof fn lemma_extends_trans(&self, mid: &Self, after: &Self)
        requires
            self.extends(mid),
            mid.extends(after),
        ensures
            self.extends(after),
    {
        assert forall|i: int| self.is_live(i) implies #[trigger] after.node(i) == (
        crate::node::NodeView {
            outgoing: after.node(i).outgoing,
            ..self.node(i)
        }) && self.node(i).outgoing.is_prefix_of(after.node(i).outgoing) by {
            assert(mid.is_live(i));
            let x = mid.node(i);
            let y = after.node(i);
        }
        assert forall|i: int| self.len() <= i < after.len() implies after.is_live(i) && (
        #[trigger] after.node(i)).registry is None by {
            if i < mid.len() {
                let x = mid.node(i);
            }
        }
    }

    /// Creating a node extends the arena.
    pub proof fn lemma_created_extends(
        &self,
        after: &Self,
        n: int,
        value: N,
        parents: Seq<int>,
        edges: Seq<E>,
    )
        requires
            self.created(after, n, value, parents, edges),
        ensures
            self.extends(after),
    {
        assert forall|i: int| self.is_live(i) implies #[trigger] after.node(i) == (
        crate::node::NodeView {
            outgoing: after.node(i).outgoing,
            ..self.node(i)
        }) && self.node(i).outgoing.is_prefix_of(after.node(i).outgoing) by {
            let x = after.node(i);
        }
    }

    /// What realizes a content identity still does after the arena has been
    /// extended.
    pub proof fn lemma_realizes_kept(
        &self,
        after: &Self,
        records: Map<RelRcHash, Record<N, E>>,
        known: Map<RelRcHash, int>,
        h: RelRcHash,
        i: int,
    )
        requires
            self.extends(after),
            self.realizes(records, known, h, i),
        ensures
            after.realizes(records, known, h, i),
        decreases i,
    {
        if !known.contains_key(h) {
            let x = after.node(i);
            assert forall|k: int| 0 <= k < after.node(i).incoming.len() implies {
                &&& (#[trigger] after.edge(i, k)).value == records[h].incoming[k].1
                &&& 0 <= after.edge(i, k).source < i
                &&& after.realizes(records, known, records[h].incoming[k].0, after.edge(i, k).source)
            } by {
                assert(self.edge(i, k) == after.edge(i, k));
                self.lemma_realizes_kept(
                    after,
                    records,
                    known,
                    records[h].incoming[k].0,
                    self.edge(i, k).source,
                );
            }
        }
    }

    /// A node that has a live child still has one after the arena has been
    /// extended.
    pub proof fn lemma_child_kept(&self, after: &Self, i: int)
        requires
            self.extends(after),
            self.outgoing_wf(),
            self.is_live(i),
            self.has_live_child(i),
        ensures
            after.has_live_child(i),
    {
        let j = choose|j: int|
            0 <= j < self.node(i).outgoing.len() && self.is_live((#[trigger] self.out(i, j)).0);
        let x = after.node(i);
        assert(after.out(i, j) == self.out(i, j));
        assert(after.is_live(after.out(i, j).0));
    }

    /// Giving back a handle on a node that has a live child destroys nothing.
    pub proof fn lemma_release_keeps_all(&self, after: &Self, i: int, handles: nat, j: int)
        requires
            self.wf(),
            after.wf(),
            self.shrunk(after, i, handles),
            self.is_live(i),
            self.has_live_child(i),
            self.is_live(j),
        ensures
            after.is_live(j),
        decreases self.len() - j,
    {
        if !after.is_live(j) {
            assert(self.justified(j));
            let w = choose|w: int|
                0 <= w < self.node(j).outgoing.len() && self.is_live((#[trigger] self.out(j, w)).0);
            let c = self.out(j, w).0;
            let k = self.out(j, w).1;
            self.lemma_release_keeps_all(after, i, handles, c);
            let x = after.node(c);
            assert(self.edge(c, k).source == j);
            assert(after.edge(c, k) == self.edge(c, k));
        }
    }
}

/// Whether the node at position `source` is what stands for the content
/// identity `p`: the known node with that content identity, if there is one,
/// and else the node that was made for it.
pub open spec fn stands_for(
    known: Map<RelRcHash, int>,
    built: Map<RelRcHash, int>,
    p: RelRcHash,
    source: int,
) -> bool {
    if known.contains_key(p) {
        source == known[p]
    } else {
        built.contains_key(p) && source == built[p]
    }
}

/// Whether `built` names the node at position `i` as the node that was made
/// for the content identity `h`.
pub open spec fn made_at(built: Map<RelRcHash, int>, h: RelRcHash, i: int) -> bool {
    built.contains_key(h) && built[h] == i
}

impl<N, E> Arena<N, E> {
    /// Whether the node that `built` names for the content identity `h` is
    /// made from the record of `h`: it has the value and the edge values of
    /// the record, and its parents are what stands for the sources that the
    /// record names.
    pub open spec fn made_from(
        &self,
        records: Map<RelRcHash, Record<N, E>>,
        known: Map<RelRcHash, int>,
        built: Map<RelRcHash, int>,
        h: RelRcHash,
    ) -> bool {
        &&& records.contains_key(h)
        &&& !known.contains_key(h)
        &&& self.is_live(built[h])
        &&& self.node(built[h]).value == records[h].value
        &&& self.node(built[h]).incoming.len() == records[h].incoming.len()
        &&& forall|k: int|
            0 <= k < self.node(built[h]).incoming.len() ==> (#[trigger] self.edge(
                built[h],
                k,
            )).value == records[h].incoming[k].1 && stands_for(
                known,
                built,
                records[h].incoming[k].0,
                self.edge(built[h], k).source,
            )
    }

    /// Whether the nodes from position `first` on are the nodes that were made
    /// from the records, one for each content identity in `built`: each is
    /// made from the record of its content identity, and no two content
    /// identities share a node.
    pub open spec fn assembles(
        &self,
        first: int,
        records: Map<RelRcHash, Record<N, E>>,
        known: Map<RelRcHash, int>,
        built: Map<RelRcHash, int>,
    ) -> bool {
        &&& forall|h: RelRcHash| #[trigger]
            built.contains_key(h) ==> first <= built[h] < self.len() && self.made_from(
                records,
                known,
                built,
                h,
            )
        &&& forall|h1: RelRcHash, h2: RelRcHash|
            built.contains_key(h1) && built.contains_key(h2) && built[h1] == built[h2] ==> h1 == h2
        &&& forall|i: int| #[trigger]
            self.made_since(first, i) ==> exists|h: RelRcHash| #[trigger] made_at(built, h, i)
    }

    /// Whether the node at position `i` was made at position `first` or after.
    pub open spec fn made_since(&self, first: int, i: int) -> bool {
        first <= i < self.len()
    }

    /// What was assembled stays assembled as long as the nodes keep their
    /// values and their incoming edges, and no node is made.
    pub proof fn lemma_assembles_shape(
        &self,
        after: &Self,
        first: int,
        records: Map<RelRcHash, Record<N, E>>,
        known: Map<RelRcHash, int>,
        built: Map<RelRcHash, int>,
    )
        requires
            self.assembles(first, records, known, built),
            self.keeps_shape(after),
            after.len() == self.len(),
        ensures
            after.assembles(first, records, known, built),
    {
        assert forall|h: RelRcHash| #[trigger] built.contains_key(h) implies first <= built[h]
            < after.len() && after.made_from(records, known, built, h) by {
            assert(self.made_from(records, known, built, h));
            let x = after.node(built[h]);
            assert forall|k: int| 0 <= k < after.node(built[h]).incoming.len() implies (
            #[trigger] after.edge(built[h], k)).value == records[h].incoming[k].1 && stands_for(
                known,
                built,
                records[h].incoming[k].0,
                after.edge(built[h], k).source,
            ) by {
                assert(self.edge(built[h], k) == after.edge(built[h], k));
            }
        }
        assert forall|i: int| #[trigger] after.made_since(first, i) implies exists|h: RelRcHash| #[trigger]
            made_at(built, h, i) by {
            assert(self.made_since(first, i));
        }
    }
}

/// The state of an attachment in progress: `arena` is `start` with the nodes
/// that have been made so far, each with one strong handle; `data` holds the
/// records that have not been used yet; `built` gives the node that was made
/// for each record that has been used and is complete.
pub open spec fn building<N, E>(
    start: &Arena<N, E>,
    arena: &Arena<N, E>,
    records: Map<RelRcHash, Record<N, E>>,
    known: Map<usize, usize>,
    data: Map<usize, DetachedInnerData<N, E>>,
    built: Map<usize, usize>,
) -> bool {
    &&& arena.wf()
    &&& start.extends(arena)
    &&& arena.assembles(start.len() as int, records, lift(known), lift(built))
    &&& forall|i: int| start.len() <= i < arena.len() ==> (#[trigger] arena.node(i)).handles == 1
    &&& forall|h: usize| #[trigger]
        known.contains_key(h) ==> known[h] < start.len() && start.is_live(known[h] as int)
    &&& forall|h: usize| #[trigger]
        data.contains_key(h) ==> records.contains_key(RelRcHash(h)) && data[h]@
            == records[RelRcHash(h)]
    &&& forall|h: usize| #[trigger]
        built.contains_key(h) ==> {
            &&& records.contains_key(RelRcHash(h))
            &&& !data.contains_key(h)
            &&& !known.contains_key(h)
            &&& start.len() <= built[h] < arena.len()
            &&& arena.realizes(records, lift(known), RelRcHash(h), built[h] as int)
        }
}

/// Whether the record of `h` is in use: it has been taken out of the data and
/// its node has not been made yet.
pub open spec fn in_progress<N, E>(
    records: Map<RelRcHash, Record<N, E>>,
    data: Map<usize, DetachedInnerData<N, E>>,
    built: Map<usize, usize>,
    h: RelRcHash,
) -> bool {
    records.contains_key(h) && !data.contains_key(h.0) && !built.contains_key(h.0)
}

/// Makes the node for the content identity `h`, and before it the nodes for
/// its ancestors that are neither known nor made yet, and returns its
/// position.
pub(crate) fn build<N: std::hash::Hash, E: std::hash::Hash>(
    arena: &mut Arena<N, E>,
    data: &mut BTreeMap<usize, DetachedInnerData<N, E>>,
    known: &BTreeMap<usize, usize>,
    built: &mut BTreeMap<usize, usize>,
    h: RelRcHash,
    Ghost(start): Ghost<Arena<N, E>>,
    Ghost(records): Ghost<Map<RelRcHash, Record<N, E>>>,
    Ghost(rank): Ghost<spec_fn(RelRcHash) -> nat>,
    Ghost(part): Ghost<Set<RelRcHash>>,
) -> (ptr: usize)
    requires
        building(&start, old(arena), records, known@, old(data)@, old(built)@),
        forall|g: RelRcHash, k: int|
            part.contains(g) && records.contains_key(g) && 0 <= k < records[g].incoming.len() ==> {
                ||| known@.contains_key((#[trigger] records[g].incoming[k]).0.0)
                ||| records.contains_key(records[g].incoming[k].0) && part.contains(
                    records[g].incoming[k].0,
                ) && rank(records[g].incoming[k].0) < rank(g)
            },
        !known@.contains_key(h.0),
        records.contains_key(h),
        part.contains(h),
        forall|q: RelRcHash|
            in_progress(records, old(data)@, old(built)@, q) ==> rank(q) > rank(h),
    ensures
        building(&start, final(arena), records, known@, final(data)@, final(built)@),
        old(arena).extends(final(arena)),
        final(arena).realizes(records, lift(known@), h, ptr as int),
        ptr < final(arena).len(),
        final(arena).is_live(ptr as int),
        final(built)@.contains_key(h.0) && final(built)@[h.0] == ptr,
        forall|q: RelRcHash|
            in_progress(records, final(data)@, final(built)@, q) <==> in_progress(
                records,
                old(data)@,
                old(built)@,
                q,
            ),
        forall|g: usize| #[trigger]
            old(built)@.contains_key(g) ==> final(built)@.contains_key(g) && final(built)@[g] == old(
                built,
            )@[g],
        forall|i: int|
            old(arena).len() <= i < final(arena).len() && i != ptr ==> final(arena).has_live_child(i),
    decreases rank(h),
{
    match built.get(&h.0) {
        Some(p) => {
            proof {
                arena.lemma_extends_refl();
            }
            return *p;
        },
        None => {},
    }
    assert(!lift(known@).contains_key(h));
    assert(data@.contains_key(h.0)) by {
        if !data@.contains_key(h.0) {
            assert(in_progress(records, data@, built@, h));
        }
    }
    let ghost data0 = data@;
    let ghost built0 = built@;
    let ghost arena0 = *arena;
    let rec = data.remove(&h.0).unwrap();
    assert(rec@ == records[h]);
    let DetachedInnerData { value, incoming } = rec;
    let ghost edges = incoming@;
    let mut prs: Vec<RelRc> = Vec::new();
    let mut es: Vec<E> = Vec::new();
    proof {
        arena.lemma_extends_refl();
        assert forall|q: RelRcHash| in_progress(records, data@, built@, q) <==> in_progress(
            records,
            data0,
            built0,
            q,
        ) || q == h by {
            if q.0 == h.0 {
                assert(q == h);
            }
        }
    }
    for pe in it: incoming
        invariant
            it.seq() == edges,
            edges == records[h].incoming,
            records.contains_key(h),
            !known@.contains_key(h.0),
            building(&start, arena, records, known@, data@, built@),
            arena0.extends(arena),
            arena0.wf(),
            part.contains(h),
            forall|g: RelRcHash, k: int|
                part.contains(g) && records.contains_key(g) && 0 <= k
                    < records[g].incoming.len() ==> {
                    ||| known@.contains_key((#[trigger] records[g].incoming[k]).0.0)
                    ||| records.contains_key(records[g].incoming[k].0) && part.contains(
                        records[g].incoming[k].0,
                    ) && rank(records[g].incoming[k].0) < rank(g)
                },
            forall|q: RelRcHash|
                in_progress(records, data@, built@, q) <==> in_progress(records, data0, built0, q)
                    || q == h,
            forall|q: RelRcHash| in_progress(records, data0, built0, q) ==> rank(q) > rank(h),
            in_progress(records, data@, built@, h),
            forall|g: usize| #[trigger]
                built0.contains_key(g) ==> built@.contains_key(g) && built@[g] == built0[g],
            prs@.len() == it.index(),
            es@.len() == it.index(),
            forall|k: int|
                0 <= k < it.index() ==> {
                    &&& (#[trigger] prs@[k])@ < arena.len()
                    &&& arena.is_live(prs@[k]@)
                    &&& arena.realizes(records, lift(known@), edges[k].0, prs@[k]@)
                    &&& stands_for(lift(known@), lift(built@), edges[k].0, prs@[k]@)
                    &&& es@[k] == edges[k].1
                },
            forall|i: int|
                arena0.len() <= i < arena.len() ==> arena.has_live_child(i) || exists|k: int|
                    0 <= k < it.index() && (#[trigger] prs@[k])@ == i,
    {
        let (p, e) = pe;
        let ghost k0 = it.index() as int;
        let ghost prev = *arena;
        let ghost prs0 = prs@;
        assert(edges[k0] == (p, e));
        assert(records[h].incoming[k0].0 == p);
        let pp = match known.get(&p.0) {
            Some(x) => {
                proof {
                    arena.lemma_extends_refl();
                    assert(lift(known@).contains_key(p));
                }
                *x
            },
            None => {
                proof {
                    assert(rank(p) < rank(h));
                    assert forall|q: RelRcHash|
                        in_progress(records, data@, built@, q) implies rank(q) > rank(p) by {
                        assert(in_progress(records, data0, built0, q) || q == h);
                    }
                }
                build(
                    arena,
                    data,
                    known,
                    built,
                    p,
                    Ghost(start),
                    Ghost(records),
                    Ghost(rank),
                    Ghost(part),
                )
            },
        };
        proof {
            arena0.lemma_extends_trans(&prev, arena);
            assert forall|k: int| 0 <= k < prs0.len() implies {
                &&& (#[trigger] prs0[k])@ < arena.len()
                &&& arena.is_live(prs0[k]@)
                &&& arena.realizes(records, lift(known@), edges[k].0, prs0[k]@)
            } by {
                prev.lemma_realizes_kept(arena, records, lift(known@), edges[k].0, prs0[k]@);
            }
            assert forall|i: int| arena0.len() <= i < arena.len() implies arena.has_live_child(i)
                || i == pp || exists|k: int| 0 <= k < prs0.len() && (#[trigger] prs0[k])@ == i by {
                if i < prev.len() {
                    if prev.has_live_child(i) {
                        prev.lemma_child_kept(arena, i);
                    }
                }
            }
        }
        prs.push(RelRc { ptr: pp });
        es.push(e);
        proof {
            assert forall|i: int| arena0.len() <= i < arena.len() implies arena.has_live_child(i)
                || exists|k: int| 0 <= k < prs@.len() && (#[trigger] prs@[k])@ == i by {
                if i == pp {
                    assert(prs@[prs0.len() as int]@ == i);
                } else if !arena.has_live_child(i) {
                    let k = choose|k: int| 0 <= k < prs0.len() && (#[trigger] prs0[k])@ == i;
                    assert(prs@[k]@ == i);
                }
            }
        }
    }
    let ghost mid = *arena;
    let ghost built1 = built@;
    let mut parents: Vec<(&RelRc, E)> = Vec::new();
    for e in it: es
        invariant
            it.seq().len() == prs@.len(),
            parents@.len() == it.index(),
            forall|k2: int|
                0 <= k2 < it.index() ==> (#[trigger] parents@[k2]).0@ == prs@[k2]@
                    && parents@[k2].1 == it.seq()[k2],
    {
        let k = parents.len();
        parents.push((&prs[k], e));
    }
    let ghost ps = parents@.map_values(|pe: (&RelRc, E)| pe.0@);
    let ghost vs = parents@.map_values(|pe: (&RelRc, E)| pe.1);
    let node = RelRc::with_parents(arena, value, parents);
    let n = node.as_ptr();
    built.insert(h.0, n);
    proof {
        mid.lemma_created_extends(arena, n as int, value, ps, vs);
        arena0.lemma_extends_trans(&mid, arena);
        start.lemma_extends_trans(&mid, arena);
        // The new node is what the records give for `h`.
        assert(arena.realizes(records, lift(known@), h, n as int)) by {
            assert forall|k: int| 0 <= k < arena.node(n as int).incoming.len() implies {
                &&& (#[trigger] arena.edge(n as int, k)).value == records[h].incoming[k].1
                &&& 0 <= arena.edge(n as int, k).source < n
                &&& arena.realizes(
                    records,
                    lift(known@),
                    records[h].incoming[k].0,
                    arena.edge(n as int, k).source,
                )
            } by {
                assert(ps[k] == prs@[k]@);
                mid.lemma_realizes_kept(arena, records, lift(known@), edges[k].0, prs@[k]@);
            }
        }
        assert forall|g: usize| #[trigger] built@.contains_key(g) implies {
            &&& records.contains_key(RelRcHash(g))
            &&& !data@.contains_key(g)
            &&& !known@.contains_key(g)
            &&& start.len() <= built@[g] < arena.len()
            &&& arena.realizes(records, lift(known@), RelRcHash(g), built@[g] as int)
        } by {
            assert(in_progress(records, data@, built1, h));
            if g != h.0 {
                assert(built1.contains_key(g));
                mid.lemma_realizes_kept(
                    arena,
                    records,
                    lift(known@),
                    RelRcHash(g),
                    built@[g] as int,
                );
            } else {
                assert(RelRcHash(g) == h);
            }
        }
        assert forall|i: int| start.len() <= i < arena.len() implies (#[trigger] arena.node(
            i,
        )).handles == 1 by {
            if i < mid.len() {
                let x = mid.node(i);
            }
        }
        assert(arena.assembles(start.len() as int, records, lift(known@), lift(built@))) by {
            let kn = lift(known@);
            let b1 = lift(built1);
            let b = lift(built@);
            assert(mid.assembles(start.len() as int, records, kn, b1));
            assert(!b1.contains_key(h));
            assert forall|g: RelRcHash| #[trigger] b.contains_key(g) implies start.len() <= b[g]
                < arena.len() && arena.made_from(records, kn, b, g) by {
                if g.0 == h.0 {
                    assert(g == h);
                    assert forall|k: int| 0 <= k < arena.node(b[g]).incoming.len() implies (
                    #[trigger] arena.edge(b[g], k)).value == records[g].incoming[k].1 && stands_for(
                        kn,
                        b,
                        records[g].incoming[k].0,
                        arena.edge(b[g], k).source,
                    ) by {
                        assert(ps[k] == prs@[k]@);
                        assert(stands_for(kn, b1, edges[k].0, prs@[k]@));
                    }
                } else {
                    assert(b1.contains_key(g));
                    assert(mid.made_from(records, kn, b1, g));
                    let x = arena.node(b1[g]);
                    assert forall|k: int| 0 <= k < arena.node(b[g]).incoming.len() implies (
                    #[trigger] arena.edge(b[g], k)).value == records[g].incoming[k].1 && stands_for(
                        kn,
                        b,
                        records[g].incoming[k].0,
                        arena.edge(b[g], k).source,
                    ) by {
                        assert(mid.edge(b1[g], k) == arena.edge(b[g], k));
                        assert(stands_for(
                            kn,
                            b1,
                            records[g].incoming[k].0,
                            mid.edge(b1[g], k).source,
                        ));
                    }
                }
            }
            assert forall|h1: RelRcHash, h2: RelRcHash|
                b.contains_key(h1) && b.contains_key(h2) && b[h1] == b[h2] implies h1 == h2 by {
                if h1.0 == h.0 {
                    assert(h1 == h);
                }
                if h2.0 == h.0 {
                    assert(h2 == h);
                }
                if h1 != h {
                    assert(b1.contains_key(h1));
                }
                if h2 != h {
                    assert(b1.contains_key(h2));
                }
            }
            assert forall|i: int| #[trigger] arena.made_since(start.len() as int, i) implies exists|
                g: RelRcHash,
            | #[trigger] made_at(b, g, i) by {
                if i == n {
                    assert(made_at(b, h, i));
                } else {
                    assert(mid.made_since(start.len() as int, i));
                    let g = choose|g: RelRcHash| #[trigger] made_at(b1, g, i);
                    assert(made_at(b, g, i));
                }
            }
        }
        assert forall|q: RelRcHash| in_progress(records, data@, built@, q) <==> in_progress(
            records,
            data0,
            built0,
            q,
        ) by {
            if q.0 == h.0 {
                assert(q == h);
            }
        }
        assert forall|i: int| arena0.len() <= i < arena.len() && i != n implies arena.has_live_child(
            i,
        ) by {
            if mid.has_live_child(i) {
                mid.lemma_child_kept(arena, i);
            } else {
                let k = choose|k: int| 0 <= k < prs@.len() && (#[trigger] prs@[k])@ == i;
                assert(ps[k] == i);
                crate::node::lemma_backrefs_complete(ps, i, n as int, k);
                let tail = crate::node::backrefs(ps, i, n as int);
                let j = choose|j: int| 0 <= j < tail.len() && tail[j] == (n as int, k);
                let x = arena.node(i);
                assert(arena.out(i, mid.node(i).outgoing.len() + j) == (n as int, k));
            }
        }
    }
    n
}

impl<N, E> Arena<N, E> {
    /// Whether every node of this arena is alive in `after`, with the same
    /// value and the same incoming edges.
    pub open spec fn keeps_shape(&self, after: &Self) -> bool {
        forall|i: int|
            self.is_live(i) ==> after.is_live(i) && (#[trigger] after.node(i)).value == self.node(
                i,
            ).value && after.node(i).incoming == self.node(i).incoming
    }

    /// What realizes a content identity still does as long as the nodes keep
    /// their values and their incoming edges.
    pub proof fn lemma_realizes_shape(
        &self,
        after: &Self,
        records: Map<RelRcHash, Record<N, E>>,
        known: Map<RelRcHash, int>,
        h: RelRcHash,
        i: int,
    )
        requires
            self.keeps_shape(after),
            self.realizes(records, known, h, i),
        ensures
            after.realizes(records, known, h, i),
        decreases i,
    {
        if !known.contains_key(h) {
            let x = after.node(i);
            assert forall|k: int| 0 <= k < after.node(i).incoming.len() implies {
                &&& (#[trigger] after.edge(i, k)).value == records[h].incoming[k].1
                &&& 0 <= after.edge(i, k).source < i
                &&& after.realizes(records, known, records[h].incoming[k].0, after.edge(i, k).source)
            } by {
                assert(self.edge(i, k) == after.edge(i, k));
                self.lemma_realizes_shape(
                    after,
                    records,
                    known,
                    records[h].incoming[k].0,
                    self.edge(i, k).source,
                );
            }
        }
    }

    /// `after` is this arena with the nodes that attaching a node has made:
    /// the nodes that were there have not changed, but that they may have
    /// learnt of new outgoing edges; the new nodes are alive, and there is one
    /// strong handle, on the node at position `top`.
    pub open spec fn attached(&self, after: &Self, top: int) -> bool {
        &&& self.len() <= top < after.len()
        &&& after.n_registries() == self.n_registries()
        &&& forall|r: int|
            0 <= r < self.n_registries() ==> #[trigger] after.registry_map(r) == self.registry_map(r)
        &&& forall|i: int| 0 <= i < self.len() ==> after.is_live(i) == self.is_live(i)
        &&& forall|i: int|
            self.is_live(i) ==> #[trigger] after.node(i) == (crate::node::NodeView {
                outgoing: after.node(i).outgoing,
                ..self.node(i)
            }) && self.node(i).outgoing.is_prefix_of(after.node(i).outgoing)
        &&& forall|i: int|
            self.len() <= i < after.len() ==> after.is_live(i) && (#[trigger] after.node(
                i,
            )).registry is None && after.node(i).handles == (if i == top {
                1nat
            } else {
                0nat
            })
    }
}

impl RelRc {
    /// Attaches a detached node to the given nodes and returns the strong
    /// handle on it.
    ///
    /// If one of the given nodes has the content identity of the detached
    /// node, a handle on that node is returned and no node is made. Otherwise
    /// a node is made for the detached node and for each of its detached
    /// ancestors that it needs and that is not among the given nodes, parents
    /// before children.
    ///
    /// Unless the detached node is one of the given nodes, it must attach to
    /// them, see [`Detached::attaches_to`], it must have a record, and no
    /// record that is needed for it may be its own ancestor, see
    /// [`Detached::can_attach`].
    pub fn attach<N: std::hash::Hash, E: std::hash::Hash>(
        arena: &mut Arena<N, E>,
        detached: Detached<N, E>,
        attach_to: &Vec<RelRc>,
    ) -> (node: RelRc)
        requires
            old(arena).wf(),
            forall|j: int|
                0 <= j < attach_to@.len() ==> old(arena).is_live((#[trigger] attach_to@[j])@),
            detached.attachable(old(arena).hashes_of(attach_to@.map_values(|n: RelRc| n@))),
        ensures
            final(arena).wf(),
            old(arena).hash_index(attach_to@.map_values(|n: RelRc| n@)).contains_key(
                detached.current(),
            ) ==> node@ == old(arena).hash_index(
                attach_to@.map_values(|n: RelRc| n@),
            )[detached.current()] && old(arena).held(final(arena), node@),
            !old(arena).hash_index(attach_to@.map_values(|n: RelRc| n@)).contains_key(
                detached.current(),
            ) ==> old(arena).attached(final(arena), node@) && final(arena).realizes(
                detached.records(),
                old(arena).hash_index(attach_to@.map_values(|n: RelRc| n@)),
                detached.current(),
                node@,
            ) && exists|built: Map<RelRcHash, int>| #[trigger]
                made_at(built, detached.current(), node@) && final(arena).assembles(
                    old(arena).len() as int,
                    detached.records(),
                    old(arena).hash_index(attach_to@.map_values(|n: RelRc| n@)),
                    built,
                ),
    {
        let ghost start = *arena;
        let ghost ptrs = attach_to@.map_values(|n: RelRc| n@);
        let ghost records = detached.records();
        let mut known: BTreeMap<usize, usize> = BTreeMap::new();
        let mut j: usize = 0;
        assert(lift(known@) =~= arena.hash_index(ptrs.take(0)));
        while j < attach_to.len()
            invariant
                j <= attach_to@.len(),
                *arena == start,
                ptrs == attach_to@.map_values(|n: RelRc| n@),
                forall|j2: int| 0 <= j2 < ptrs.len() ==> arena.is_live(#[trigger] ptrs[j2]),
                lift(known@) == arena.hash_index(ptrs.take(j as int)),
                forall|h: usize| #[trigger]
                    known@.contains_key(h) ==> known@[h] < arena.len() && arena.is_live(
                        known@[h] as int,
                    ),
            decreases attach_to@.len() - j,
        {
            assert(ptrs[j as int] == attach_to@[j as int]@);
            let h = arena.get(&attach_to[j]).hash_id();
            known.insert(h.0, attach_to[j].as_ptr());
            proof {
                assert(ptrs.take(j + 1).drop_last() == ptrs.take(j as int));
                assert(ptrs.take(j + 1).last() == ptrs[j as int]);
                assert(lift(known@) =~= arena.hash_index(ptrs.take(j as int)).insert(
                    h,
                    ptrs[j as int],
                )) by {
                    assert forall|g: RelRcHash| lift(known@).contains_key(g) <==> arena.hash_index(
                        ptrs.take(j as int),
                    ).insert(h, ptrs[j as int]).contains_key(g) by {
                        if g.0 == h.0 {
                            assert(g == h);
                        }
                    }
                }
            }
            j += 1;
        }
        assert(ptrs.take(attach_to@.len() as int) == ptrs);
        let current = detached.current;
        match known.get(&current.0) {
            Some(p) => {
                assert(lift(known@).contains_key(current));
                return arena.hold(*p);
            },
            None => {},
        }
        assert(!lift(known@).contains_key(current));
        proof {
            arena.lemma_hash_index(ptrs);
            arena.lemma_extends_refl();
            assert(records.contains_key(current) && detached.grounded(arena.hashes_of(ptrs))) by {
                if arena.hashes_of(ptrs).contains(current) {
                    assert(lift(known@).contains_key(current));
                }
            }
        }
        let ghost (rank, part) = choose|rank: spec_fn(RelRcHash) -> nat, part: Set<RelRcHash>|
            part.contains(detached.current()) && #[trigger] detached.ranked_on(
                rank,
                part,
                arena.hashes_of(ptrs),
            );
        proof {
            assert forall|g: RelRcHash, k: int|
                part.contains(g) && records.contains_key(g) && 0 <= k
                    < records[g].incoming.len() implies {
                ||| known@.contains_key((#[trigger] records[g].incoming[k]).0.0)
                ||| records.contains_key(records[g].incoming[k].0) && part.contains(
                    records[g].incoming[k].0,
                ) && rank(records[g].incoming[k].0) < rank(g)
            } by {
                let p = records[g].incoming[k].0;
                if !records.contains_key(p) {
                    assert(detached.names_parent(p));
                    assert(detached.requires_hash(p));
                    assert(arena.hashes_of(ptrs).contains(p));
                    assert(lift(known@).contains_key(p));
                } else if arena.hashes_of(ptrs).contains(p) {
                    assert(lift(known@).contains_key(p));
                }
            }
        }
        let mut data = detached.all_data;
        let mut built: BTreeMap<usize, usize> = BTreeMap::new();
        let first = arena.slots.len();
        let top = build(
            arena,
            &mut data,
            &known,
            &mut built,
            current,
            Ghost(start),
            Ghost(records),
            Ghost(rank),
            Ghost(part),
        );
        let ghost made = *arena;
        let last = arena.slots.len();
        proof {
            assert(built@.contains_key(current.0));
            assert(top >= first);
        }
        let mut i: usize = first;
        while i < last
            invariant
                first <= i <= last,
                first == start.len(),
                last == made.len(),
                first <= top < last,
                made.wf(),
                arena.wf(),
                start.extends(&made),
                arena.len() == made.len(),
                arena.n_registries() == made.n_registries(),
                forall|r: int|
                    0 <= r < made.n_registries() ==> #[trigger] arena.registry_map(r)
                        == made.registry_map(r),
                forall|x: int| first <= x < last ==> (#[trigger] made.node(x)).handles == 1,
                forall|x: int| first <= x < last && x != top ==> made.has_live_child(x),
                forall|x: int| arena.is_live(x) == made.is_live(x),
                forall|x: int|
                    made.is_live(x) ==> #[trigger] arena.node(x) == (if first <= x < i && x != top {
                        crate::node::NodeView { handles: 0, ..made.node(x) }
                    } else {
                        made.node(x)
                    }),
            decreases last - i,
        {
            if i != top {
                let ghost prev = *arena;
                proof {
                    let x = made.node(i as int);
                    assert(made.has_live_child(i as int));
                    let w = choose|w: int|
                        0 <= w < made.node(i as int).outgoing.len() && made.is_live(
                            (#[trigger] made.out(i as int, w)).0,
                        );
                    assert(prev.out(i as int, w) == made.out(i as int, w));
                    assert(prev.has_live_child(i as int));
                }
                let handle = RelRc { ptr: i };
                handle.release(arena);
                proof {
                    assert forall|x: int| prev.is_live(x) implies arena.is_live(x) by {
                        prev.lemma_release_keeps_all(arena, i as int, 0, x);
                    }
                    assert forall|x: int| made.is_live(x) implies #[trigger] arena.node(x) == (if first
                        <= x < i + 1 && x != top {
                        crate::node::NodeView { handles: 0, ..made.node(x) }
                    } else {
                        made.node(x)
                    }) by {
                        let y = prev.node(x);
                    }
                    assert forall|r: int| 0 <= r < made.n_registries() implies #[trigger] arena.registry_map(
                        r,
                    ) == made.registry_map(r) by {
                        assert(arena.registry_map(r) =~= prev.registry_map(r)) by {
                            assert forall|k: u64| arena.registry_map(r).contains_key(k)
                                <==> prev.registry_map(r).contains_key(k) by {
                                if prev.registry_map(r).contains_key(k) {
                                    assert(!prev.reaped(arena, prev.registry_map(r)[k], r));
                                }
                            }
                        }
                    }
                }
            }
            i += 1;
        }
        proof {
            assert(made.keeps_shape(arena)) by {
                assert forall|x: int| made.is_live(x) implies arena.is_live(x) && (
                #[trigger] arena.node(x)).value == made.node(x).value && arena.node(x).incoming
                    == made.node(x).incoming by {}
            }
            made.lemma_realizes_shape(arena, records, lift(known@), current, top as int);
            made.lemma_assembles_shape(
                arena,
                start.len() as int,
                records,
                lift(known@),
                lift(built@),
            );
            assert(made_at(lift(built@), current, top as int));
            assert(start.attached(arena, top as int)) by {
                assert forall|x: int| start.is_live(x) implies #[trigger] arena.node(x) == (
                crate::node::NodeView {
                    outgoing: arena.node(x).outgoing,
                    ..start.node(x)
                }) && start.node(x).outgoing.is_prefix_of(arena.node(x).outgoing) by {
                    let y = made.node(x);
                }
                assert forall|x: int| start.len() <= x < arena.len() implies arena.is_live(x) && (
                #[trigger] arena.node(x)).registry is None && arena.node(x).handles == (if x
                    == top {
                    1nat
                } else {
                    0nat
                }) by {
                    let y = made.node(x);
                }
            }
        }
        RelRc { ptr: top }
    }
}

impl<N: Clone, E: Clone> Arena<N, E> {
    /// Whether the content identities tell apart the nodes that detaching the
    /// node at position `node` from `stop` reaches: two of them with the same
    /// content identity have the same record.
    pub open spec fn faithful(&self, node: int, stop: Set<RelRcHash>) -> bool {
        forall|x: int, y: int|
            self.descends(node, x, self.outside(stop)) && self.descends(
                node,
                y,
                self.outside(stop),
            ) && (#[trigger] self.node(x)).hash == (#[trigger] self.node(y)).hash
                ==> self.record_of(x) == self.record_of(y)
    }

    /// Whether the node at position `j` of `other` has the content of the
    /// node at position `i` of this arena: its value is a clone, it has as
    /// many incoming edges, whose values are clones, and its parents have the
    /// content of the parents.
    pub open spec fn content_cloned(&self, i: int, other: &Self, j: int) -> bool
        decreases i,
    {
        &&& self.is_live(i)
        &&& other.is_live(j)
        &&& cloned(self.node(i).value, other.node(j).value)
        &&& self.node(i).incoming.len() == other.node(j).incoming.len()
        &&& forall|k: int|
            0 <= k < self.node(i).incoming.len() ==> {
                &&& cloned((#[trigger] self.edge(i, k)).value, other.edge(j, k).value)
                &&& 0 <= self.edge(i, k).source < i
                &&& self.content_cloned(self.edge(i, k).source, other, other.edge(j, k).source)
            }
    }

    /// The first position from `lo` on whose node is reached when the node at
    /// `node` is detached from `stop` and has the content identity `h`.
    pub open spec fn first_with(&self, node: int, stop: Set<RelRcHash>, h: RelRcHash, lo: int) -> int
        decreases self.len() - lo,
    {
        if lo >= self.len() {
            lo
        } else if self.descends(node, lo, self.outside(stop)) && self.node(lo).hash == h {
            lo
        } else {
            self.first_with(node, stop, h, lo + 1)
        }
    }

    /// The first such position is not after any such position.
    pub proof fn lemma_first_with(&self, node: int, stop: Set<RelRcHash>, h: RelRcHash, lo: int, x: int)
        requires
            0 <= lo <= x,
            self.descends(node, x, self.outside(stop)),
            self.node(x).hash == h,
        ensures
            lo <= self.first_with(node, stop, h, lo) <= x,
            self.descends(node, self.first_with(node, stop, h, lo), self.outside(stop)),
            self.node(self.first_with(node, stop, h, lo)).hash == h,
        decreases self.len() - lo,
    {
        self.lemma_descends_live(node, x, self.outside(stop));
        if !(self.descends(node, lo, self.outside(stop)) && self.node(lo).hash == h) {
            self.lemma_first_with(node, stop, h, lo + 1, x);
        }
    }

    /// The record that a detached node holds under the content identity of a
    /// node that was reached is a clone of the record of that node.
    pub proof fn lemma_detached_record(&self, node: int, stop: Set<RelRcHash>, d: &Detached<N, E>, x: int)
        requires
            self.detached(node, stop, d),
            self.faithful(node, stop),
            self.descends(node, x, self.outside(stop)),
        ensures
            d.records().contains_key(self.node(x).hash),
            record_cloned(self.record_of(x), d.records()[self.node(x).hash]),
    {
        let h = self.node(x).hash;
        assert(d.records().contains_key(h));
        let y = choose|y: int|
            self.descends(node, y, self.outside(stop)) && (#[trigger] self.node(y)).hash == h
                && record_cloned(self.record_of(y), d.records()[h]);
        assert(self.record_of(x) == self.record_of(y));
    }

    /// What has been detached can be attached again: where the content
    /// identities tell the nodes apart, no record of a detached node is its
    /// own ancestor, and a node that was detached from nothing attaches to
    /// nothing.
    pub proof fn lemma_detached_attachable(&self, node: int, stop: Set<RelRcHash>, d: &Detached<N, E>)
        requires
            self.wf(),
            self.is_live(node),
            self.detached(node, stop, d),
            self.faithful(node, stop),
        ensures
            d.well_founded(),
            stop == Set::<RelRcHash>::empty() ==> d.attachable(Set::empty()),
    {
        let pass = self.outside(stop);
        let rank = |h: RelRcHash| self.first_with(node, stop, h, 0) as nat;
        assert(d.well_founded() ==> d.grounded(Set::empty())) by {
            if d.well_founded() {
                d.lemma_well_founded_grounded(Set::empty());
            }
        }
        assert(d.ranked(rank)) by {
            assert forall|h: RelRcHash, k: int|
                d.records().contains_key(h) && 0 <= k < d.records()[h].incoming.len()
                    && d.records().contains_key(
                    #[trigger] d.records()[h].incoming[k].0,
                ) implies rank(d.records()[h].incoming[k].0) < rank(h) by {
                let p = d.records()[h].incoming[k].0;
                let x = choose|x: int| self.descends(node, x, pass) && (#[trigger] self.node(x)).hash == h;
                self.lemma_descends_live(node, x, pass);
                self.lemma_first_with(node, stop, h, 0, x);
                let m = self.first_with(node, stop, h, 0);
                self.lemma_descends_live(node, m, pass);
                self.lemma_detached_record(node, stop, d, m);
                let s = self.edge(m, k).source;
                assert(self.record_of(m).incoming[k].0 == self.node(s).hash);
                assert(self.node(s).hash == p);
                let y = choose|y: int| self.descends(node, y, pass) && (#[trigger] self.node(y)).hash == p;
                self.lemma_descends_live(node, y, pass);
                assert(pass(s));
                self.lemma_descends_step(node, m, k, pass);
                self.lemma_first_with(node, stop, p, 0, s);
            }
        }
        if stop == Set::<RelRcHash>::empty() {
            assert(pass(node));
            assert(self.descends(node, node, pass));
            assert(d.records().contains_key(d.current()));
            assert forall|p: RelRcHash| !d.requires_hash(p) by {
                if d.names_parent(p) {
                    let (h, k) = choose|h: RelRcHash, k: int|
                        d.records().contains_key(h) && 0 <= k < d.records()[h].incoming.len()
                            && #[trigger] d.records()[h].incoming[k].0 == p;
                    let x = choose|x: int|
                        self.descends(node, x, pass) && (#[trigger] self.node(x)).hash == h;
                    self.lemma_descends_live(node, x, pass);
                    self.lemma_detached_record(node, stop, d, x);
                    let s = self.edge(x, k).source;
                    assert(self.record_of(x).incoming[k].0 == self.node(s).hash);
                    assert(pass(s));
                    self.lemma_descends_step(node, x, k, pass);
                    assert(d.records().contains_key(self.node(s).hash));
                }
            }
        }
    }

    /// The round trip: a node that has been detached, and attached again with
    /// every ancestor that it was detached from at hand, has the content that
    /// it had. This holds where the content identities tell the nodes apart.
    ///
    /// Here `x` is a node that was reached when the node at `node` was
    /// detached from `stop` into `d`, and `j` is what the records of `d` and
    /// the nodes `known` give for the content identity of `x` in `other`,
    /// where each known node has the content of every node with the same
    /// content identity that `stop` kept from being reached.
    pub proof fn lemma_round_trip(
        &self,
        node: int,
        stop: Set<RelRcHash>,
        d: &Detached<N, E>,
        other: &Self,
        known: Map<RelRcHash, int>,
        x: int,
        j: int,
    )
        requires
            self.wf(),
            self.detached(node, stop, d),
            self.faithful(node, stop),
            self.descends(node, x, self.outside(stop)),
            forall|h: RelRcHash| known.contains_key(h) ==> !d.records().contains_key(h),
            forall|s: int|
                self.is_live(s) && known.contains_key((#[trigger] self.node(s)).hash)
                    ==> self.content_cloned(s, other, known[self.node(s).hash]),
            other.realizes(d.records(), known, self.node(x).hash, j),
        ensures
            self.content_cloned(x, other, j),
        decreases x,
    {
        let pass = self.outside(stop);
        let h = self.node(x).hash;
        self.lemma_descends_live(node, x, pass);
        self.lemma_detached_record(node, stop, d, x);
        let rec = d.records()[h];
        assert(!known.contains_key(h));
        assert forall|k: int| 0 <= k < self.node(x).incoming.len() implies {
            &&& cloned((#[trigger] self.edge(x, k)).value, other.edge(j, k).value)
            &&& 0 <= self.edge(x, k).source < x
            &&& self.content_cloned(self.edge(x, k).source, other, other.edge(j, k).source)
        } by {
            let s = self.edge(x, k).source;
            assert(self.record_of(x).incoming[k] == (self.node(s).hash, self.edge(x, k).value));
            assert(rec.incoming[k].0 == self.node(s).hash);
            assert(other.edge(j, k).value == rec.incoming[k].1);
            if pass(s) {
                self.lemma_descends_step(node, x, k, pass);
                self.lemma_round_trip(node, stop, d, other, known, s, other.edge(j, k).source);
            } else {
                // The parent was not detached: it is one of the known nodes.
                let p = self.node(s).hash;
                assert(stop.contains(p));
                if d.records().contains_key(p) {
                    let y = choose|y: int|
                        self.descends(node, y, pass) && (#[trigger] self.node(y)).hash == p;
                    self.lemma_descends_live(node, y, pass);
                }
                assert(known.contains_key(p));
            }
        }
    }
}

impl<N, E> Detached<N, E> {
    /// Attaching is owed exactly where the detached node attaches: of a
    /// detached node that has a record for itself and for which no record
    /// that is needed is its own ancestor, [`RelRc::attach`] asks that it
    /// attaches to the given nodes, and nothing more; and that not even
    /// where the node is one of the given nodes.
    pub proof fn lemma_attach_owed(&self, known: Set<RelRcHash>)
        requires
            self.grounded(known),
            self.records().contains_key(self.current()),
        ensures
            self.attachable(known) <==> self.attaches_to_spec(known) || known.contains(
                self.current(),
            ),
    {
    }
}

impl<N, E> Detached<N, E> {
    /// Whether every parent of the record of `h` that has a record is in
    /// `ranked`.
    pub open(crate) spec fn ready(&self, ranked: Map<usize, usize>, h: usize) -> bool {
        forall|k: int|
            0 <= k < self.all_data@[h]@.incoming.len() && self.all_data@.contains_key(
                (#[trigger] self.all_data@[h]@.incoming[k]).0.0,
            ) ==> ranked.contains_key(self.all_data@[h]@.incoming[k].0.0)
    }

    /// Whether the ranks order the records that they hold: each holds a
    /// record, and with it its parents that have a record, which it puts
    /// below.
    pub open(crate) spec fn ordered(&self, ranked: Map<usize, usize>) -> bool {
        &&& forall|h: usize| #[trigger] ranked.contains_key(h) ==> self.all_data@.contains_key(h)
        &&& forall|h: usize, k: int|
            ranked.contains_key(h) && 0 <= k < self.all_data@[h]@.incoming.len()
                && self.all_data@.contains_key((#[trigger] self.all_data@[h]@.incoming[k]).0.0)
                ==> ranked.contains_key(self.all_data@[h]@.incoming[k].0.0)
                && ranked[self.all_data@[h]@.incoming[k].0.0] < ranked[h]
    }

    fn parents_ranked(&self, h: usize, ranked: &BTreeMap<usize, usize>) -> (b: bool)
        requires
            self.all_data@.contains_key(h),
        ensures
            b == self.ready(ranked@, h),
    {
        let data = self.all_data.get(&h).unwrap();
        let mut k: usize = 0;
        while k < data.incoming.len()
            invariant
                k <= data.incoming@.len(),
                self.all_data@.contains_key(h),
                *data == self.all_data@[h],
                forall|k2: int|
                    0 <= k2 < k && self.all_data@.contains_key(
                        (#[trigger] self.all_data@[h]@.incoming[k2]).0.0,
                    ) ==> ranked@.contains_key(self.all_data@[h]@.incoming[k2].0.0),
            decreases data.incoming@.len() - k,
        {
            let p = data.incoming[k].0;
            if self.all_data.contains_key(&p.0) && !ranked.contains_key(&p.0) {
                assert(self.all_data@[h]@.incoming[k as int].0.0 == p.0);
                return false;
            }
            k += 1;
        }
        true
    }

    /// No ranking orders records among which each has a parent.
    proof fn lemma_no_rank(&self, stuck: Set<usize>, rank: spec_fn(RelRcHash) -> nat, u: usize, n: nat)
        requires
            self.ranked(rank),
            stuck.contains(u),
            forall|h: usize| #[trigger]
                stuck.contains(h) ==> self.all_data@.contains_key(h) && exists|k: int|
                    0 <= k < self.all_data@[h]@.incoming.len() && stuck.contains(
                        (#[trigger] self.all_data@[h]@.incoming[k]).0.0,
                    ),
        ensures
            rank(RelRcHash(u)) >= n,
        decreases n,
    {
        if n > 0 {
            let k = choose|k: int|
                0 <= k < self.all_data@[u]@.incoming.len() && stuck.contains(
                    (#[trigger] self.all_data@[u]@.incoming[k]).0.0,
                );
            let p = self.all_data@[u]@.incoming[k].0;
            self.lemma_no_rank(stuck, rank, p.0, (n - 1) as nat);
            assert(self.records().contains_key(RelRcHash(u)));
            assert(self.records()[RelRcHash(u)].incoming[k].0 == p);
            assert(RelRcHash(p.0) == p);
            assert(self.records().contains_key(p));
        }
    }

    /// Whether no record is its own ancestor.
    pub fn is_well_founded(&self) -> (b: bool)
        ensures
            b == self.well_founded(),
    {
        let keys = map_keys(&self.all_data);
        let mut ranked: BTreeMap<usize, usize> = BTreeMap::new();
        let mut count: usize = 0;
        proof {
            keys@.unique_seq_to_set();
        }
        loop
            invariant
                keys@.no_duplicates(),
                keys@.to_set() == self.all_data@.dom(),
                keys@.len() == keys@.to_set().len(),
                self.ordered(ranked@),
                count == ranked@.dom().len(),
                count <= keys@.len(),
                forall|h: usize| #[trigger] ranked@.contains_key(h) ==> ranked@[h] < count,
            ensures
                self.ordered(ranked@),
                keys@.to_set() == self.all_data@.dom(),
                forall|h: usize| #[trigger]
                    self.all_data@.contains_key(h) && !ranked@.contains_key(h) ==> !self.ready(
                        ranked@,
                        h,
                    ),
            decreases keys@.len() - count,
        {
            let before = count;
            let ghost ranked0 = ranked@;
            let mut j: usize = 0;
            while j < keys.len()
                invariant
                    j <= keys@.len(),
                    keys@.no_duplicates(),
                    keys@.to_set() == self.all_data@.dom(),
                    keys@.len() == keys@.to_set().len(),
                    self.ordered(ranked@),
                    count == ranked@.dom().len(),
                    before <= count <= keys@.len(),
                    forall|h: usize| #[trigger] ranked@.contains_key(h) ==> ranked@[h] < count,
                    count == before ==> ranked@ == ranked0,
                    count == before ==> forall|j2: int|
                        0 <= j2 < j && !ranked@.contains_key(#[trigger] keys@[j2]) ==> !self.ready(
                            ranked@,
                            keys@[j2],
                        ),
                decreases keys@.len() - j,
            {
                let h = keys[j];
                assert(keys@.to_set().contains(h));
                if !ranked.contains_key(&h) && self.parents_ranked(h, &ranked) {
                    proof {
                        vstd::set_lib::lemma_len_subset(ranked@.dom().insert(h), keys@.to_set());
                    }
                    let ghost prev = ranked@;
                    ranked.insert(h, count);
                    count += 1;
                    proof {
                        assert(ranked@.dom() =~= prev.dom().insert(h));
                        assert forall|g: usize, k: int|
                            ranked@.contains_key(g) && 0 <= k < self.all_data@[g]@.incoming.len()
                                && self.all_data@.contains_key(
                                (#[trigger] self.all_data@[g]@.incoming[k]).0.0,
                            ) implies ranked@.contains_key(self.all_data@[g]@.incoming[k].0.0)
                            && ranked@[self.all_data@[g]@.incoming[k].0.0] < ranked@[g] by {
                            let p = self.all_data@[g]@.incoming[k].0.0;
                            if g == h {
                                assert(prev.contains_key(p));
                            } else {
                                assert(prev.contains_key(g));
                                assert(prev.contains_key(p));
                            }
                        }
                    }
                }
                j += 1;
            }
            if count == before {
                proof {
                    assert forall|h: usize| #[trigger]
                        self.all_data@.contains_key(h) && !ranked@.contains_key(
                            h,
                        ) implies !self.ready(ranked@, h) by {
                        assert(keys@.to_set().contains(h));
                        assert(keys@.contains(h));
                        let j2 = choose|j2: int| 0 <= j2 < keys@.len() && keys@[j2] == h;
                        assert(!ranked@.contains_key(keys@[j2]));
                    }
                }
                break ;
            }
        }
        let mut j: usize = 0;
        while j < keys.len()
            invariant
                j <= keys@.len(),
                self.ordered(ranked@),
                keys@.to_set() == self.all_data@.dom(),
                forall|h: usize| #[trigger]
                    self.all_data@.contains_key(h) && !ranked@.contains_key(h) ==> !self.ready(
                        ranked@,
                        h,
                    ),
                forall|j2: int| 0 <= j2 < j ==> ranked@.contains_key(#[trigger] keys@[j2]),
            decreases keys@.len() - j,
        {
            if !ranked.contains_key(&keys[j]) {
                proof {
                    let u = keys@[j as int];
                    assert(keys@.to_set().contains(u));
                    let stuck = Set::new(
                        |h: usize| self.all_data@.contains_key(h) && !ranked@.contains_key(h),
                    );
                    if self.well_founded() {
                        let rank = choose|rank: spec_fn(RelRcHash) -> nat| self.ranked(rank);
                        assert forall|h: usize| #[trigger]
                            stuck.contains(h) implies self.all_data@.contains_key(h) && exists|
                            k: int,
                        |
                            0 <= k < self.all_data@[h]@.incoming.len() && stuck.contains(
                                (#[trigger] self.all_data@[h]@.incoming[k]).0.0,
                            ) by {
                            assert(!self.ready(ranked@, h));
                            let k = choose|k: int|
                                0 <= k < self.all_data@[h]@.incoming.len()
                                    && self.all_data@.contains_key(
                                    (#[trigger] self.all_data@[h]@.incoming[k]).0.0,
                                ) && !ranked@.contains_key(self.all_data@[h]@.incoming[k].0.0);
                            assert(stuck.contains(self.all_data@[h]@.incoming[k].0.0));
                        }
                        self.lemma_no_rank(stuck, rank, u, rank(RelRcHash(u)) + 1);
                    }
                }
                return false;
            }
            j += 1;
        }
        proof {
            let rank = |h: RelRcHash|
                if ranked@.contains_key(h.0) {
                    ranked@[h.0] as nat
                } else {
                    0nat
                };
            assert(self.ranked(rank)) by {
                assert forall|h: RelRcHash, k: int|
                    self.records().contains_key(h) && 0 <= k < self.records()[h].incoming.len()
                        && self.records().contains_key(
                        #[trigger] self.records()[h].incoming[k].0,
                    ) implies rank(self.records()[h].incoming[k].0) < rank(h) by {
                    assert(keys@.to_set().contains(h.0));
                    assert(keys@.contains(h.0));
                    let j2 = choose|j2: int| 0 <= j2 < keys@.len() && keys@[j2] == h.0;
                    assert(ranked@.contains_key(keys@[j2]));
                    let p = self.all_data@[h.0]@.incoming[k].0;
                    assert(self.all_data@.contains_key(p.0));
                }
            }
        }
        true
    }

    /// Whether `part` holds, with every record that it holds, the parents of
    /// that record that have a record and are not known.
    pub open spec fn closed_part(&self, part: Set<RelRcHash>, known: Set<RelRcHash>) -> bool {
        forall|h: RelRcHash, k: int|
            part.contains(h) && self.records().contains_key(h) && 0 <= k
                < self.records()[h].incoming.len() && self.records().contains_key(
                #[trigger] self.records()[h].incoming[k].0,
            ) && !known.contains(self.records()[h].incoming[k].0) ==> part.contains(
                self.records()[h].incoming[k].0,
            )
    }

    /// Whether `sub` holds the shape of a part of the records, none of them
    /// known: for each the content identities of the parents, in their
    /// order.
    pub open spec fn shape_of(&self, sub: &Detached<(), ()>, known: Set<RelRcHash>) -> bool {
        forall|h: RelRcHash| #[trigger]
            sub.records().contains_key(h) ==> {
                &&& self.records().contains_key(h)
                &&& !known.contains(h)
                &&& sub.records()[h].incoming.len() == self.records()[h].incoming.len()
                &&& forall|k: int|
                    0 <= k < sub.records()[h].incoming.len() ==> (
                    #[trigger] sub.records()[h].incoming[k]).0 == self.records()[h].incoming[k].0
            }
    }

    /// Whether `sub` and `stack` hold what has been found so far of the
    /// records that are needed for the node: nothing but what every part
    /// holds that is closed and holds the node.
    pub open spec fn found(
        &self,
        sub: &Detached<(), ()>,
        stack: Seq<usize>,
        known: Set<RelRcHash>,
        part: Set<RelRcHash>,
    ) -> bool {
        &&& forall|h: RelRcHash| #[trigger] sub.records().contains_key(h) ==> part.contains(h)
        &&& forall|j: int|
            0 <= j < stack.len() && self.records().contains_key(RelRcHash(#[trigger] stack[j]))
                && !known.contains(RelRcHash(stack[j])) ==> part.contains(RelRcHash(stack[j]))
    }

    /// Whether `sub` holds the shape of the records that are needed for the
    /// node, and of no others: the record of the node, and with each record
    /// the records of its parents that are not known.
    pub open spec fn needs(&self, sub: &Detached<(), ()>, known: Set<RelRcHash>) -> bool {
        &&& sub.current() == self.current()
        &&& sub.records().contains_key(self.current())
        &&& self.shape_of(sub, known)
        &&& self.closed_part(sub.records().dom(), known)
        &&& forall|part: Set<RelRcHash>|
            part.contains(self.current()) && #[trigger] self.closed_part(part, known)
                ==> sub.records().dom().subset_of(part)
    }

    /// No needed record is its own ancestor exactly if no record of the shape
    /// of the needed records is.
    pub proof fn lemma_needs_grounded(&self, sub: &Detached<(), ()>, known: Set<RelRcHash>)
        requires
            self.needs(sub, known),
        ensures
            sub.well_founded() <==> self.grounded(known),
    {
        let part = sub.records().dom();
        if sub.well_founded() {
            let rank = choose|rank: spec_fn(RelRcHash) -> nat| sub.ranked(rank);
            assert(self.ranked_on(rank, part, known)) by {
                assert forall|h: RelRcHash, k: int|
                    part.contains(h) && self.records().contains_key(h) && 0 <= k
                        < self.records()[h].incoming.len() && self.records().contains_key(
                        #[trigger] self.records()[h].incoming[k].0,
                    ) && !known.contains(self.records()[h].incoming[k].0) implies part.contains(
                    self.records()[h].incoming[k].0,
                ) && rank(self.records()[h].incoming[k].0) < rank(h) by {
                    let p = self.records()[h].incoming[k].0;
                    assert(sub.records().contains_key(h));
                    assert(sub.records()[h].incoming[k].0 == p);
                    assert(part.contains(p));
                    assert(sub.records().contains_key(sub.records()[h].incoming[k].0));
                }
            }
        }
        if self.grounded(known) {
            let (rank, whole) = choose|rank: spec_fn(RelRcHash) -> nat, whole: Set<RelRcHash>|
                whole.contains(self.current()) && #[trigger] self.ranked_on(rank, whole, known);
            assert(self.closed_part(whole, known));
            assert(part.subset_of(whole));
            assert(sub.ranked(rank)) by {
                assert forall|h: RelRcHash, k: int|
                    sub.records().contains_key(h) && 0 <= k < sub.records()[h].incoming.len()
                        && sub.records().contains_key(
                        #[trigger] sub.records()[h].incoming[k].0,
                    ) implies rank(sub.records()[h].incoming[k].0) < rank(h) by {
                    let p = sub.records()[h].incoming[k].0;
                    assert(whole.contains(h));
                    assert(self.records()[h].incoming[k].0 == p);
                    assert(sub.records().contains_key(p));
                    assert(self.records().contains_key(p) && !known.contains(p));
                }
            }
        }
    }

    /// The shape of the records that are needed for the node, which has a
    /// record and is not known.
    fn needed(&self, known: &BTreeSet<usize>) -> (sub: Detached<(), ()>)
        requires
            self.all_data@.contains_key(self.current.0),
            !known@.contains(self.current.0),
        ensures
            self.needs(&sub, Set::new(|h: RelRcHash| known@.contains(h.0))),
    {
        let ghost stop = Set::new(|h: RelRcHash| known@.contains(h.0));
        let mut sub: Detached<(), ()> = Detached { current: self.current, all_data: BTreeMap::new() };
        let mut stack: Vec<usize> = Vec::new();
        stack.push(self.current.0);
        proof {
            assert(sub.records().dom() =~= Set::<RelRcHash>::empty());
            assert(stack@[0] == self.current.0);
        }
        while stack.len() > 0
            invariant
                stop == Set::new(|h: RelRcHash| known@.contains(h.0)),
                sub.current == self.current,
                self.all_data@.contains_key(self.current.0),
                !known@.contains(self.current.0),
                sub.all_data@.dom().finite(),
                self.all_data@.dom().finite(),
                sub.all_data@.dom().subset_of(self.all_data@.dom()),
                self.shape_of(&sub, stop),
                sub.all_data@.contains_key(self.current.0) || stack@.contains(self.current.0),
                forall|h: RelRcHash, k: int|
                    sub.records().contains_key(h) && 0 <= k < self.records()[h].incoming.len()
                        && self.records().contains_key(
                        #[trigger] self.records()[h].incoming[k].0,
                    ) && !stop.contains(self.records()[h].incoming[k].0)
                        ==> sub.records().contains_key(self.records()[h].incoming[k].0)
                        || stack@.contains(self.records()[h].incoming[k].0.0),
                forall|part: Set<RelRcHash>|
                    part.contains(self.current()) && #[trigger] self.closed_part(part, stop)
                        ==> self.found(&sub, stack@, stop, part),
            decreases self.all_data@.dom().len() - sub.all_data@.dom().len(), stack@.len(),
        {
            let ghost stack0 = stack@;
            let ghost sub0 = sub;
            let h = stack.pop().unwrap();
            let ghost rest = stack@;
            proof {
                assert(stack0 =~= rest.push(h));
                assert forall|x: usize| stack0.contains(x) implies rest.contains(x) || x == h by {
                    let j = choose|j: int| 0 <= j < stack0.len() && stack0[j] == x;
                    if j < rest.len() {
                        assert(rest[j] == x);
                    }
                }
            }
            if !sub.all_data.contains_key(&h) && !known.contains(&h) {
                match self.all_data.get(&h) {
                    Some(data) => {
                        let mut incoming: Vec<(RelRcHash, ())> = Vec::new();
                        let mut k: usize = 0;
                        while k < data.incoming.len()
                            invariant
                                k <= data.incoming@.len(),
                                incoming@.len() == k,
                                forall|k2: int|
                                    0 <= k2 < k ==> (#[trigger] incoming@[k2]).0
                                        == data.incoming@[k2].0,
                                stack@.len() == rest.len() + k,
                                forall|j: int| 0 <= j < rest.len() ==> stack@[j] == rest[j],
                                forall|k2: int|
                                    0 <= k2 < k ==> #[trigger] stack@[rest.len() + k2]
                                        == data.incoming@[k2].0.0,
                            decreases data.incoming@.len() - k,
                        {
                            let p = data.incoming[k].0;
                            incoming.push((p, ()));
                            stack.push(p.0);
                            k += 1;
                        }
                        sub.all_data.insert(h, DetachedInnerData { value: (), incoming });
                        proof {
                            let hh = RelRcHash(h);
                            assert(self.records().contains_key(hh));
                            assert(self.records()[hh].incoming == data.incoming@);
                            assert(sub.all_data@.dom() =~= sub0.all_data@.dom().insert(h));
                            vstd::set_lib::lemma_len_subset(
                                sub.all_data@.dom(),
                                self.all_data@.dom(),
                            );
                            assert forall|x: usize| rest.contains(x) implies stack@.contains(x) by {
                                let j = choose|j: int| 0 <= j < rest.len() && rest[j] == x;
                                assert(stack@[j] == x);
                            }
                            assert forall|g: RelRcHash| #[trigger]
                                sub.records().contains_key(g) implies {
                                &&& self.records().contains_key(g)
                                &&& !stop.contains(g)
                                &&& sub.records()[g].incoming.len()
                                    == self.records()[g].incoming.len()
                                &&& forall|k2: int|
                                    0 <= k2 < sub.records()[g].incoming.len() ==> (
                                    #[trigger] sub.records()[g].incoming[k2]).0
                                        == self.records()[g].incoming[k2].0
                            } by {
                                if g.0 != h {
                                    assert(sub0.records().contains_key(g));
                                    assert(sub.records()[g] == sub0.records()[g]);
                                }
                            }
                            assert forall|g: RelRcHash, k2: int|
                                sub.records().contains_key(g) && 0 <= k2
                                    < self.records()[g].incoming.len()
                                    && self.records().contains_key(
                                    #[trigger] self.records()[g].incoming[k2].0,
                                ) && !stop.contains(
                                    self.records()[g].incoming[k2].0,
                                ) implies sub.records().contains_key(
                                self.records()[g].incoming[k2].0,
                            ) || stack@.contains(self.records()[g].incoming[k2].0.0) by {
                                let p = self.records()[g].incoming[k2].0;
                                if g.0 == h {
                                    assert(g == hh);
                                    assert(stack@[rest.len() + k2] == p.0);
                                } else {
                                    assert(sub0.records().contains_key(g));
                                    if sub0.records().contains_key(p) {
                                        assert(sub.records().contains_key(p));
                                    } else {
                                        assert(stack0.contains(p.0));
                                        if p.0 == h {
                                            assert(sub.records().contains_key(p));
                                        } else {
                                            assert(rest.contains(p.0));
                                        }
                                    }
                                }
                            }
                            assert forall|part: Set<RelRcHash>|
                                part.contains(self.current()) && #[trigger] self.closed_part(
                                    part,
                                    stop,
                                ) implies self.found(&sub, stack@, stop, part) by {
                                assert(self.found(&sub0, stack0, stop, part));
                                assert(stack0[rest.len() as int] == h);
                                assert(part.contains(hh));
                                assert forall|g: RelRcHash| #[trigger]
                                    sub.records().contains_key(g) implies part.contains(g) by {
                                    if g.0 != h {
                                        assert(sub0.records().contains_key(g));
                                    } else {
                                        assert(g == hh);
                                    }
                                }
                                assert forall|j: int|
                                    0 <= j < stack@.len() && self.records().contains_key(
                                        RelRcHash(#[trigger] stack@[j]),
                                    ) && !stop.contains(RelRcHash(stack@[j])) implies part.contains(
                                    RelRcHash(stack@[j]),
                                ) by {
                                    if j < rest.len() {
                                        assert(stack0[j] == stack@[j]);
                                    } else {
                                        let k2 = j - rest.len();
                                        assert(stack@[rest.len() + k2] == data.incoming@[k2].0.0);
                                        let p = self.records()[hh].incoming[k2].0;
                                        assert(RelRcHash(stack@[j]) == p);
                                    }
                                }
                            }
                            if !(sub.all_data@.contains_key(self.current.0)) {
                                assert(stack0.contains(self.current.0));
                                assert(rest.contains(self.current.0));
                            }
                        }
                    },
                    None => {
                        proof {
                            assert(h != self.current.0);
                            assert forall|g: RelRcHash, k2: int|
                                sub.records().contains_key(g) && 0 <= k2
                                    < self.records()[g].incoming.len()
                                    && self.records().contains_key(
                                    #[trigger] self.records()[g].incoming[k2].0,
                                ) && !stop.contains(
                                    self.records()[g].incoming[k2].0,
                                ) implies sub.records().contains_key(
                                self.records()[g].incoming[k2].0,
                            ) || stack@.contains(self.records()[g].incoming[k2].0.0) by {
                                let p = self.records()[g].incoming[k2].0;
                                if !sub.records().contains_key(p) {
                                    assert(stack0.contains(p.0));
                                }
                            }
                            assert forall|part: Set<RelRcHash>|
                                part.contains(self.current()) && #[trigger] self.closed_part(
                                    part,
                                    stop,
                                ) implies self.found(&sub, stack@, stop, part) by {
                                assert(self.found(&sub0, stack0, stop, part));
                                assert forall|j: int|
                                    0 <= j < stack@.len() && self.records().contains_key(
                                        RelRcHash(#[trigger] stack@[j]),
                                    ) && !stop.contains(RelRcHash(stack@[j])) implies part.contains(
                                    RelRcHash(stack@[j]),
                                ) by {
                                    assert(stack0[j] == stack@[j]);
                                }
                            }
                        }
                    },
                }
            } else {
                proof {
                    assert(h != self.current.0 || sub.all_data@.contains_key(self.current.0));
                    assert forall|g: RelRcHash, k2: int|
                        sub.records().contains_key(g) && 0 <= k2 < self.records()[g].incoming.len()
                            && self.records().contains_key(
                            #[trigger] self.records()[g].incoming[k2].0,
                        ) && !stop.contains(
                            self.records()[g].incoming[k2].0,
                        ) implies sub.records().contains_key(self.records()[g].incoming[k2].0)
                        || stack@.contains(self.records()[g].incoming[k2].0.0) by {
                        let p = self.records()[g].incoming[k2].0;
                        if !sub.records().contains_key(p) {
                            assert(stack0.contains(p.0));
                            assert(p.0 != h);
                        }
                    }
                    assert forall|part: Set<RelRcHash>|
                        part.contains(self.current()) && #[trigger] self.closed_part(
                            part,
                            stop,
                        ) implies self.found(&sub, stack@, stop, part) by {
                        assert(self.found(&sub0, stack0, stop, part));
                        assert forall|j: int|
                            0 <= j < stack@.len() && self.records().contains_key(
                                RelRcHash(#[trigger] stack@[j]),
                            ) && !stop.contains(RelRcHash(stack@[j])) implies part.contains(
                            RelRcHash(stack@[j]),
                        ) by {
                            assert(stack0[j] == stack@[j]);
                        }
                    }
                }
            }
        }
        proof {
            assert(self.closed_part(sub.records().dom(), stop)) by {
                assert forall|h: RelRcHash, k: int|
                    sub.records().dom().contains(h) && self.records().contains_key(h) && 0 <= k
                        < self.records()[h].incoming.len() && self.records().contains_key(
                        #[trigger] self.records()[h].incoming[k].0,
                    ) && !stop.contains(
                        self.records()[h].incoming[k].0,
                    ) implies sub.records().dom().contains(self.records()[h].incoming[k].0) by {
                    let p = self.records()[h].incoming[k].0;
                    assert(sub.records().contains_key(h));
                    if !sub.records().contains_key(p) {
                        assert(stack@.contains(p.0));
                    }
                }
            }
            assert forall|part: Set<RelRcHash>|
                part.contains(self.current()) && #[trigger] self.closed_part(
                    part,
                    stop,
                ) implies sub.records().dom().subset_of(part) by {
                assert(self.found(&sub, stack@, stop, part));
            }
        }
        sub
    }

    /// Whether the node can be attached to the given nodes: whether
    /// [`RelRc::attach`] may be called.
    pub fn can_attach(&self, arena: &Arena<N, E>, attach_to: &Vec<RelRc>) -> (b: bool)
        requires
            forall|j: int| 0 <= j < attach_to@.len() ==> arena.is_live((#[trigger] attach_to@[j])@),
        ensures
            b == self.attachable(arena.hashes_of(attach_to@.map_values(|n: RelRc| n@))),
    {
        let ghost stop = arena.hashes_of(attach_to@.map_values(|n: RelRc| n@));
        let known = Self::known_hashes(arena, attach_to);
        assert(stop =~= Set::new(|h: RelRcHash| known@.contains(h.0)));
        if known.contains(&self.current.0) {
            assert(stop.contains(self.current()));
            return true;
        }
        assert(!stop.contains(self.current()));
        if !self.attaches_to(arena, attach_to) {
            return false;
        }
        if !self.all_data.contains_key(&self.current.0) {
            return false;
        }
        let sub = self.needed(&known);
        proof {
            self.lemma_needs_grounded(&sub, stop);
        }
        sub.is_well_founded()
    }
}

impl RelRc {
    /// Attaches a detached node to the given nodes, if it can be attached to
    /// them, see [`RelRc::attach`]. Otherwise nothing changes.
    pub fn try_attach<N: std::hash::Hash, E: std::hash::Hash>(
        arena: &mut Arena<N, E>,
        detached: Detached<N, E>,
        attach_to: &Vec<RelRc>,
    ) -> (node: Option<RelRc>)
        requires
            old(arena).wf(),
            forall|j: int|
                0 <= j < attach_to@.len() ==> old(arena).is_live((#[trigger] attach_to@[j])@),
        ensures
            final(arena).wf(),
            node is Some <==> detached.attachable(
                old(arena).hashes_of(attach_to@.map_values(|n: RelRc| n@)),
            ),
            node is None ==> *final(arena) == *old(arena),
            node matches Some(n) ==> {
                let known = old(arena).hash_index(attach_to@.map_values(|n: RelRc| n@));
                &&& known.contains_key(detached.current()) ==> n@ == known[detached.current()]
                    && old(arena).held(final(arena), n@)
                &&& !known.contains_key(detached.current()) ==> old(arena).attached(
                    final(arena),
                    n@,
                ) && final(arena).realizes(detached.records(), known, detached.current(), n@)
                    && exists|built: Map<RelRcHash, int>| #[trigger]
                    made_at(built, detached.current(), n@) && final(arena).assembles(
                        old(arena).len() as int,
                        detached.records(),
                        known,
                        built,
                    )
            },
    {
        if detached.can_attach(arena, attach_to) {
            Some(RelRc::attach(arena, detached, attach_to))
        } else {
            None
        }
    }
}

impl<N, E> DetachedInnerData<N, E> {
    /// Gives up the record and keeps its value and its incoming edges.
    pub fn into_parts(self) -> (parts: (N, Vec<(RelRcHash, E)>))
        ensures
            parts.0 == self@.value,
            parts.1@ == self@.incoming,
    {
        (self.value, self.incoming)
    }
}

impl<N, E> Detached<N, E> {
    /// The content identities that have a record, each once.
    pub fn hashes(&self) -> (hashes: Vec<RelRcHash>)
        ensures
            hashes@.no_duplicates(),
            forall|h: RelRcHash| hashes@.contains(h) <==> self.records().contains_key(h),
    {
        let keys = map_keys(&self.all_data);
        let mut hashes: Vec<RelRcHash> = Vec::new();
        let mut j: usize = 0;
        while j < keys.len()
            invariant
                j <= keys@.len(),
                hashes@.len() == j,
                forall|j2: int| 0 <= j2 < j ==> (#[trigger] hashes@[j2]).0 == keys@[j2],
            decreases keys@.len() - j,
        {
            hashes.push(RelRcHash(keys[j]));
            j += 1;
        }
        proof {
            assert forall|a: int, b: int| 0 <= a < b < hashes@.len() implies hashes@[a]
                != hashes@[b] by {
                assert(keys@[a] != keys@[b]);
            }
            assert forall|h: RelRcHash| hashes@.contains(h) <==> self.records().contains_key(h) by {
                if hashes@.contains(h) {
                    let a = choose|a: int| 0 <= a < hashes@.len() && hashes@[a] == h;
                    assert(keys@.contains(keys@[a]));
                    assert(keys@.to_set().contains(keys@[a]));
                }
                if self.records().contains_key(h) {
                    assert(keys@.to_set().contains(h.0));
                    assert(keys@.contains(h.0));
                    let a = choose|a: int| 0 <= a < keys@.len() && keys@[a] == h.0;
                    assert(hashes@[a] == h);
                }
            }
        }
        hashes
    }

    /// Takes the record under a content identity out of the detached node, if
    /// there is one.
    pub fn remove(&mut self, hash: RelRcHash) -> (data: Option<DetachedInnerData<N, E>>)
        ensures
            final(self).current() == old(self).current(),
            final(self).records() == old(self).records().remove(hash),
            data is Some == old(self).records().contains_key(hash),
            data matches Some(d) ==> d@ == old(self).records()[hash],
    {
        let data = self.all_data.remove(&hash.0);
        proof {
            assert forall|h: RelRcHash| self.records().contains_key(h) <==> old(self).records().remove(
                hash,
            ).contains_key(h) by {
                if h.0 == hash.0 {
                    assert(h == hash);
                }
            }
            assert(self.records() =~= old(self).records().remove(hash));
        }
        data
    }
}

} // verus!
