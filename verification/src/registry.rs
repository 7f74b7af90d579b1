//! Registries: stable small identifiers for the nodes of an arena.
//!
//! A registry is a table from identifiers to weak references, with the inverse
//! map from nodes to identifiers. The table is a slot map: identifiers are
//! handed out by it and freed when an entry is removed.

use crate::node::{Arena, RelRc, RelWeak};
use slotmap::{DefaultKey, Key, KeyData, SlotMap};
use std::collections::HashMap;
use vstd::prelude::*;

verus! {

broadcast use vstd::std_specs::hash::group_hash_axioms;

/// A `slotmap::SlotMap` with default keys, from its keys to positions of an
/// arena. Of what it holds only that is known which the functions below
/// state of `SlotMap::new`, `insert`, `remove`, `get`, `len` and `keys`.
#[verifier::external_body]
pub struct SlotTable {
    inner: SlotMap<DefaultKey, usize>,
}

/// What a slot map holds: the value stored under each key, the keys given by
/// the 64-bit integers that `KeyData::as_ffi` makes of them.
pub uninterp spec fn slot_contents(m: SlotTable) -> Map<u64, usize>;

/// The number of slots that a slot map has opened so far, the sentinel slot
/// and the vacant slots included.
pub uninterp spec fn slot_span(m: SlotTable) -> nat;

/// Whether a 64-bit integer is of the form that `KeyData::as_ffi` returns: the
/// version, in the upper half, is odd.
pub open spec fn canonical(bits: u64) -> bool {
    bits & 0x1_0000_0000 != 0
}

/// Calls `SlotMap::new`: the new map holds nothing and has opened its
/// sentinel slot only.
#[verifier::external_body]
fn slots_new() -> (table: SlotTable)
    ensures
        slot_contents(table).dom() == Set::<u64>::empty(),
        slot_span(table) == 1,
{
    SlotTable { inner: SlotMap::new() }
}

/// Calls `SlotMap::insert`, which panics once `u32::MAX` slots are open. The
/// value is stored under a key that the map did not hold; at most one slot is
/// opened for it.
#[verifier::external_body]
fn slots_insert(m: &mut SlotTable, value: usize) -> (k: u64)
    requires
        slot_span(*old(m)) < u32::MAX,
    ensures
        canonical(k),
        !slot_contents(*old(m)).contains_key(k),
        slot_contents(*final(m)) == slot_contents(*old(m)).insert(k, value),
        slot_span(*final(m)) <= slot_span(*old(m)) + 1,
{
    m.inner.insert(value).data().as_ffi()
}

/// Calls `SlotMap::remove`: the entry under the key leaves the map and its
/// value is returned, if there was one. No slot is opened or closed.
#[verifier::external_body]
fn slots_remove(m: &mut SlotTable, k: u64) -> (v: Option<usize>)
    requires
        canonical(k),
    ensures
        v == (if slot_contents(*old(m)).contains_key(k) {
            Some(slot_contents(*old(m))[k])
        } else {
            None
        }),
        slot_contents(*final(m)) == slot_contents(*old(m)).remove(k),
        slot_span(*final(m)) == slot_span(*old(m)),
{
    m.inner.remove(DefaultKey::from(KeyData::from_ffi(k)))
}

/// Calls `SlotMap::get`: the value stored under the key, if there is one.
#[verifier::external_body]
fn slots_get(m: &SlotTable, k: u64) -> (v: Option<usize>)
    requires
        canonical(k),
    ensures
        v == (if slot_contents(*m).contains_key(k) {
            Some(slot_contents(*m)[k])
        } else {
            None
        }),
{
    m.inner.get(DefaultKey::from(KeyData::from_ffi(k))).copied()
}

/// Calls `SlotMap::len`: the number of entries.
#[verifier::external_body]
fn slots_len(m: &SlotTable) -> (n: usize)
    ensures
        n == slot_contents(*m).len(),
{
    m.inner.len()
}

/// Calls `SlotMap::keys`: every key of the map, once.
#[verifier::external_body]
fn slots_keys(m: &SlotTable) -> (keys: Vec<u64>)
    ensures
        keys@.no_duplicates(),
        keys@.to_set() == slot_contents(*m).dom(),
        forall|j: int| 0 <= j < keys@.len() ==> canonical(#[trigger] keys@[j]),
{
    m.inner.keys().map(|k| k.data().as_ffi()).collect()
}

/// The identifier of a node in a registry. Its view is the 64-bit integer
/// that stands for the key of the slot map.
#[derive(Clone, Copy, Debug, PartialEq, Eq, Hash, PartialOrd, Ord)]
pub struct NodeId {
    bits: u64,
}

impl View for NodeId {
    type V = u64;

    closed spec fn view(&self) -> u64 {
        self.bits
    }
}

impl NodeId {
    #[verifier::type_invariant]
    spec fn inv(self) -> bool {
        canonical(self.bits)
    }

    fn from_key(bits: u64) -> (id: NodeId)
        requires
            canonical(bits),
        ensures
            id@ == bits,
    {
        NodeId { bits }
    }

    fn key(&self) -> (bits: u64)
        ensures
            bits == self@,
            canonical(bits),
    {
        proof {
            use_type_invariant(self);
        }
        self.bits
    }

    /// Whether two identifiers are the same.
    pub fn same(&self, other: &NodeId) -> (b: bool)
        ensures
            b == (self@ == other@),
    {
        self.bits == other.bits
    }
}

/// The largest number of entries that a registry takes over its lifetime.
pub const REGISTRY_LIMIT: usize = 0xffff_0000;

/// A table from identifiers to nodes, with its inverse.
///
/// Its view is the map from identifiers to the positions of the nodes. No
/// node has two identifiers.
pub struct RegistryTable {
    /// The map from identifiers to nodes.
    nodes: SlotTable,
    /// The inverse map, from nodes to identifiers.
    ptr_to_id: HashMap<usize, NodeId>,
    /// The number of entries made so far.
    opened: usize,
}

impl View for RegistryTable {
    type V = Map<u64, int>;

    closed spec fn view(&self) -> Map<u64, int> {
        Map::new(
            |k: u64| slot_contents(self.nodes).contains_key(k),
            |k: u64| slot_contents(self.nodes)[k] as int,
        )
    }
}

impl RegistryTable {
    /// The invariant of a table: the two maps are inverse to each other.
    pub closed spec fn wf(&self) -> bool {
        &&& slot_contents(self.nodes).dom().finite()
        &&& slot_span(self.nodes) <= self.opened + 1
        &&& self.opened <= REGISTRY_LIMIT
        &&& forall|k: u64| #[trigger]
            slot_contents(self.nodes).contains_key(k) ==> self.ptr_to_id@.contains_key(
                slot_contents(self.nodes)[k],
            ) && self.ptr_to_id@[slot_contents(self.nodes)[k]]@ == k
        &&& forall|p: usize| #[trigger]
            self.ptr_to_id@.contains_key(p) ==> slot_contents(self.nodes).contains_key(
                self.ptr_to_id@[p]@,
            ) && slot_contents(self.nodes)[self.ptr_to_id@[p]@] == p
    }

    /// How many entries the table has taken so far.
    pub closed spec fn opened(&self) -> nat {
        self.opened as nat
    }

    /// In a table, a node has at most one identifier, and the table is finite.
    pub proof fn lemma_injective(&self)
        requires
            self.wf(),
        ensures
            self@.dom().finite(),
            forall|k1: u64, k2: u64|
                self@.contains_key(k1) && self@.contains_key(k2) && self@[k1] == self@[k2] ==> k1
                    == k2,
    {
        assert(self@.dom() =~= slot_contents(self.nodes).dom());
    }

    pub(crate) fn new() -> (t: Self)
        ensures
            t.wf(),
            t@ == Map::<u64, int>::empty(),
            t.opened() == 0,
    {
        let t = RegistryTable { nodes: slots_new(), ptr_to_id: HashMap::new(), opened: 0 };
        assert(forall|k: u64| !slot_contents(t.nodes).dom().contains(k));
        assert(t@ =~= Map::<u64, int>::empty());
        t
    }

    /// The identifier of the node at position `ptr`, if it has one.
    pub(crate) fn id_of(&self, ptr: usize) -> (id: Option<NodeId>)
        requires
            self.wf(),
        ensures
            id matches Some(k) ==> self@.contains_key(k@) && self@[k@] == ptr,
            id is None ==> forall|k: u64| self@.contains_key(k) ==> self@[k] != ptr,
    {
        match self.ptr_to_id.get(&ptr) {
            Some(id) => Some(*id),
            None => {
                proof {
                    assert forall|k: u64| self@.contains_key(k) implies self@[k] != ptr by {
                        assert(slot_contents(self.nodes).contains_key(k));
                    }
                }
                None
            },
        }
    }

    /// The node that has the identifier, if there is one.
    pub(crate) fn ptr_of(&self, id: NodeId) -> (ptr: Option<usize>)
        requires
            self.wf(),
        ensures
            ptr matches Some(p) ==> self@.contains_key(id@) && self@[id@] == p,
            ptr is None ==> !self@.contains_key(id@),
    {
        slots_get(&self.nodes, id.key())
    }

    /// Gives the node at position `ptr` an identifier, unless it has one.
    pub(crate) fn add(&mut self, ptr: usize) -> (id: NodeId)
        requires
            old(self).wf(),
            old(self).opened() < REGISTRY_LIMIT,
        ensures
            final(self).wf(),
            final(self).opened() <= old(self).opened() + 1,
            old(self)@.contains_key(id@) ==> old(self)@[id@] == ptr && final(self)@ == old(self)@,
            !old(self)@.contains_key(id@) ==> {
                &&& forall|k: u64| old(self)@.contains_key(k) ==> old(self)@[k] != ptr
                &&& final(self)@ == old(self)@.insert(id@, ptr as int)
            },
    {
        match self.id_of(ptr) {
            Some(id) => id,
            None => {
                let ghost before = *self;
                let k = slots_insert(&mut self.nodes, ptr);
                let id = NodeId::from_key(k);
                self.ptr_to_id.insert(ptr, id);
                self.opened = self.opened + 1;
                proof {
                    assert(!before.ptr_to_id@.contains_key(ptr)) by {
                        if before.ptr_to_id@.contains_key(ptr) {
                            let k0 = before.ptr_to_id@[ptr]@;
                            assert(slot_contents(before.nodes).contains_key(k0));
                            assert(before@.contains_key(k0));
                            assert(before@[k0] == ptr as int);
                        }
                    }
                    assert(self@ =~= before@.insert(k, ptr as int));
                    assert forall|k2: u64| #[trigger]
                        slot_contents(self.nodes).contains_key(
                            k2,
                        ) implies self.ptr_to_id@.contains_key(slot_contents(self.nodes)[k2])
                        && self.ptr_to_id@[slot_contents(self.nodes)[k2]]@ == k2 by {
                        if k2 != k {
                            assert(slot_contents(before.nodes).contains_key(k2));
                        }
                    }
                    assert forall|p: usize| #[trigger]
                        self.ptr_to_id@.contains_key(p) implies slot_contents(
                        self.nodes,
                    ).contains_key(self.ptr_to_id@[p]@) && slot_contents(
                        self.nodes,
                    )[self.ptr_to_id@[p]@] == p by {
                        if p != ptr {
                            assert(before.ptr_to_id@.contains_key(p));
                        }
                    }
                }
                id
            },
        }
    }

    /// Takes the entry of the identifier out of the table.
    pub(crate) fn remove(&mut self, id: NodeId)
        requires
            old(self).wf(),
        ensures
            final(self).wf(),
            final(self).opened() == old(self).opened(),
            final(self)@ == old(self)@.remove(id@),
    {
        let ghost before = *self;
        let k = id.key();
        match slots_remove(&mut self.nodes, k) {
            Some(ptr) => {
                self.ptr_to_id.remove(&ptr);
                proof {
                    assert forall|k2: u64| #[trigger]
                        slot_contents(self.nodes).contains_key(
                            k2,
                        ) implies self.ptr_to_id@.contains_key(slot_contents(self.nodes)[k2])
                        && self.ptr_to_id@[slot_contents(self.nodes)[k2]]@ == k2 by {
                        assert(slot_contents(before.nodes).contains_key(k2));
                        assert(slot_contents(before.nodes).contains_key(k));
                    }
                    assert forall|p: usize| #[trigger]
                        self.ptr_to_id@.contains_key(p) implies slot_contents(
                        self.nodes,
                    ).contains_key(self.ptr_to_id@[p]@) && slot_contents(
                        self.nodes,
                    )[self.ptr_to_id@[p]@] == p by {
                        assert(before.ptr_to_id@.contains_key(p));
                    }
                }
            },
            None => {},
        }
        assert(self@ =~= before@.remove(id@));
    }

    /// Takes the entry of the node at position `ptr` out of the table.
    pub(crate) fn forget(&mut self, ptr: usize)
        requires
            old(self).wf(),
        ensures
            final(self).wf(),
            final(self).opened() == old(self).opened(),
            forall|k: u64| #[trigger]
                final(self)@.contains_key(k) <==> old(self)@.contains_key(k) && old(self)@[k]
                    != ptr,
            forall|k: u64| #[trigger]
                final(self)@.contains_key(k) ==> final(self)@[k] == old(self)@[k],
    {
        proof {
            self.lemma_injective();
        }
        match self.id_of(ptr) {
            Some(id) => {
                self.remove(id);
            },
            None => {},
        }
    }

    /// Whether the table can take one more entry.
    pub(crate) fn has_room(&self) -> (b: bool)
        ensures
            b == (self.opened() < REGISTRY_LIMIT),
    {
        self.opened < REGISTRY_LIMIT
    }

    /// The number of entries of the table.
    pub(crate) fn len(&self) -> (n: usize)
        requires
            self.wf(),
        ensures
            n == self@.len(),
    {
        assert(self@.dom() =~= slot_contents(self.nodes).dom());
        slots_len(&self.nodes)
    }

    /// The identifiers of the table, each once.
    pub(crate) fn ids(&self) -> (ids: Vec<NodeId>)
        requires
            self.wf(),
        ensures
            ids@.map_values(|id: NodeId| id@).no_duplicates(),
            ids@.map_values(|id: NodeId| id@).to_set() == self@.dom(),
    {
        let keys = slots_keys(&self.nodes);
        let mut ids: Vec<NodeId> = Vec::new();
        let mut j: usize = 0;
        while j < keys.len()
            invariant
                j <= keys@.len(),
                ids@.len() == j,
                forall|j2: int| 0 <= j2 < keys@.len() ==> canonical(#[trigger] keys@[j2]),
                forall|j2: int| 0 <= j2 < j ==> (#[trigger] ids@[j2])@ == keys@[j2],
            decreases keys@.len() - j,
        {
            ids.push(NodeId::from_key(keys[j]));
            j += 1;
        }
        assert(ids@.map_values(|id: NodeId| id@) =~= keys@);
        assert(self@.dom() =~= slot_contents(self.nodes).dom());
        ids
    }
}

/// A handle on a registry of an arena.
///
/// Views and graphs that name the same nodes share a registry by copying the
/// handle. Its view is the position of the registry in the arena.
#[derive(Clone, Copy, Debug, PartialEq, Eq, Structural)]
pub struct Registry {
    pub(crate) idx: usize,
}

impl View for Registry {
    type V = int;

    open(crate) spec fn view(&self) -> int {
        self.idx as int
    }
}

impl Registry {
    /// Makes a new, empty registry in the arena.
    pub fn new<N, E>(arena: &mut Arena<N, E>) -> (r: Registry)
        requires
            old(arena).wf(),
        ensures
            final(arena).wf(),
            old(arena).same_nodes(final(arena)),
            r@ == old(arena).n_registries(),
            final(arena).n_registries() == old(arena).n_registries() + 1,
            final(arena).registry_map(r@) == Map::<u64, int>::empty(),
            final(arena).registry_taken(r@) == 0,
            final(arena).registry_room(r@),
            forall|r2: int|
                0 <= r2 < old(arena).n_registries() ==> #[trigger] final(arena).registry_map(r2)
                    == old(arena).registry_map(r2) && final(arena).registry_room(r2) == old(
                    arena,
                ).registry_room(r2),
    {
        let idx = arena.tables.len();
        arena.tables.push(RegistryTable::new());
        proof {
            assert forall|i: int| arena.is_live(i) implies arena.node(i) == old(arena).node(i) by {}
            old(arena).lemma_tables_kept(arena, -1);
            crate::node::lemma_same_graph_wf(*old(arena), *arena, Set::empty());
        }
        Registry { idx }
    }

    /// Whether the registry can take one more entry.
    pub fn has_room<N, E>(&self, arena: &Arena<N, E>) -> (b: bool)
        requires
            0 <= self@ < arena.n_registries(),
        ensures
            b == arena.registry_room(self@),
    {
        arena.tables[self.idx].has_room()
    }

    /// Gives the node an identifier in the registry and returns it. If the
    /// node has one already, that one is returned and nothing changes.
    ///
    /// A node that is added in this way stays in the registry after it has
    /// been destroyed, until the entry is pruned. Register it with
    /// [`RelRc::try_register_in`] to have it leave the registry on its
    /// destruction.
    pub fn add_node<N, E>(&self, arena: &mut Arena<N, E>, node: &RelRc) -> (id: NodeId)
        requires
            old(arena).wf(),
            0 <= self@ < old(arena).n_registries(),
            old(arena).registry_room(self@),
        ensures
            final(arena).wf(),
            old(arena).same_nodes(final(arena)),
            final(arena).registry_taken(self@) <= old(arena).registry_taken(self@) + 1,
            old(arena).registry_map(self@).contains_key(id@) ==> old(arena).registry_map(
                self@,
            )[id@] == node@ && old(arena).registry_set(
                final(arena),
                self@,
                old(arena).registry_map(self@),
            ),
            !old(arena).registry_map(self@).contains_key(id@) ==> {
                &&& forall|k: u64|
                    old(arena).registry_map(self@).contains_key(k) ==> old(arena).registry_map(
                        self@,
                    )[k] != node@
                &&& old(arena).registry_set(
                    final(arena),
                    self@,
                    old(arena).registry_map(self@).insert(id@, node@),
                )
            },
    {
        let id = arena.tables[self.idx].add(node.ptr);
        proof {
            assert forall|i: int| arena.is_live(i) implies arena.node(i) == old(arena).node(i) by {}
            old(arena).lemma_tables_kept(arena, -1);
            crate::node::lemma_same_graph_wf(*old(arena), *arena, Set::empty());
        }
        id
    }

    /// The identifier of the node in the registry, if it has one.
    pub fn get_id<N, E>(&self, arena: &Arena<N, E>, node: &RelRc) -> (id: Option<NodeId>)
        requires
            arena.wf(),
            0 <= self@ < arena.n_registries(),
        ensures
            id matches Some(k) ==> arena.registry_map(self@).contains_key(k@) && arena.registry_map(
                self@,
            )[k@] == node@,
            id is None ==> forall|k: u64|
                arena.registry_map(self@).contains_key(k) ==> arena.registry_map(self@)[k] != node@,
    {
        arena.tables[self.idx].id_of(node.ptr)
    }

    /// The identifier of the node in the registry; the node is added to the
    /// registry if it has none.
    pub fn get_id_or_insert<N, E>(&self, arena: &mut Arena<N, E>, node: &RelRc) -> (id: NodeId)
        requires
            old(arena).wf(),
            0 <= self@ < old(arena).n_registries(),
            old(arena).registry_room(self@),
        ensures
            final(arena).wf(),
            old(arena).same_nodes(final(arena)),
            final(arena).registry_taken(self@) <= old(arena).registry_taken(self@) + 1,
            old(arena).registry_map(self@).contains_key(id@) ==> old(arena).registry_map(
                self@,
            )[id@] == node@ && old(arena).registry_set(
                final(arena),
                self@,
                old(arena).registry_map(self@),
            ),
            !old(arena).registry_map(self@).contains_key(id@) ==> {
                &&& forall|k: u64|
                    old(arena).registry_map(self@).contains_key(k) ==> old(arena).registry_map(
                        self@,
                    )[k] != node@
                &&& old(arena).registry_set(
                    final(arena),
                    self@,
                    old(arena).registry_map(self@).insert(id@, node@),
                )
            },
    {
        self.add_node(arena, node)
    }

    /// Makes a new registry in the arena and adds the given nodes to it, in
    /// their order.
    pub fn from_iter<N, E>(arena: &mut Arena<N, E>, nodes: &Vec<&RelRc>) -> (r: Registry)
        requires
            old(arena).wf(),
            nodes@.len() <= REGISTRY_LIMIT,
        ensures
            final(arena).wf(),
            old(arena).same_nodes(final(arena)),
            r@ == old(arena).n_registries(),
            final(arena).n_registries() == old(arena).n_registries() + 1,
            forall|r2: int|
                0 <= r2 < old(arena).n_registries() ==> #[trigger] final(arena).registry_map(r2)
                    == old(arena).registry_map(r2) && final(arena).registry_room(r2) == old(
                    arena,
                ).registry_room(r2),
            forall|k: u64|
                final(arena).registry_map(r@).contains_key(k) ==> exists|j: int|
                    0 <= j < nodes@.len() && (#[trigger] nodes@[j])@ == final(arena).registry_map(
                        r@,
                    )[k],
            forall|j: int|
                0 <= j < nodes@.len() ==> final(arena).registry_holds(r@, (#[trigger] nodes@[j])@),
    {
        let r = Registry::new(arena);
        let ghost made = *arena;
        let mut j: usize = 0;
        while j < nodes.len()
            invariant
                j <= nodes@.len(),
                nodes@.len() <= REGISTRY_LIMIT,
                arena.wf(),
                old(arena).same_nodes(arena),
                r@ == old(arena).n_registries(),
                arena.n_registries() == old(arena).n_registries() + 1,
                arena.registry_taken(r@) <= j,
                forall|r2: int|
                    0 <= r2 < old(arena).n_registries() ==> #[trigger] arena.registry_map(r2)
                        == old(arena).registry_map(r2) && arena.registry_room(r2) == old(
                        arena,
                    ).registry_room(r2),
                forall|k: u64|
                    arena.registry_map(r@).contains_key(k) ==> exists|j2: int|
                        0 <= j2 < j && (#[trigger] nodes@[j2])@ == arena.registry_map(r@)[k],
                forall|j2: int|
                    0 <= j2 < j ==> arena.registry_holds(r@, (#[trigger] nodes@[j2])@),
            decreases nodes@.len() - j,
        {
            let ghost prev = *arena;
            let id = r.add_node(arena, nodes[j]);
            proof {
                let before = prev.registry_map(r@);
                let after = arena.registry_map(r@);
                assert(after == before || after == before.insert(id@, nodes@[j as int]@));
                assert(after.contains_key(id@) && after[id@] == nodes@[j as int]@);
                assert forall|j2: int| 0 <= j2 < j + 1 implies arena.registry_holds(
                    r@,
                    (#[trigger] nodes@[j2])@,
                ) by {
                    if j2 < j {
                        assert(prev.registry_holds(r@, nodes@[j2]@));
                        let k = choose|k: u64|
                            before.contains_key(k) && #[trigger] before[k] == nodes@[j2]@;
                        assert(after.contains_key(k) && after[k] == nodes@[j2]@);
                    }
                }
                assert forall|r2: int| 0 <= r2 < old(arena).n_registries() implies #[trigger] arena.registry_map(
                r2) == old(arena).registry_map(r2) && arena.registry_room(r2) == old(
                    arena,
                ).registry_room(r2) by {
                    assert(arena.tables@[r2] == prev.tables@[r2]);
                    assert(prev.registry_map(r2) == old(arena).registry_map(r2));
                }
                assert forall|k: u64| after.contains_key(k) implies exists|j2: int|
                    0 <= j2 < j + 1 && (#[trigger] nodes@[j2])@ == after[k] by {
                    if before.contains_key(k) {
                        let j2 = choose|j2: int|
                            0 <= j2 < j && (#[trigger] nodes@[j2])@ == before[k];
                        assert(after[k] == before[k]);
                    } else {
                        assert(k == id@);
                        assert(nodes@[j as int]@ == after[k]);
                    }
                }
            }
            j += 1;
        }
        r
    }

    /// Whether the node has an identifier in the registry.
    pub fn contains<N, E>(&self, arena: &Arena<N, E>, node: &RelRc) -> (b: bool)
        requires
            arena.wf(),
            0 <= self@ < arena.n_registries(),
        ensures
            b == arena.registry_holds(self@, node@),
    {
        self.get_id(arena, node).is_some()
    }

    /// A strong handle on the node that has the identifier, if the node is
    /// alive. The entry of a node that has been destroyed is taken out of the
    /// registry.
    pub fn get<N, E>(&self, arena: &mut Arena<N, E>, id: NodeId) -> (node: Option<RelRc>)
        requires
            old(arena).wf(),
            0 <= self@ < old(arena).n_registries(),
        ensures
            final(arena).wf(),
            final(arena).registry_taken(self@) == old(arena).registry_taken(self@),
            node is Some == (old(arena).registry_map(self@).contains_key(id@) && old(arena).is_live(
                old(arena).registry_map(self@)[id@],
            )),
            node matches Some(n) ==> n@ == old(arena).registry_map(self@)[id@] && old(arena).held(
                final(arena),
                n@,
            ),
            node is None ==> old(arena).same_nodes(final(arena)) && old(arena).registry_set(
                final(arena),
                self@,
                old(arena).registry_map(self@).remove(id@),
            ),
    {
        match arena.tables[self.idx].ptr_of(id) {
            Some(ptr) => {
                if ptr < arena.slots.len() && arena.slots[ptr].is_some() {
                    Some(arena.hold(ptr))
                } else {
                    arena.tables[self.idx].remove(id);
                    proof {
                        assert forall|i: int| arena.is_live(i) implies arena.node(i) == old(
                            arena,
                        ).node(i) by {}
                        old(arena).lemma_tables_kept(arena, -1);
                        crate::node::lemma_same_graph_wf(*old(arena), *arena, Set::empty());
                    }
                    None
                }
            },
            None => {
                assert(old(arena).registry_map(self@).remove(id@) =~= old(arena).registry_map(
                    self@,
                ));
                None
            },
        }
    }

    /// Whether the identifier is that of a node that is alive.
    pub fn contains_id<N, E>(&self, arena: &Arena<N, E>, id: NodeId) -> (b: bool)
        requires
            arena.wf(),
            0 <= self@ < arena.n_registries(),
        ensures
            b == (arena.registry_map(self@).contains_key(id@) && arena.is_live(
                arena.registry_map(self@)[id@],
            )),
    {
        match arena.tables[self.idx].ptr_of(id) {
            Some(ptr) => ptr < arena.slots.len() && arena.slots[ptr].is_some(),
            None => false,
        }
    }

    /// Takes the entries of all nodes that have been destroyed out of the
    /// registry, and returns the number of entries that are left.
    pub fn free_node_ids<N, E>(&self, arena: &mut Arena<N, E>) -> (n: usize)
        requires
            old(arena).wf(),
            0 <= self@ < old(arena).n_registries(),
        ensures
            final(arena).wf(),
            final(arena).registry_taken(self@) == old(arena).registry_taken(self@),
            old(arena).same_nodes(final(arena)),
            old(arena).registry_set(
                final(arena),
                self@,
                old(arena).registry_map(self@).restrict(
                    Set::new(
                        |k: u64|
                            old(arena).registry_map(self@).contains_key(k) && old(arena).is_live(
                                old(arena).registry_map(self@)[k],
                            ),
                    ),
                ),
            ),
            n == final(arena).registry_map(self@).len(),
    {
        let ids = arena.tables[self.idx].ids();
        let ghost keys = ids@.map_values(|id: NodeId| id@);
        let ghost before = old(arena).registry_map(self@);
        let mut j: usize = 0;
        while j < ids.len()
            invariant
                j <= ids@.len(),
                keys == ids@.map_values(|id: NodeId| id@),
                keys.to_set() == before.dom(),
                before == old(arena).registry_map(self@),
                old(arena).wf(),
                arena.wf(),
                old(arena).same_nodes(arena),
                0 <= self@ < arena.n_registries(),
                arena.tables@.len() == old(arena).tables@.len(),
                arena.registry_taken(self@) == old(arena).registry_taken(self@),
                forall|r2: int|
                    0 <= r2 < arena.tables@.len() && r2 != self@ ==> #[trigger] arena.tables@[r2]
                        == old(arena).tables@[r2],
                forall|k: u64| #[trigger]
                    arena.registry_map(self@).contains_key(k) <==> before.contains_key(k) && (
                    old(arena).is_live(before[k]) || !keys.take(j as int).contains(k)),
                forall|k: u64| #[trigger]
                    arena.registry_map(self@).contains_key(k) ==> arena.registry_map(self@)[k]
                        == before[k],
            decreases ids@.len() - j,
        {
            let id = ids[j];
            let ghost prev = *arena;
            assert(keys[j as int] == id@);
            assert(keys.take(j + 1) == keys.take(j as int).push(id@));
            let dead = match arena.tables[self.idx].ptr_of(id) {
                Some(ptr) => !(ptr < arena.slots.len() && arena.slots[ptr].is_some()),
                None => false,
            };
            if dead {
                arena.tables[self.idx].remove(id);
                proof {
                    assert forall|i: int| arena.is_live(i) implies arena.node(i) == prev.node(
                        i,
                    ) by {}
                    prev.lemma_tables_kept(arena, -1);
                    crate::node::lemma_same_graph_wf(prev, *arena, Set::empty());
                }
            }
            proof {
                let m0 = prev.registry_map(self@);
                let m1 = arena.registry_map(self@);
                assert(m1 == (if dead {
                    m0.remove(id@)
                } else {
                    m0
                }));
                assert(dead ==> m0.contains_key(id@) && !old(arena).is_live(m0[id@]));
                assert(!dead && m0.contains_key(id@) ==> old(arena).is_live(m0[id@]));
                assert forall|k: u64| #[trigger]
                    arena.registry_map(self@).contains_key(k) <==> before.contains_key(k) && (
                    old(arena).is_live(before[k]) || !keys.take(j + 1).contains(k)) by {
                    assert(m0.contains_key(k) <==> before.contains_key(k) && (old(arena).is_live(
                        before[k],
                    ) || !keys.take(j as int).contains(k)));
                    let t0 = keys.take(j as int);
                    let t1 = keys.take(j + 1);
                    if k == id@ {
                        assert(t1[j as int] == k);
                    } else {
                        if t1.contains(k) {
                            let j2 = choose|j2: int| 0 <= j2 < t1.len() && t1[j2] == k;
                            assert(t0[j2] == k);
                        }
                        if t0.contains(k) {
                            let j2 = choose|j2: int| 0 <= j2 < t0.len() && t0[j2] == k;
                            assert(t1[j2] == k);
                        }
                    }
                }
            }
            j += 1;
        }
        proof {
            assert(keys.take(ids@.len() as int) == keys);
            let kept = before.restrict(
                Set::new(|k: u64| before.contains_key(k) && old(arena).is_live(before[k])),
            );
            assert(arena.registry_map(self@) =~= kept) by {
                assert forall|k: u64| arena.registry_map(self@).contains_key(k)
                    <==> #[trigger] kept.contains_key(k) by {
                    if before.contains_key(k) {
                        assert(keys.to_set().contains(k));
                        assert(keys.contains(k));
                    }
                }
            }
        }
        arena.tables[self.idx].len()
    }

    /// The number of entries of the registry, those of destroyed nodes that
    /// have not been pruned included.
    pub fn len<N, E>(&self, arena: &Arena<N, E>) -> (n: usize)
        requires
            arena.wf(),
            0 <= self@ < arena.n_registries(),
        ensures
            n == arena.registry_map(self@).len(),
    {
        arena.tables[self.idx].len()
    }

    /// Whether the registry has no entry.
    pub fn is_empty<N, E>(&self, arena: &Arena<N, E>) -> (b: bool)
        requires
            arena.wf(),
            0 <= self@ < arena.n_registries(),
        ensures
            b == (arena.registry_map(self@).len() == 0),
    {
        self.len(arena) == 0
    }

    /// The number of entries whose node is alive. The other entries are
    /// taken out of the registry.
    pub fn live_count<N, E>(&self, arena: &mut Arena<N, E>) -> (n: usize)
        requires
            old(arena).wf(),
            0 <= self@ < old(arena).n_registries(),
        ensures
            final(arena).wf(),
            final(arena).registry_taken(self@) == old(arena).registry_taken(self@),
            old(arena).same_nodes(final(arena)),
            old(arena).registry_set(
                final(arena),
                self@,
                old(arena).registry_map(self@).restrict(
                    Set::new(
                        |k: u64|
                            old(arena).registry_map(self@).contains_key(k) && old(arena).is_live(
                                old(arena).registry_map(self@)[k],
                            ),
                    ),
                ),
            ),
            n == final(arena).registry_map(self@).len(),
    {
        self.free_node_ids(arena)
    }

    /// Takes the entry of the identifier out of the registry.
    pub fn remove<N, E>(&self, arena: &mut Arena<N, E>, id: NodeId)
        requires
            old(arena).wf(),
            0 <= self@ < old(arena).n_registries(),
        ensures
            final(arena).wf(),
            final(arena).registry_taken(self@) == old(arena).registry_taken(self@),
            old(arena).same_nodes(final(arena)),
            old(arena).registry_set(
                final(arena),
                self@,
                old(arena).registry_map(self@).remove(id@),
            ),
    {
        arena.tables[self.idx].remove(id);
        proof {
            assert forall|i: int| arena.is_live(i) implies arena.node(i) == old(arena).node(i) by {}
            old(arena).lemma_tables_kept(arena, -1);
            crate::node::lemma_same_graph_wf(*old(arena), *arena, Set::empty());
        }
    }

    /// Whether two handles denote the same registry.
    pub fn ptr_eq(&self, other: &Registry) -> (b: bool)
        ensures
            b == (self@ == other@),
    {
        self.idx == other.idx
    }
}

impl RelRc {
    /// Registers the node in the registry and returns its identifier there.
    ///
    /// A node is tracked by one registry at most. If another registry tracks
    /// the node already, nothing changes and `None` is returned.
    ///
    /// When the node is destroyed, its entry leaves the registry.
    pub fn try_register_in<N, E>(&self, arena: &mut Arena<N, E>, registry: &Registry) -> (id: Option<
        NodeId,
    >)
        requires
            old(arena).wf(),
            old(arena).is_live(self@),
            0 <= registry@ < old(arena).n_registries(),
            old(arena).registry_room(registry@),
        ensures
            final(arena).wf(),
            final(arena).registry_taken(registry@) <= old(arena).registry_taken(registry@) + 1,
            id is None <==> (old(arena).node(self@).registry matches Some(r) && r != registry@),
            id is None ==> *final(arena) == *old(arena),
            id matches Some(k) ==> {
                &&& final(arena).len() == old(arena).len()
                &&& forall|j: int| final(arena).is_live(j) == old(arena).is_live(j)
                &&& forall|j: int|
                    old(arena).is_live(j) ==> #[trigger] final(arena).node(j) == (if j == self@ {
                        crate::node::NodeView {
                            registry: Some(registry@),
                            ..old(arena).node(j)
                        }
                    } else {
                        old(arena).node(j)
                    })
                &&& final(arena).registry_map(registry@).contains_key(k@)
                &&& final(arena).registry_map(registry@)[k@] == self@
                &&& old(arena).registry_set(
                    final(arena),
                    registry@,
                    old(arena).registry_map(registry@).insert(k@, self@),
                )
            },
    {
        let i = self.ptr;
        let elsewhere = match &arena.slots[i] {
            Some(d) => match d.registry {
                Some(r) => r.idx != registry.idx,
                None => false,
            },
            None => false,
        };
        if elsewhere {
            return None;
        }
        let ghost before = *arena;
        match &mut arena.slots[i] {
            Some(d) => {
                d.registry = Some(*registry);
            },
            None => {},
        }
        let ghost linked = *arena;
        proof {
            assert(linked.node(i as int).incoming =~= before.node(i as int).incoming);
            assert(linked.node(i as int).outgoing =~= before.node(i as int).outgoing);
            assert forall|j: int| before.is_live(j) && j != i implies linked.node(j) == before.node(
                j,
            ) by {}
            before.lemma_tables_kept(&linked, i as int);
            crate::node::lemma_same_graph_wf(before, linked, Set::empty());
        }
        let id = arena.tables[registry.idx].add(i);
        proof {
            assert forall|j: int| arena.is_live(j) implies arena.node(j) == linked.node(j) by {}
            linked.lemma_tables_kept(arena, -1);
            crate::node::lemma_same_graph_wf(linked, *arena, Set::empty());
            if before.registry_map(registry@).contains_key(id@) {
                assert(before.registry_map(registry@).insert(id@, self@) =~= before.registry_map(
                    registry@,
                ));
            }
        }
        Some(id)
    }

    /// The registry that tracks the node, if there is one.
    pub fn registry<N, E>(&self, arena: &Arena<N, E>) -> (r: Option<Registry>)
        requires
            arena.is_live(self@),
        ensures
            r is Some == arena.node(self@).registry is Some,
            r matches Some(x) ==> arena.node(self@).registry == Some(x@),
    {
        arena.get(self).registry
    }
}

} // verus!
