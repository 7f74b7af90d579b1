//! Nodes, the arena that stores them, and the handles that keep them alive.

use crate::edge::{EdgeView, InnerEdgeData, WeakEdge};
use crate::hash_id::{content_hash, RelRcHash};
use crate::registry::{Registry, RegistryTable};
use std::hash::Hash;
use vstd::prelude::*;

verus! {

/// What a live node is, as a mathematical value.
pub struct NodeView<N, E> {
    /// The value of the node.
    pub value: N,
    /// The incoming edges, in the order fixed at creation.
    pub incoming: Seq<EdgeView<E>>,
    /// The weak back-references to the edges that start at this node, each
    /// given by its target and its position at the target. Entries whose
    /// target has been destroyed stay until the list is next pruned.
    pub outgoing: Seq<(int, int)>,
    /// The number of strong handles on the node.
    pub handles: nat,
    /// The content identity of the node.
    pub hash: RelRcHash,
    /// The registry that tracks the node, if there is one.
    pub registry: Option<int>,
}

/// A strong handle on a node of an arena.
///
/// A node with at least one strong handle is alive, and so are all its
/// ancestors. A handle is made by [`RelRc::new`], [`RelRc::with_parents`],
/// [`RelRc::clone_ref`] or by upgrading a weak reference, and is given back
/// with [`RelRc::release`]. Its view is the position of the node in the arena,
/// which is the identity of the node.
#[derive(Debug)]
pub struct RelRc {
    pub(crate) ptr: usize,
}

impl View for RelRc {
    type V = int;

    open(crate) spec fn view(&self) -> int {
        self.ptr as int
    }
}

/// A weak reference to a node of an arena. It does not keep the node alive.
#[derive(Clone, Copy, Debug)]
pub struct RelWeak {
    pub(crate) ptr: usize,
}

impl View for RelWeak {
    type V = int;

    open(crate) spec fn view(&self) -> int {
        self.ptr as int
    }
}

/// The data of a live node.
///
/// The node is the sole owner of its incoming edges. The outgoing edges are
/// weak back-references: they do not keep the children alive.
#[derive(Debug)]
pub struct InnerData<N, E> {
    /// The value of the node.
    pub(crate) value: N,
    /// The incoming edges. Their order and position never change.
    pub(crate) incoming: Vec<InnerEdgeData<E>>,
    /// The outgoing edges (weak references).
    pub(crate) outgoing: Vec<WeakEdge>,
    /// The registry that tracks this node, if there is one.
    pub(crate) registry: Option<Registry>,
    /// The number of strong handles on this node.
    pub(crate) handles: usize,
    /// The content identity of this node.
    pub(crate) hash: RelRcHash,
}

impl<N, E> View for InnerData<N, E> {
    type V = NodeView<N, E>;

    open(crate) spec fn view(&self) -> NodeView<N, E> {
        NodeView {
            value: self.value,
            incoming: self.incoming@.map_values(|e: InnerEdgeData<E>| e@),
            outgoing: self.outgoing@.map_values(|w: WeakEdge| w@),
            handles: self.handles as nat,
            hash: self.hash,
            registry: match self.registry {
                Some(r) => Some(r@),
                None => None,
            },
        }
    }
}

/// The number of handles after one more is made. A count that has reached the
/// largest machine integer stays there, and the node is never destroyed.
pub open spec fn bump(c: nat) -> nat {
    if c >= usize::MAX {
        c
    } else {
        c + 1
    }
}

/// The number of handles after one is given back.
pub open spec fn unbump(c: nat) -> nat {
    if c >= usize::MAX || c == 0 {
        c
    } else {
        (c - 1) as nat
    }
}

/// The back-references that a new node at position `n` with the given parents
/// adds to the outgoing list of the node at position `i`: one for every edge
/// whose source is `i`, in the order of the edges.
pub open spec fn backrefs(parents: Seq<int>, i: int, n: int) -> Seq<(int, int)>
    decreases parents.len(),
{
    if parents.len() == 0 {
        Seq::empty()
    } else if parents.last() == i {
        backrefs(parents.drop_last(), i, n).push((n, parents.len() - 1))
    } else {
        backrefs(parents.drop_last(), i, n)
    }
}

/// Every back-reference points at an edge of the new node whose source is `i`.
pub proof fn lemma_backrefs_sound(parents: Seq<int>, i: int, n: int, j: int)
    requires
        0 <= j < backrefs(parents, i, n).len(),
    ensures
        backrefs(parents, i, n)[j].0 == n,
        0 <= backrefs(parents, i, n)[j].1 < parents.len(),
        parents[backrefs(parents, i, n)[j].1] == i,
    decreases parents.len(),
{
    if parents.len() > 0 {
        let rest = backrefs(parents.drop_last(), i, n);
        if j < rest.len() {
            lemma_backrefs_sound(parents.drop_last(), i, n, j);
        }
    }
}

/// Every edge of the new node whose source is `i` has its back-reference.
pub proof fn lemma_backrefs_complete(parents: Seq<int>, i: int, n: int, k: int)
    requires
        0 <= k < parents.len(),
        parents[k] == i,
    ensures
        backrefs(parents, i, n).contains((n, k)),
    decreases parents.len(),
{
    let all = backrefs(parents, i, n);
    if k == parents.len() - 1 {
        assert(all[all.len() - 1] == (n, k));
    } else {
        lemma_backrefs_complete(parents.drop_last(), i, n, k);
        let rest = backrefs(parents.drop_last(), i, n);
        let j = choose|j: int| 0 <= j < rest.len() && rest[j] == (n, k);
        assert(all[j] == (n, k));
    }
}

/// The back-references that a new node adds have each their own edge: none
/// comes twice.
pub proof fn lemma_backrefs_once(parents: Seq<int>, i: int, n: int)
    ensures
        backrefs(parents, i, n).no_duplicates(),
    decreases parents.len(),
{
    if parents.len() > 0 {
        let rest = backrefs(parents.drop_last(), i, n);
        lemma_backrefs_once(parents.drop_last(), i, n);
        if parents.last() == i {
            let all = rest.push((n, parents.len() - 1));
            assert forall|a: int, b: int| 0 <= a < b < all.len() implies all[a] != all[b] by {
                if b == rest.len() {
                    lemma_backrefs_sound(parents.drop_last(), i, n, a);
                }
            }
        }
    }
}

/// A node that is no parent of the new node gets no back-reference.
pub proof fn lemma_backrefs_none(parents: Seq<int>, i: int, n: int)
    requires
        forall|k: int| 0 <= k < parents.len() ==> parents[k] != i,
    ensures
        backrefs(parents, i, n) == Seq::<(int, int)>::empty(),
    decreases parents.len(),
{
    if parents.len() > 0 {
        lemma_backrefs_none(parents.drop_last(), i, n);
    }
}

/// An arena of nodes.
///
/// A node is identified by its position in the arena. Positions are handed
/// out in the order of creation and are never used again, so a parent always
/// has a smaller position than its children.
pub struct Arena<N, E> {
    pub(crate) slots: Vec<Option<InnerData<N, E>>>,
    pub(crate) tables: Vec<RegistryTable>,
}

impl<N, E> Arena<N, E> {
    /// The number of positions of the arena, live or not.
    pub open(crate) spec fn len(&self) -> nat {
        self.slots@.len()
    }

    /// Whether the node at position `i` is alive.
    pub open(crate) spec fn is_live(&self, i: int) -> bool {
        0 <= i < self.slots@.len() && self.slots@[i] is Some
    }

    /// The live node at position `i`.
    pub open(crate) spec fn node(&self, i: int) -> NodeView<N, E> {
        self.slots@[i].unwrap()@
    }

    /// The `k`-th incoming edge of the node at position `i`.
    pub open spec fn edge(&self, i: int, k: int) -> EdgeView<E> {
        self.node(i).incoming[k]
    }

    /// The `j`-th back-reference of the node at position `i`.
    pub open spec fn out(&self, i: int, j: int) -> (int, int) {
        self.node(i).outgoing[j]
    }

    /// The sources of the incoming edges of the node at position `i`.
    pub open spec fn parents_of(&self, i: int) -> Seq<int> {
        self.node(i).incoming.map_values(|e: EdgeView<E>| e.source)
    }

    /// The number of registries of the arena.
    pub open(crate) spec fn n_registries(&self) -> nat {
        self.tables@.len()
    }

    /// What the registry at position `r` holds: the position of the node
    /// under each identifier.
    pub open(crate) spec fn registry_map(&self, r: int) -> Map<u64, int> {
        self.tables@[r]@
    }

    /// Whether the registries of two arenas are the same.
    pub open(crate) spec fn same_tables(&self, other: &Self) -> bool {
        self.tables@ == other.tables@
    }

    /// Every registry is well formed, and a live node is tracked by a
    /// registry of this arena, if by any.
    pub open(crate) spec fn tables_wf(&self) -> bool {
        &&& forall|r: int| 0 <= r < self.tables@.len() ==> (#[trigger] self.tables@[r]).wf()
        &&& forall|i: int|
            self.is_live(i) ==> match (#[trigger] self.node(i)).registry {
                Some(r) => 0 <= r < self.tables@.len(),
                None => true,
            }
    }

    /// Whether the node at position `j`, tracked by the registry at `r`, is
    /// alive in this arena and not in `after`.
    pub open spec fn reaped(&self, after: &Self, j: int, r: int) -> bool {
        self.is_live(j) && !after.is_live(j) && self.node(j).registry == Some(r)
    }

    /// The parents of a live node are alive, were created before it, and its
    /// edges name it as their target.
    pub open spec fn parents_wf(&self) -> bool {
        forall|i: int, k: int|
            self.is_live(i) && 0 <= k < self.node(i).incoming.len() ==> {
                &&& 0 <= (#[trigger] self.edge(i, k)).source < i
                &&& self.is_live(self.edge(i, k).source)
                &&& self.edge(i, k).target == i
            }
    }

    /// A back-reference of a live node points at a later position, and where
    /// that node is alive, at an edge of it that starts at this node.
    pub open spec fn outgoing_wf(&self) -> bool {
        forall|i: int, j: int|
            self.is_live(i) && 0 <= j < self.node(i).outgoing.len() ==> {
                &&& i < (#[trigger] self.out(i, j)).0 < self.len()
                &&& 0 <= self.out(i, j).1
                &&& self.is_live(self.out(i, j).0) ==> {
                    &&& self.out(i, j).1 < self.node(self.out(i, j).0).incoming.len()
                    &&& self.edge(self.out(i, j).0, self.out(i, j).1).source == i
                }
            }
    }

    /// No live node has a back-reference twice.
    pub open spec fn outgoing_once(&self) -> bool {
        forall|i: int| self.is_live(i) ==> (#[trigger] self.node(i)).outgoing.no_duplicates()
    }

    /// Every incoming edge of a live node is known to its source.
    pub open spec fn backrefs_wf(&self) -> bool {
        forall|i: int, k: int|
            self.is_live(i) && 0 <= k < self.node(i).incoming.len() ==> self.node(
                (#[trigger] self.edge(i, k)).source,
            ).outgoing.contains((i, k))
    }

    /// Whether the node at position `i` has a child that is alive.
    pub open spec fn has_live_child(&self, i: int) -> bool {
        exists|j: int|
            0 <= j < self.node(i).outgoing.len() && self.is_live((#[trigger] self.out(i, j)).0)
    }

    /// Whether something keeps the node at position `i` alive: a strong handle
    /// or a live child.
    pub open spec fn justified(&self, i: int) -> bool {
        self.node(i).handles > 0 || self.has_live_child(i)
    }

    /// The invariant of the arena, but that the nodes in `suspects` may be
    /// alive with nothing that keeps them alive.
    pub open spec fn wf_except(&self, suspects: Set<int>) -> bool {
        &&& self.parents_wf()
        &&& self.outgoing_wf()
        &&& self.outgoing_once()
        &&& self.backrefs_wf()
        &&& self.tables_wf()
        &&& forall|i: int| self.is_live(i) && !suspects.contains(i) ==> #[trigger] self.justified(i)
    }

    /// The invariant of the arena: the parents of a live node are alive, the
    /// back-references are those of the live edges and of edges that have
    /// been destroyed, and a node is alive only while a strong handle or a
    /// live child keeps it alive. Every registry is well formed.
    pub open spec fn wf(&self) -> bool {
        self.wf_except(Set::empty())
    }

    /// `after` is this arena with one more node at position `n`, which has the
    /// given value, the given parents and edge values, and one strong handle.
    /// The parents have learnt of the new edges; nothing else has changed.
    pub open spec fn created(
        &self,
        after: &Self,
        n: int,
        value: N,
        parents: Seq<int>,
        edges: Seq<E>,
    ) -> bool {
        &&& n == self.len()
        &&& after.len() == self.len() + 1
        &&& after.is_live(n)
        &&& after.node(n).value == value
        &&& after.node(n).incoming =~= Seq::new(
            parents.len(),
            |k: int| EdgeView { value: edges[k], source: parents[k], target: n },
        )
        &&& after.node(n).outgoing =~= Seq::<(int, int)>::empty()
        &&& after.node(n).handles == 1
        &&& after.node(n).registry is None
        &&& after.same_tables(self)
        &&& forall|i: int| 0 <= i < self.len() ==> after.is_live(i) == self.is_live(i)
        &&& forall|i: int|
            self.is_live(i) ==> #[trigger] after.node(i) == (NodeView {
                outgoing: self.node(i).outgoing + backrefs(parents, i, n),
                ..self.node(i)
            })
    }

    /// `after` is this arena with some nodes destroyed: what is alive in
    /// `after` was alive before and, but for the node at `i`, which has the
    /// handle count `handles`, has not changed; and only nodes without a
    /// strong handle have been destroyed.
    pub open spec fn shrunk(&self, after: &Self, i: int, handles: nat) -> bool {
        &&& after.len() == self.len()
        &&& forall|j: int| after.is_live(j) ==> self.is_live(j)
        &&& forall|j: int|
            after.is_live(j) ==> #[trigger] after.node(j) == (if j == i {
                NodeView { handles: handles, ..self.node(j) }
            } else {
                self.node(j)
            })
        &&& forall|j: int|
            self.is_live(j) && !after.is_live(j) ==> (if j == i {
                handles
            } else {
                (#[trigger] self.node(j)).handles
            }) == 0
        &&& after.n_registries() == self.n_registries()
        &&& forall|r: int|
            0 <= r < self.n_registries() ==> #[trigger] after.registry_taken(r)
                == self.registry_taken(r)
        &&& forall|r: int, k: u64|
            0 <= r < self.n_registries() ==> (#[trigger] after.registry_map(r).contains_key(k)
                <==> self.registry_map(r).contains_key(k) && !self.reaped(
                after,
                self.registry_map(r)[k],
                r,
            ))
        &&& forall|r: int, k: u64|
            0 <= r < self.n_registries() && #[trigger] after.registry_map(r).contains_key(k)
                ==> after.registry_map(r)[k] == self.registry_map(r)[k]
    }

    /// A new arena is well formed.
    pub fn new() -> (arena: Self)
        ensures
            arena.wf(),
            arena.len() == 0,
            arena.n_registries() == 0,
    {
        Arena { slots: Vec::new(), tables: Vec::new() }
    }

    /// The number of positions of the arena, live or not.
    pub fn n_slots(&self) -> (n: usize)
        ensures
            n == self.len(),
    {
        self.slots.len()
    }

    /// Whether the handle denotes a live node of this arena.
    pub fn contains(&self, node: &RelRc) -> (b: bool)
        ensures
            b == self.is_live(node@),
    {
        node.ptr < self.slots.len() && self.slots[node.ptr].is_some()
    }

    /// The data of a live node.
    pub fn get(&self, node: &RelRc) -> (data: &InnerData<N, E>)
        requires
            self.is_live(node@),
        ensures
            data@ == self.node(node@),
    {
        self.slots[node.ptr].as_ref().unwrap()
    }

    /// Whether the node at position `i` has a child that is alive.
    pub(crate) fn live_child(&self, i: usize) -> (b: bool)
        requires
            self.outgoing_wf(),
            self.is_live(i as int),
        ensures
            b == self.has_live_child(i as int),
    {
        let data = self.slots[i].as_ref().unwrap();
        let mut j: usize = 0;
        while j < data.outgoing.len()
            invariant
                self.outgoing_wf(),
                self.is_live(i as int),
                data == self.slots@[i as int].unwrap(),
                j <= data.outgoing@.len(),
                forall|j2: int| 0 <= j2 < j ==> !self.is_live((#[trigger] self.out(i as int, j2)).0),
            decreases data.outgoing@.len() - j,
        {
            let t = data.outgoing[j].target.ptr;
            assert(self.out(i as int, j as int).0 == t);
            if self.slots[t].is_some() {
                return true;
            }
            j += 1;
        }
        false
    }

    /// Destroys the node at position `i` if nothing keeps it alive any more,
    /// and then those of its ancestors that this leaves without support. A
    /// node that is destroyed leaves the registry that tracks it.
    pub(crate) fn reap(&mut self, i: usize, Ghost(suspects): Ghost<Set<int>>)
        requires
            old(self).wf_except(suspects),
            i < old(self).len(),
        ensures
            final(self).wf_except(suspects.remove(i as int)),
            old(self).shrunk(final(self), -1, 0),
            forall|j: int| old(self).is_live(j) && !final(self).is_live(j) ==> j <= i,
        decreases i,
    {
        let unheld = match &self.slots[i] {
            Some(d) => d.handles == 0,
            None => false,
        };
        if !unheld {
            return ;
        }
        if self.live_child(i) {
            return ;
        }
        let ghost before = *self;
        let data = self.slots[i].take();
        match data {
            Some(d) => {
                let ghost taken = *self;
                match d.registry {
                    Some(r) => {
                        self.tables[r.idx].forget(i);
                    },
                    None => {},
                }
                let ghost mid = *self;
                let ghost fading = Set::new(
                    |p: int| exists|k: int| 0 <= k < d@.incoming.len() && d@.incoming[k].source == p,
                );
                proof {
                    assert(d@ == before.node(i as int));
                    assert forall|j: int| j != i implies mid.is_live(j) == before.is_live(j) by {}
                    assert forall|j: int| mid.is_live(j) implies mid.node(j) == before.node(j) by {}
                    before.lemma_unlinked(&mid, i as int, suspects);
                    assert(before.shrunk(&mid, -1, 0));
                    assert forall|j: int|
                        mid.is_live(j) && !suspects.remove(i as int).union(fading).contains(
                            j,
                        ) implies #[trigger] mid.justified(j) by {
                        assert(before.justified(j));
                        if before.node(j).handles == 0 {
                            let w = choose|w: int|
                                0 <= w < before.node(j).outgoing.len() && before.is_live(
                                    (#[trigger] before.out(j, w)).0,
                                );
                            if before.out(j, w).0 == i {
                                let k = before.out(j, w).1;
                                assert(before.edge(i as int, k).source == j);
                                assert(d@.incoming[k].source == j);
                                assert(fading.contains(j));
                            }
                            assert(mid.is_live(mid.out(j, w).0));
                        }
                    }
                    assert(mid.wf_except(suspects.remove(i as int).union(fading)));
                    assert forall|k: int| 0 <= k < d@.incoming.len() implies 0 <= (
                    #[trigger] d@.incoming[k]).source < i by {
                        assert(before.edge(i as int, k) == d@.incoming[k]);
                    }
                }
                let incoming = d.incoming;
                let mut k: usize = 0;
                while k < incoming.len()
                    invariant
                        k <= incoming@.len(),
                        i < self.len(),
                        incoming@.len() == d@.incoming.len(),
                        forall|k2: int|
                            0 <= k2 < incoming@.len() ==> (#[trigger] incoming@[k2])@
                                == d@.incoming[k2],
                        forall|k2: int|
                            0 <= k2 < d@.incoming.len() ==> 0 <= (#[trigger] d@.incoming[k2]).source
                                < i,
                        self.wf_except(
                            suspects.remove(i as int).union(
                                Set::new(
                                    |p: int|
                                        exists|k2: int|
                                            k <= k2 < d@.incoming.len() && d@.incoming[k2].source
                                                == p,
                                ),
                            ),
                        ),
                        before.shrunk(self, -1, 0),
                        forall|j: int| before.is_live(j) && !self.is_live(j) ==> j <= i,
                    decreases incoming@.len() - k,
                {
                    let p = incoming[k].source.ptr;
                    let ghost pending = suspects.remove(i as int).union(
                        Set::new(
                            |p: int|
                                exists|k2: int|
                                    k <= k2 < d@.incoming.len() && d@.incoming[k2].source == p,
                        ),
                    );
                    let ghost next = suspects.remove(i as int).union(
                        Set::new(
                            |p: int|
                                exists|k2: int|
                                    k + 1 <= k2 < d@.incoming.len() && d@.incoming[k2].source == p,
                        ),
                    );
                    let ghost inner = *self;
                    assert(incoming@[k as int]@ == d@.incoming[k as int]);
                    self.reap(p, Ghost(pending));
                    proof {
                        assert forall|j: int|
                            self.is_live(j) && !next.contains(j) implies #[trigger] self.justified(
                            j,
                        ) by {
                            if j != p && pending.contains(j) && !suspects.remove(i as int).contains(
                                j,
                            ) {
                                let k2 = choose|k2: int|
                                    k <= k2 < d@.incoming.len() && d@.incoming[k2].source == j;
                                assert(k2 != k);
                                assert(k + 1 <= k2);
                            }
                            assert(!pending.remove(p as int).contains(j));
                        }
                        before.lemma_shrunk_trans(&inner, self);
                    }
                    k += 1;
                }
                proof {
                    let rest = Set::new(
                        |p: int|
                            exists|k2: int|
                                k <= k2 < d@.incoming.len() && d@.incoming[k2].source == p,
                    );
                    assert forall|j: int|
                        self.is_live(j) && !suspects.remove(i as int).contains(
                            j,
                        ) implies #[trigger] self.justified(j) by {
                        assert(!rest.contains(j));
                        assert(!suspects.remove(i as int).union(rest).contains(j));
                    }
                }
            },
            None => {},
        }
    }

    /// Taking a live node without handles and without live children out of
    /// the arena, and out of the registry that tracks it, leaves the graph and
    /// the registries well formed.
    pub(crate) proof fn lemma_unlinked(&self, after: &Self, i: int, suspects: Set<int>)
        requires
            self.wf_except(suspects),
            self.is_live(i),
            self.node(i).handles == 0,
            !self.has_live_child(i),
            after.len() == self.len(),
            !after.is_live(i),
            forall|j: int| j != i ==> after.is_live(j) == self.is_live(j),
            forall|j: int| after.is_live(j) ==> after.node(j) == self.node(j),
            after.tables@.len() == self.tables@.len(),
            forall|r: int|
                0 <= r < self.tables@.len() && self.node(i).registry != Some(r)
                    ==> #[trigger] after.tables@[r] == self.tables@[r],
            forall|r: int|
                0 <= r < self.tables@.len() && self.node(i).registry == Some(r) ==> {
                    &&& (#[trigger] after.tables@[r]).wf()
                    &&& after.tables@[r].opened() == self.tables@[r].opened()
                    &&& forall|k: u64| #[trigger]
                        after.tables@[r]@.contains_key(k) <==> self.tables@[r]@.contains_key(k)
                            && self.tables@[r]@[k] != i
                    &&& forall|k: u64| #[trigger]
                        after.tables@[r]@.contains_key(k) ==> after.tables@[r]@[k]
                            == self.tables@[r]@[k]
                },
        ensures
            after.parents_wf(),
            after.outgoing_wf(),
            after.backrefs_wf(),
            after.tables_wf(),
            self.shrunk(after, -1, 0),
    {
        // No live node has the destroyed node as a parent.
        assert forall|j: int, k: int|
            after.is_live(j) && 0 <= k < after.node(j).incoming.len() implies (
        #[trigger] after.edge(j, k)).source != i by {
            if self.edge(j, k).source == i {
                assert(self.node(i).outgoing.contains((j, k)));
                let w = choose|w: int|
                    0 <= w < self.node(i).outgoing.len() && self.node(i).outgoing[w] == (j, k);
                assert(self.out(i, w).0 == j);
            }
        }
        assert forall|j: int, k: int|
            after.is_live(j) && 0 <= k < after.node(j).incoming.len() implies {
            &&& 0 <= (#[trigger] after.edge(j, k)).source < j
            &&& after.is_live(after.edge(j, k).source)
            &&& after.edge(j, k).target == j
            &&& after.node(after.edge(j, k).source).outgoing.contains((j, k))
        } by {
            assert(self.edge(j, k) == after.edge(j, k));
        }
        assert forall|j: int, w: int|
            after.is_live(j) && 0 <= w < after.node(j).outgoing.len() implies {
            &&& j < (#[trigger] after.out(j, w)).0 < after.len()
            &&& 0 <= after.out(j, w).1
            &&& after.is_live(after.out(j, w).0) ==> {
                &&& after.out(j, w).1 < after.node(after.out(j, w).0).incoming.len()
                &&& after.edge(after.out(j, w).0, after.out(j, w).1).source == j
            }
        } by {
            assert(self.out(j, w) == after.out(j, w));
        }
        assert(after.tables_wf()) by {
            assert forall|r: int| 0 <= r < after.tables@.len() implies (
            #[trigger] after.tables@[r]).wf() by {
                if self.node(i).registry != Some(r) {
                    assert(after.tables@[r] == self.tables@[r]);
                }
            }
            assert forall|j: int| after.is_live(j) implies match (#[trigger] after.node(
                j,
            )).registry {
                Some(r) => 0 <= r < after.tables@.len(),
                None => true,
            } by {
                assert(self.is_live(j));
                assert(after.node(j) == self.node(j));
            }
        }
        assert forall|r: int, k: u64| 0 <= r < self.n_registries() implies (
        #[trigger] after.registry_map(r).contains_key(k) <==> self.registry_map(r).contains_key(k)
            && !self.reaped(after, self.registry_map(r)[k], r)) by {
            if self.node(i).registry != Some(r) {
                assert(after.tables@[r] == self.tables@[r]);
            }
        }
        assert forall|r: int, k: u64|
            0 <= r < self.n_registries() && #[trigger] after.registry_map(r).contains_key(
                k,
            ) implies after.registry_map(r)[k] == self.registry_map(r)[k] by {
            if self.node(i).registry != Some(r) {
                assert(after.tables@[r] == self.tables@[r]);
            }
        }
        assert forall|r: int| 0 <= r < self.n_registries() implies #[trigger] after.registry_taken(
            r,
        ) == self.registry_taken(r) by {
            if self.node(i).registry != Some(r) {
                assert(after.tables@[r] == self.tables@[r]);
            } else {
                let t = after.tables@[r];
            }
        }
    }

    /// Destroying nodes in two steps is destroying them in one.
    pub proof fn lemma_shrunk_trans(&self, mid: &Self, after: &Self)
        requires
            self.shrunk(mid, -1, 0),
            mid.shrunk(after, -1, 0),
        ensures
            self.shrunk(after, -1, 0),
    {
        assert forall|j: int| after.is_live(j) implies #[trigger] after.node(j) == self.node(j)
            && self.is_live(j) by {
            assert(mid.is_live(j));
            assert(after.node(j) == mid.node(j));
            assert(mid.node(j) == self.node(j));
        }
        assert forall|j: int| self.is_live(j) && !after.is_live(j) implies (#[trigger] self.node(
            j,
        )).handles == 0 by {
            if mid.is_live(j) {
                assert(mid.node(j) == self.node(j));
            }
        }
        assert forall|r: int, k: u64| 0 <= r < self.n_registries() implies (
        #[trigger] after.registry_map(r).contains_key(k) <==> self.registry_map(r).contains_key(k)
            && !self.reaped(after, self.registry_map(r)[k], r)) by {
            let j = self.registry_map(r)[k];
            if self.registry_map(r).contains_key(k) {
                if mid.registry_map(r).contains_key(k) {
                    assert(mid.registry_map(r)[k] == j);
                    if mid.is_live(j) {
                        assert(mid.node(j) == self.node(j));
                    }
                }
            } else {
                assert(!mid.registry_map(r).contains_key(k));
            }
        }
        assert forall|r: int, k: u64|
            0 <= r < self.n_registries() && #[trigger] after.registry_map(r).contains_key(
                k,
            ) implies after.registry_map(r)[k] == self.registry_map(r)[k] by {
            assert(mid.registry_map(r).contains_key(k));
        }
    }
}

/// The number of handles on a node that had `c` of them after `n` have been
/// given back.
pub open spec fn less(c: nat, n: nat) -> nat {
    if c >= usize::MAX {
        c
    } else if n <= c {
        (c - n) as nat
    } else {
        0
    }
}

impl<N, E> Arena<N, E> {
    /// `after` is this arena with strong handles given back: a node that is
    /// alive in `after` was alive before and has not changed, but that it
    /// has `handles(j)` strong handles, `j` being its position; only nodes
    /// for which that count is zero have been destroyed; and a registry has
    /// lost the nodes that it tracked and that have been destroyed, and no
    /// others.
    pub open spec fn given_back(&self, after: &Self, handles: spec_fn(int) -> nat) -> bool {
        &&& after.len() == self.len()
        &&& forall|j: int| after.is_live(j) ==> self.is_live(j)
        &&& forall|j: int|
            after.is_live(j) ==> #[trigger] after.node(j) == (NodeView {
                handles: handles(j),
                ..self.node(j)
            })
        &&& forall|j: int| #[trigger] self.is_live(j) && !after.is_live(j) ==> handles(j) == 0
        &&& after.n_registries() == self.n_registries()
        &&& forall|r: int|
            0 <= r < self.n_registries() ==> #[trigger] after.registry_taken(r)
                == self.registry_taken(r)
        &&& forall|r: int, k: u64|
            0 <= r < self.n_registries() ==> (#[trigger] after.registry_map(r).contains_key(k)
                <==> self.registry_map(r).contains_key(k) && !self.reaped(
                after,
                self.registry_map(r)[k],
                r,
            ))
        &&& forall|r: int, k: u64|
            0 <= r < self.n_registries() && #[trigger] after.registry_map(r).contains_key(k)
                ==> after.registry_map(r)[k] == self.registry_map(r)[k]
    }

    /// Nothing has been given back yet.
    pub proof fn lemma_given_back_none(&self)
        ensures
            self.given_back(self, |j: int| self.node(j).handles),
    {
    }

    /// Giving one more handle back, on the node at `i`, which is left with
    /// `handles` of them.
    pub proof fn lemma_given_back_more(
        &self,
        mid: &Self,
        after: &Self,
        counts: spec_fn(int) -> nat,
        i: int,
        handles: nat,
    )
        requires
            self.given_back(mid, counts),
            mid.is_live(i),
            mid.shrunk(after, i, handles),
        ensures
            self.given_back(
                after,
                |j: int|
                    if j == i {
                        handles
                    } else {
                        counts(j)
                    },
            ),
    {
        let next = |j: int|
            if j == i {
                handles
            } else {
                counts(j)
            };
        assert forall|j: int| after.is_live(j) implies self.is_live(j) && #[trigger] after.node(j)
            == (NodeView { handles: next(j), ..self.node(j) }) by {
            assert(mid.is_live(j));
            let x = mid.node(j);
        }
        assert forall|j: int| #[trigger] self.is_live(j) && !after.is_live(j) implies next(j)
            == 0 by {
            if mid.is_live(j) {
                let x = mid.node(j);
            }
        }
        assert forall|r: int, k: u64| 0 <= r < self.n_registries() implies (
        #[trigger] after.registry_map(r).contains_key(k) <==> self.registry_map(r).contains_key(k)
            && !self.reaped(after, self.registry_map(r)[k], r)) by {
            let j = self.registry_map(r)[k];
            if self.registry_map(r).contains_key(k) {
                if mid.registry_map(r).contains_key(k) {
                    assert(mid.registry_map(r)[k] == j);
                    if mid.is_live(j) {
                        let x = mid.node(j);
                    }
                }
            } else {
                assert(!mid.registry_map(r).contains_key(k));
            }
        }
        assert forall|r: int, k: u64|
            0 <= r < self.n_registries() && #[trigger] after.registry_map(r).contains_key(
                k,
            ) implies after.registry_map(r)[k] == self.registry_map(r)[k] by {
            assert(mid.registry_map(r).contains_key(k));
        }
    }
}

impl RelRc {
    /// Creates a node without parents and returns the strong handle on it.
    pub fn new<N: Hash, E: Hash>(arena: &mut Arena<N, E>, value: N) -> (node: RelRc)
        requires
            old(arena).wf(),
        ensures
            final(arena).wf(),
            old(arena).created(final(arena), node@, value, Seq::empty(), Seq::empty()),
    {
        Self::with_parents(arena, value, Vec::new())
    }

    /// Creates a node whose incoming edges are the given pairs of a parent and
    /// an edge value, in the given order, and returns the strong handle on
    /// it. A parent may be given more than once: each pair makes an edge.
    ///
    /// Every parent learns of its new outgoing edge before the function
    /// returns.
    pub fn with_parents<N: Hash, E: Hash>(
        arena: &mut Arena<N, E>,
        value: N,
        parents: Vec<(&RelRc, E)>,
    ) -> (node: RelRc)
        requires
            old(arena).wf(),
            forall|k: int| 0 <= k < parents@.len() ==> old(arena).is_live((#[trigger] parents@[k]).0@),
        ensures
            final(arena).wf(),
            old(arena).created(
                final(arena),
                node@,
                value,
                parents@.map_values(|pe: (&RelRc, E)| pe.0@),
                parents@.map_values(|pe: (&RelRc, E)| pe.1),
            ),
    {
        let ghost ps = parents@.map_values(|pe: (&RelRc, E)| pe.0@);
        let ghost es = parents@.map_values(|pe: (&RelRc, E)| pe.1);
        let n = arena.slots.len();
        // The content identity of the new node.
        let mut pairs: Vec<(RelRcHash, &E)> = Vec::new();
        let mut k: usize = 0;
        while k < parents.len()
            invariant
                k <= parents@.len(),
                forall|k2: int|
                    0 <= k2 < parents@.len() ==> arena.is_live((#[trigger] parents@[k2]).0@),
            decreases parents@.len() - k,
        {
            let p = parents[k].0.ptr;
            let h = arena.slots[p].as_ref().unwrap().hash;
            pairs.push((h, &parents[k].1));
            k += 1;
        }
        let hash = content_hash(&value, &pairs);
        // The incoming edges of the new node.
        let mut incoming: Vec<InnerEdgeData<E>> = Vec::new();
        let mut sources: Vec<usize> = Vec::new();
        for pe in it: parents
            invariant
                it.seq() == parents@,
                incoming@.len() == it.index(),
                sources@.len() == it.index(),
                forall|k2: int|
                    0 <= k2 < it.index() ==> (#[trigger] incoming@[k2])@ == (EdgeView {
                        value: es[k2],
                        source: ps[k2],
                        target: n as int,
                    }),
                forall|k2: int| 0 <= k2 < it.index() ==> (#[trigger] sources@[k2]) == ps[k2],
                ps == parents@.map_values(|pe: (&RelRc, E)| pe.0@),
                es == parents@.map_values(|pe: (&RelRc, E)| pe.1),
        {
            let (p, e) = pe;
            sources.push(p.ptr);
            incoming.push(InnerEdgeData::new(e, RelRc { ptr: p.ptr }, RelWeak { ptr: n }));
        }
        let data = InnerData {
            value,
            incoming,
            outgoing: Vec::new(),
            registry: None,
            handles: 1,
            hash,
        };
        let ghost fresh = data@;
        arena.slots.push(Some(data));
        // Tell every parent of its new outgoing edge.
        let mut k: usize = 0;
        while k < sources.len()
            invariant
                k <= sources@.len(),
                sources@.len() == ps.len(),
                forall|k2: int| 0 <= k2 < ps.len() ==> (#[trigger] sources@[k2]) == ps[k2],
                forall|k2: int| 0 <= k2 < ps.len() ==> old(arena).is_live(#[trigger] ps[k2]),
                n == old(arena).len(),
                arena.len() == n + 1,
                arena.same_tables(old(arena)),
                arena.is_live(n as int),
                arena.node(n as int) == fresh,
                forall|i: int| 0 <= i < n ==> arena.is_live(i) == old(arena).is_live(i),
                forall|i: int|
                    old(arena).is_live(i) ==> #[trigger] arena.node(i) == (NodeView {
                        outgoing: old(arena).node(i).outgoing + backrefs(ps.take(k as int), i, n as int),
                        ..old(arena).node(i)
                    }),
            decreases sources@.len() - k,
        {
            let p = sources[k];
            let ghost prev = *arena;
            match &mut arena.slots[p] {
                Some(d) => {
                    d.outgoing.push(WeakEdge::new(k, RelWeak { ptr: n }));
                },
                None => {},
            }
            proof {
                assert(ps.take(k + 1).drop_last() == ps.take(k as int));
                assert(ps.take(k + 1).last() == p);
                assert forall|i: int| old(arena).is_live(i) implies #[trigger] arena.node(i) == (
                NodeView {
                    outgoing: old(arena).node(i).outgoing + backrefs(ps.take(k + 1), i, n as int),
                    ..old(arena).node(i)
                }) by {
                    assert(prev.is_live(i));
                    if i == p {
                        assert(arena.node(i).outgoing =~= prev.node(i).outgoing.push(
                            (n as int, k as int),
                        ));
                        assert(arena.node(i).outgoing =~= old(arena).node(i).outgoing + backrefs(
                            ps.take(k + 1),
                            i,
                            n as int,
                        ));
                        assert(arena.node(i).incoming =~= prev.node(i).incoming);
                    } else {
                        assert(arena.node(i) == prev.node(i));
                    }
                }
                assert(arena.node(n as int) == prev.node(n as int));
            }
            k += 1;
        }
        proof {
            assert(ps.take(ps.len() as int) == ps);
            assert(fresh.incoming =~= Seq::new(
                ps.len(),
                |k: int| EdgeView { value: es[k], source: ps[k], target: n as int },
            ));
            assert(old(arena).created(arena, n as int, value, ps, es));
            lemma_created_wf(*old(arena), *arena, n as int, value, ps, es);
        }
        RelRc { ptr: n }
    }

    /// The identity of the node: its position in the arena.
    pub fn as_ptr(&self) -> (p: usize)
        ensures
            p == self@,
    {
        self.ptr
    }

    /// Whether two handles denote the same node.
    pub fn ptr_eq(&self, other: &Self) -> (b: bool)
        ensures
            b == (self@ == other@),
    {
        self.ptr == other.ptr
    }

    /// A weak reference to the node.
    pub fn downgrade(&self) -> (w: RelWeak)
        ensures
            w@ == self@,
    {
        RelWeak { ptr: self.ptr }
    }

    /// One more strong handle on the node.
    pub fn clone_ref<N, E>(&self, arena: &mut Arena<N, E>) -> (node: RelRc)
        requires
            old(arena).wf(),
            old(arena).is_live(self@),
        ensures
            final(arena).wf(),
            node@ == self@,
            old(arena).held(final(arena), self@),
    {
        arena.hold(self.ptr)
    }

    /// Gives the strong handle back.
    ///
    /// If it was the last one and no child of the node is alive, the node is
    /// destroyed, and with it every ancestor that is then left without a
    /// strong handle and without a live child. Each node that is destroyed
    /// leaves the registry that tracks it.
    pub fn release<N, E>(self, arena: &mut Arena<N, E>)
        requires
            old(arena).wf(),
            old(arena).is_live(self@),
            old(arena).node(self@).handles > 0,
        ensures
            final(arena).wf(),
            old(arena).shrunk(final(arena), self@, unbump(old(arena).node(self@).handles)),
    {
        let i = self.ptr;
        let ghost before = *arena;
        match &mut arena.slots[i] {
            Some(d) => {
                if d.handles < usize::MAX {
                    d.handles = d.handles - 1;
                }
            },
            None => {},
        }
        let ghost mid = *arena;
        let ghost only = Set::<int>::empty().insert(i as int);
        proof {
            assert(mid.node(i as int).incoming =~= before.node(i as int).incoming);
            assert(mid.node(i as int).outgoing =~= before.node(i as int).outgoing);
            assert(mid.node(i as int) == (NodeView {
                handles: unbump(before.node(i as int).handles),
                ..before.node(i as int)
            }));
            assert forall|j: int| j != i && before.is_live(j) implies mid.node(j) == before.node(
                j,
            ) by {}
            before.lemma_tables_kept(&mid, -1);
            lemma_same_graph_wf(before, mid, only);
        }
        arena.reap(i, Ghost(only));
        proof {
            assert(only.remove(i as int) =~= Set::<int>::empty());
            let h = unbump(before.node(i as int).handles);
            assert forall|j: int| arena.is_live(j) implies #[trigger] arena.node(j) == (if j == i {
                NodeView { handles: h, ..before.node(j) }
            } else {
                before.node(j)
            }) by {
                assert(mid.is_live(j));
                assert(arena.node(j) == mid.node(j));
            }
            assert forall|j: int| before.is_live(j) && !arena.is_live(j) implies (if j == i {
                h
            } else {
                (#[trigger] before.node(j)).handles
            }) == 0 by {
                assert(mid.is_live(j));
                if j != i {
                    assert(mid.node(j) == before.node(j));
                }
            }
            assert forall|r: int, k: u64| 0 <= r < before.n_registries() implies (
            #[trigger] arena.registry_map(r).contains_key(k) <==> before.registry_map(
                r,
            ).contains_key(k) && !before.reaped(arena, before.registry_map(r)[k], r)) by {
                let j = mid.registry_map(r)[k];
                if mid.is_live(j) {
                    assert(mid.node(j).registry == before.node(j).registry);
                }
            }
        }
    }
}

impl<N, E> Arena<N, E> {
    /// `after` is this arena with one more strong handle on the node at
    /// position `i`.
    pub open spec fn held(&self, after: &Self, i: int) -> bool {
        &&& after.len() == self.len()
        &&& after.same_tables(self)
        &&& forall|j: int| after.is_live(j) == self.is_live(j)
        &&& forall|j: int|
            self.is_live(j) ==> #[trigger] after.node(j) == (if j == i {
                NodeView { handles: bump(self.node(j).handles), ..self.node(j) }
            } else {
                self.node(j)
            })
    }

    /// Makes a strong handle on the live node at position `i`.
    pub(crate) fn hold(&mut self, i: usize) -> (node: RelRc)
        requires
            old(self).wf(),
            old(self).is_live(i as int),
        ensures
            final(self).wf(),
            node@ == i,
            old(self).held(final(self), i as int),
    {
        let ghost before = *self;
        match &mut self.slots[i] {
            Some(d) => {
                if d.handles < usize::MAX {
                    d.handles = d.handles + 1;
                }
            },
            None => {},
        }
        proof {
            assert(self.node(i as int).incoming =~= before.node(i as int).incoming);
            assert(self.node(i as int).outgoing =~= before.node(i as int).outgoing);
            assert forall|j: int| j != i && before.is_live(j) implies self.node(j) == before.node(
                j,
            ) by {}
            assert(self.node(i as int).registry == before.node(i as int).registry);
            before.lemma_tables_kept(self, -1);
            lemma_same_graph_wf(before, *self, Set::empty());
        }
        RelRc { ptr: i }
    }
}

/// An arena with well-formed registries that has the edges of a well-formed
/// arena, and in which every node outside `suspects` that had a handle still
/// has one, is well formed but for the nodes in `suspects`.
pub proof fn lemma_same_graph_wf<N, E>(a: Arena<N, E>, b: Arena<N, E>, suspects: Set<int>)
    requires
        a.wf(),
        b.len() == a.len(),
        b.tables_wf(),
        forall|j: int| b.is_live(j) == a.is_live(j),
        forall|j: int|
            a.is_live(j) ==> (#[trigger] b.node(j)).incoming == a.node(j).incoming && b.node(
                j,
            ).outgoing == a.node(j).outgoing,
        forall|j: int|
            a.is_live(j) && !suspects.contains(j) && a.node(j).handles > 0 ==> (#[trigger] b.node(
                j,
            )).handles > 0,
    ensures
        b.wf_except(suspects),
{
    assert forall|i: int, k: int| b.is_live(i) && 0 <= k < b.node(i).incoming.len() implies {
        &&& 0 <= (#[trigger] b.edge(i, k)).source < i
        &&& b.is_live(b.edge(i, k).source)
        &&& b.edge(i, k).target == i
        &&& b.node(b.edge(i, k).source).outgoing.contains((i, k))
    } by {
        assert(b.node(i).incoming == a.node(i).incoming);
        assert(a.edge(i, k) == b.edge(i, k));
        assert(b.node(a.edge(i, k).source).outgoing == a.node(a.edge(i, k).source).outgoing);
    }
    assert forall|i: int, j: int| b.is_live(i) && 0 <= j < b.node(i).outgoing.len() implies {
        &&& i < (#[trigger] b.out(i, j)).0 < b.len()
        &&& 0 <= b.out(i, j).1
        &&& b.is_live(b.out(i, j).0) ==> {
            &&& b.out(i, j).1 < b.node(b.out(i, j).0).incoming.len()
            &&& b.edge(b.out(i, j).0, b.out(i, j).1).source == i
        }
    } by {
        assert(b.node(i).outgoing == a.node(i).outgoing);
        assert(a.out(i, j) == b.out(i, j));
        if b.is_live(b.out(i, j).0) {
            assert(b.node(a.out(i, j).0).incoming == a.node(a.out(i, j).0).incoming);
        }
    }
    assert forall|i: int| b.is_live(i) && !suspects.contains(i) implies #[trigger] b.justified(
        i,
    ) by {
        assert(a.justified(i));
        assert(b.node(i).outgoing == a.node(i).outgoing);
        if a.node(i).handles == 0 {
            let j = choose|j: int|
                0 <= j < a.node(i).outgoing.len() && a.is_live((#[trigger] a.out(i, j)).0);
            assert(b.is_live(b.out(i, j).0));
        }
    }
}

/// Creating a node in a well-formed arena leaves it well formed.
pub proof fn lemma_created_wf<N, E>(
    a: Arena<N, E>,
    b: Arena<N, E>,
    n: int,
    value: N,
    parents: Seq<int>,
    edges: Seq<E>,
)
    requires
        a.wf(),
        a.created(&b, n, value, parents, edges),
        forall|k: int| 0 <= k < parents.len() ==> a.is_live(#[trigger] parents[k]),
    ensures
        b.wf(),
{
    assert(b.outgoing_once()) by {
        assert forall|i: int| b.is_live(i) implies (#[trigger] b.node(i)).outgoing.no_duplicates() by {
            if i != n {
                let before = a.node(i).outgoing;
                let added = backrefs(parents, i, n);
                let all = before + added;
                assert(b.node(i).outgoing == all);
                lemma_backrefs_once(parents, i, n);
                assert forall|x: int, y: int| 0 <= x < y < all.len() implies all[x] != all[y] by {
                    if y >= before.len() {
                        lemma_backrefs_sound(parents, i, n, y - before.len());
                        if x < before.len() {
                            assert(a.out(i, x).0 < a.len());
                        }
                    }
                }
            }
        }
    }
    assert forall|i: int, k: int| b.is_live(i) && 0 <= k < b.node(i).incoming.len() implies {
        &&& 0 <= (#[trigger] b.edge(i, k)).source < i
        &&& b.is_live(b.edge(i, k).source)
        &&& b.edge(i, k).target == i
        &&& b.node(b.edge(i, k).source).outgoing.contains((i, k))
    } by {
        if i == n {
            let p = parents[k];
            assert(a.is_live(p));
            assert(b.edge(i, k).source == p);
            lemma_backrefs_complete(parents, p, n, k);
            let tail = backrefs(parents, p, n);
            let j = choose|j: int| 0 <= j < tail.len() && tail[j] == (n, k);
            assert(b.node(p).outgoing[a.node(p).outgoing.len() + j] == (n, k));
        } else {
            assert(a.is_live(i));
            assert(a.edge(i, k) == b.edge(i, k));
            let p = a.edge(i, k).source;
            assert(a.node(p).outgoing.contains((i, k)));
            let j = choose|j: int| 0 <= j < a.node(p).outgoing.len() && a.node(p).outgoing[j] == (
                i,
                k,
            );
            assert(b.node(p).outgoing[j] == (i, k));
        }
    }
    assert forall|i: int, j: int| b.is_live(i) && 0 <= j < b.node(i).outgoing.len() implies {
        &&& i < (#[trigger] b.out(i, j)).0 < b.len()
        &&& 0 <= b.out(i, j).1
        &&& b.is_live(b.out(i, j).0) ==> {
            &&& b.out(i, j).1 < b.node(b.out(i, j).0).incoming.len()
            &&& b.edge(b.out(i, j).0, b.out(i, j).1).source == i
        }
    } by {
        assert(i != n);
        assert(a.is_live(i));
        if j < a.node(i).outgoing.len() {
            assert(a.out(i, j) == b.out(i, j));
            let t = a.out(i, j).0;
            if b.is_live(t) {
                assert(a.is_live(t));
                assert(a.edge(t, a.out(i, j).1) == b.edge(t, a.out(i, j).1));
            }
        } else {
            let j2 = j - a.node(i).outgoing.len();
            lemma_backrefs_sound(parents, i, n, j2);
            assert(b.out(i, j) == backrefs(parents, i, n)[j2]);
        }
    }
    assert forall|i: int| b.is_live(i) implies #[trigger] b.justified(i) by {
        if i != n {
            assert(a.justified(i));
            if a.node(i).handles == 0 {
                let j = choose|j: int|
                    0 <= j < a.node(i).outgoing.len() && a.is_live((#[trigger] a.out(i, j)).0);
                assert(b.out(i, j) == a.out(i, j));
                assert(b.is_live(b.out(i, j).0));
            }
        }
    }
}

impl RelWeak {
    /// The strong handle on the node, if the node is still alive.
    pub fn upgrade<N, E>(&self, arena: &mut Arena<N, E>) -> (node: Option<RelRc>)
        requires
            old(arena).wf(),
        ensures
            final(arena).wf(),
            node is Some == old(arena).is_live(self@),
            node matches Some(r) ==> r@ == self@ && old(arena).held(final(arena), self@),
            node is None ==> *final(arena) == *old(arena),
    {
        if self.ptr < arena.slots.len() && arena.slots[self.ptr].is_some() {
            Some(arena.hold(self.ptr))
        } else {
            None
        }
    }

    /// Whether two weak references denote the same node.
    pub fn ptr_eq(&self, other: &Self) -> (b: bool)
        ensures
            b == (self@ == other@),
    {
        self.ptr == other.ptr
    }

    /// The identity of the node: its position in the arena.
    pub fn as_ptr(&self) -> (p: usize)
        ensures
            p == self@,
    {
        self.ptr
    }
}

impl<N, E> Arena<N, E> {
    /// The data of the live node at position `i`.
    pub open(crate) spec fn data(&self, i: int) -> InnerData<N, E> {
        self.slots@[i].unwrap()
    }

    /// Whether the node at position `a` can be reached from the node at
    /// position `d` by going from child to parent through nodes that `pass`
    /// holds of, `d` and `a` included.
    pub open spec fn descends(&self, d: int, a: int, pass: spec_fn(int) -> bool) -> bool
        decreases d,
    {
        &&& self.is_live(d)
        &&& pass(d)
        &&& (a == d || exists|k: int|
            0 <= k < self.node(d).incoming.len() && 0 <= (#[trigger] self.edge(d, k)).source < d
                && self.descends(self.edge(d, k).source, a, pass))
    }

    /// Whether the node at position `a` is the node at position `d` or one of
    /// its ancestors.
    pub open spec fn is_ancestor(&self, a: int, d: int) -> bool {
        self.descends(d, a, |i: int| true)
    }

    /// A path can be extended by one edge at its upper end.
    pub proof fn lemma_descends_step(&self, d: int, a: int, k: int, pass: spec_fn(int) -> bool)
        requires
            self.parents_wf(),
            self.descends(d, a, pass),
            0 <= k < self.node(a).incoming.len(),
            pass(self.edge(a, k).source),
        ensures
            self.descends(d, self.edge(a, k).source, pass),
        decreases d,
    {
        let p = self.edge(a, k).source;
        if a == d {
            assert(self.descends(p, p, pass));
        } else {
            let k2 = choose|k2: int|
                0 <= k2 < self.node(d).incoming.len() && 0 <= (#[trigger] self.edge(d, k2)).source
                    < d && self.descends(self.edge(d, k2).source, a, pass);
            self.lemma_descends_step(self.edge(d, k2).source, a, k, pass);
        }
    }

    /// What can be reached from a node is alive, passed, and not younger.
    pub proof fn lemma_descends_live(&self, d: int, a: int, pass: spec_fn(int) -> bool)
        requires
            self.descends(d, a, pass),
        ensures
            self.is_live(a),
            pass(a),
            a <= d,
        decreases d,
    {
        if a != d {
            let k = choose|k: int|
                0 <= k < self.node(d).incoming.len() && 0 <= (#[trigger] self.edge(d, k)).source < d
                    && self.descends(self.edge(d, k).source, a, pass);
            self.lemma_descends_live(self.edge(d, k).source, a, pass);
        }
    }

    /// Whether a strong handle on the node at position `i`, or on one of its
    /// descendants, exists.
    pub open spec fn is_held(&self, i: int) -> bool {
        exists|d: int| self.is_live(d) && self.node(d).handles > 0 && #[trigger] self.is_ancestor(i, d)
    }

    /// The ownership law: in a well-formed arena, a node is alive exactly as
    /// long as there is a strong handle on it or on one of its descendants.
    pub proof fn lemma_alive_iff_held(&self, i: int)
        requires
            self.wf(),
            0 <= i < self.len(),
        ensures
            self.is_live(i) <==> self.is_held(i),
        decreases self.len() - i,
    {
        let all = |j: int| true;
        if self.is_live(i) {
            assert(self.justified(i));
            if self.node(i).handles > 0 {
                assert(self.is_ancestor(i, i));
            } else {
                let w = choose|w: int|
                    0 <= w < self.node(i).outgoing.len() && self.is_live(
                        (#[trigger] self.out(i, w)).0,
                    );
                let c = self.out(i, w).0;
                let k = self.out(i, w).1;
                self.lemma_alive_iff_held(c);
                let d = choose|d: int|
                    self.is_live(d) && self.node(d).handles > 0 && #[trigger] self.is_ancestor(c, d);
                assert(self.edge(c, k).source == i);
                self.lemma_descends_step(d, c, k, all);
                assert(self.is_ancestor(i, d));
            }
        }
        if self.is_held(i) {
            let d = choose|d: int|
                self.is_live(d) && self.node(d).handles > 0 && #[trigger] self.is_ancestor(i, d);
            self.lemma_descends_live(d, i, all);
        }
    }
}

impl<N, E> InnerData<N, E> {
    /// The value of the node.
    pub fn value(&self) -> (v: &N)
        ensures
            *v == self@.value,
    {
        &self.value
    }

    /// The content identity of the node.
    pub fn hash_id(&self) -> (h: RelRcHash)
        ensures
            h == self@.hash,
    {
        self.hash
    }

    /// The number of strong handles on the node.
    pub fn strong_count(&self) -> (c: usize)
        ensures
            c == self@.handles,
    {
        self.handles
    }

    /// The number of incoming edges.
    pub fn n_incoming(&self) -> (n: usize)
        ensures
            n == self@.incoming.len(),
    {
        self.incoming.len()
    }

    /// The `index`-th incoming edge of the node, if there is one.
    pub fn incoming(&self, index: usize) -> (e: Option<&InnerEdgeData<E>>)
        ensures
            index < self@.incoming.len() ==> (e matches Some(x) && x@ == self@.incoming[index as int]),
            index >= self@.incoming.len() ==> e is None,
    {
        if index < self.incoming.len() {
            Some(&self.incoming[index])
        } else {
            None
        }
    }

    /// The `index`-th incoming edge of the node as a weak reference, if there
    /// is one.
    pub fn incoming_weak(&self, index: usize) -> (w: Option<WeakEdge>)
        ensures
            index < self@.incoming.len() ==> (w matches Some(x) && x@ == (
                self@.incoming[index as int].target,
                index as int,
            )),
            index >= self@.incoming.len() ==> w is None,
    {
        if index < self.incoming.len() {
            Some(self.incoming[index].downgrade(index))
        } else {
            None
        }
    }

    /// The `index`-th parent of the node, if there is one.
    pub fn parent(&self, index: usize) -> (p: Option<&RelRc>)
        ensures
            index < self@.incoming.len() ==> (p matches Some(x) && x@
                == self@.incoming[index as int].source),
            index >= self@.incoming.len() ==> p is None,
    {
        if index < self.incoming.len() {
            Some(self.incoming[index].source())
        } else {
            None
        }
    }

    /// All incoming edges, in their order.
    pub fn all_incoming(&self) -> (es: &[InnerEdgeData<E>])
        ensures
            es@.map_values(|e: InnerEdgeData<E>| e@) == self@.incoming,
    {
        self.incoming.as_slice()
    }

    /// All incoming edges as weak references, in their order.
    pub fn all_incoming_weak(&self) -> (ws: Vec<WeakEdge>)
        ensures
            ws@.len() == self@.incoming.len(),
            forall|k: int|
                0 <= k < ws@.len() ==> (#[trigger] ws@[k])@ == (self@.incoming[k].target, k),
    {
        let mut ws: Vec<WeakEdge> = Vec::new();
        let mut k: usize = 0;
        while k < self.incoming.len()
            invariant
                k <= self.incoming@.len(),
                ws@.len() == k,
                forall|k2: int|
                    0 <= k2 < k ==> (#[trigger] ws@[k2])@ == (self@.incoming[k2].target, k2),
            decreases self.incoming@.len() - k,
        {
            ws.push(self.incoming[k].downgrade(k));
            k += 1;
        }
        ws
    }

    /// All parents of the node, in the order of the incoming edges.
    pub fn all_parents(&self) -> (ps: Vec<&RelRc>)
        ensures
            ps@.len() == self@.incoming.len(),
            forall|k: int| 0 <= k < ps@.len() ==> (#[trigger] ps@[k])@ == self@.incoming[k].source,
    {
        let mut ps: Vec<&RelRc> = Vec::new();
        let mut k: usize = 0;
        while k < self.incoming.len()
            invariant
                k <= self.incoming@.len(),
                ps@.len() == k,
                forall|k2: int| 0 <= k2 < k ==> (#[trigger] ps@[k2])@ == self@.incoming[k2].source,
            decreases self.incoming@.len() - k,
        {
            ps.push(self.incoming[k].source());
            k += 1;
        }
        ps
    }

    /// All outgoing edges as they are stored: weak references, some of which
    /// may point at nodes that have been destroyed.
    pub fn all_outgoing_weak(&self) -> (ws: Vec<WeakEdge>)
        ensures
            ws@.map_values(|w: WeakEdge| w@) == self@.outgoing,
    {
        let mut ws: Vec<WeakEdge> = Vec::new();
        let mut j: usize = 0;
        while j < self.outgoing.len()
            invariant
                j <= self.outgoing@.len(),
                ws@ == self.outgoing@.take(j as int),
            decreases self.outgoing@.len() - j,
        {
            ws.push(self.outgoing[j]);
            assert(self.outgoing@.take(j + 1) == self.outgoing@.take(j as int).push(
                self.outgoing@[j as int],
            ));
            j += 1;
        }
        assert(self.outgoing@.take(self.outgoing@.len() as int) == self.outgoing@);
        ws
    }
}

impl<N, E> Arena<N, E> {
    /// The back-references among `s` whose target is alive, in their order.
    pub open spec fn live_only(&self, s: Seq<(int, int)>) -> Seq<(int, int)>
        decreases s.len(),
    {
        if s.len() == 0 {
            Seq::empty()
        } else if self.is_live(s.last().0) {
            self.live_only(s.drop_last()).push(s.last())
        } else {
            self.live_only(s.drop_last())
        }
    }

    /// A back-reference is kept exactly if it was there and its target is
    /// alive.
    pub proof fn lemma_live_only(&self, s: Seq<(int, int)>)
        ensures
            forall|w: (int, int)| #[trigger]
                self.live_only(s).contains(w) <==> s.contains(w) && self.is_live(w.0),
        decreases s.len(),
    {
        if s.len() > 0 {
            let rest = s.drop_last();
            self.lemma_live_only(rest);
            assert forall|w: (int, int)| #[trigger]
                self.live_only(s).contains(w) <==> s.contains(w) && self.is_live(w.0) by {
                let kept = self.live_only(s);
                if kept.contains(w) {
                    let j = choose|j: int| 0 <= j < kept.len() && kept[j] == w;
                    if j < self.live_only(rest).len() {
                        assert(self.live_only(rest)[j] == w);
                        assert(self.live_only(rest).contains(w));
                        assert(rest.contains(w));
                        let j2 = choose|j2: int| 0 <= j2 < rest.len() && rest[j2] == w;
                        assert(s[j2] == w);
                    } else {
                        assert(s[s.len() - 1] == w);
                    }
                }
                if s.contains(w) && self.is_live(w.0) {
                    let j = choose|j: int| 0 <= j < s.len() && s[j] == w;
                    if j < rest.len() {
                        assert(rest[j] == w);
                        assert(rest.contains(w));
                        assert(self.live_only(rest).contains(w));
                        let j2 = choose|j2: int|
                            0 <= j2 < self.live_only(rest).len() && self.live_only(rest)[j2] == w;
                        assert(kept[j2] == w);
                    } else {
                        assert(kept[kept.len() - 1] == w);
                    }
                }
            }
        }
    }

    /// Pruning a list that has been pruned changes nothing: as long as no node
    /// is destroyed, asking twice for the outgoing edges gives the same list.
    pub proof fn lemma_live_only_idempotent(&self, s: Seq<(int, int)>)
        ensures
            self.live_only(self.live_only(s)) == self.live_only(s),
        decreases s.len(),
    {
        if s.len() > 0 {
            self.lemma_live_only_idempotent(s.drop_last());
            if self.is_live(s.last().0) {
                let kept = self.live_only(s);
                assert(kept.drop_last() == self.live_only(s.drop_last()));
            }
        }
    }

    /// `after` is this arena with the back-references of the node at position
    /// `i` pruned: those whose target has been destroyed are gone.
    pub open spec fn pruned(&self, after: &Self, i: int) -> bool {
        &&& after.len() == self.len()
        &&& after.same_tables(self)
        &&& forall|j: int| after.is_live(j) == self.is_live(j)
        &&& forall|j: int|
            self.is_live(j) ==> #[trigger] after.node(j) == (if j == i {
                NodeView { outgoing: self.live_only(self.node(j).outgoing), ..self.node(j) }
            } else {
                self.node(j)
            })
    }

    /// Whether the `k`-th incoming edge of the node at position `c`, which is
    /// alive, leaves the node at position `p`.
    pub open spec fn leaves(&self, p: int, c: int, k: int) -> bool {
        self.is_live(c) && 0 <= k < self.node(c).incoming.len() && self.edge(c, k).source == p
    }

    /// The live outgoing edges of a node are the incoming edges of the live
    /// nodes that leave it, each once.
    pub proof fn lemma_live_edges(&self, p: int)
        requires
            self.wf(),
            self.is_live(p),
        ensures
            self.live_only(self.node(p).outgoing).no_duplicates(),
            forall|c: int, k: int|
                self.live_only(self.node(p).outgoing).contains((c, k)) <==> self.leaves(p, c, k),
    {
        let out = self.node(p).outgoing;
        self.lemma_live_only(out);
        self.lemma_live_only_once(out);
        assert forall|c: int, k: int| self.live_only(out).contains((c, k)) <==> self.leaves(
            p,
            c,
            k,
        ) by {
            if self.live_only(out).contains((c, k)) {
                assert(out.contains((c, k)));
                let w = choose|w: int| 0 <= w < out.len() && out[w] == (c, k);
                assert(self.out(p, w) == (c, k));
            }
            if self.leaves(p, c, k) {
                let e = self.edge(c, k);
                assert(out.contains((c, k)));
            }
        }
    }

    /// Pruning a list in which no back-reference comes twice gives such a
    /// list.
    pub proof fn lemma_live_only_once(&self, s: Seq<(int, int)>)
        requires
            s.no_duplicates(),
        ensures
            self.live_only(s).no_duplicates(),
        decreases s.len(),
    {
        if s.len() > 0 {
            let rest = self.live_only(s.drop_last());
            assert(s.drop_last().no_duplicates());
            self.lemma_live_only_once(s.drop_last());
            if self.is_live(s.last().0) {
                let all = rest.push(s.last());
                self.lemma_live_only(s.drop_last());
                assert forall|a: int, b: int| 0 <= a < b < all.len() implies all[a] != all[b] by {
                    if b == rest.len() && all[a] == all[b] {
                        assert(rest.contains(rest[a]));
                        assert(s.drop_last().contains(s.last()));
                        let j = choose|j: int|
                            0 <= j < s.drop_last().len() && s.drop_last()[j] == s.last();
                        assert(s[j] == s[s.len() - 1]);
                    }
                }
            }
        }
    }

    /// Pruning the back-references of a node leaves the arena well formed.
    pub proof fn lemma_pruned_wf(&self, after: &Self, i: int)
        requires
            self.wf(),
            self.is_live(i),
            self.pruned(after, i),
        ensures
            after.wf(),
    {
        self.lemma_live_only(self.node(i).outgoing);
        self.lemma_live_only_once(self.node(i).outgoing);
        assert(after.outgoing_once()) by {
            assert forall|j: int| after.is_live(j) implies (#[trigger] after.node(
                j,
            )).outgoing.no_duplicates() by {
                let y = self.node(j);
            }
        }
        assert forall|j: int, k: int|
            after.is_live(j) && 0 <= k < after.node(j).incoming.len() implies {
            &&& 0 <= (#[trigger] after.edge(j, k)).source < j
            &&& after.is_live(after.edge(j, k).source)
            &&& after.edge(j, k).target == j
            &&& after.node(after.edge(j, k).source).outgoing.contains((j, k))
        } by {
            assert(self.is_live(j));
            assert(self.edge(j, k) == after.edge(j, k));
            let p = self.edge(j, k).source;
            assert(self.node(p).outgoing.contains((j, k)));
        }
        assert forall|j: int, w: int|
            after.is_live(j) && 0 <= w < after.node(j).outgoing.len() implies {
            &&& j < (#[trigger] after.out(j, w)).0 < after.len()
            &&& 0 <= after.out(j, w).1
            &&& after.is_live(after.out(j, w).0) ==> {
                &&& after.out(j, w).1 < after.node(after.out(j, w).0).incoming.len()
                &&& after.edge(after.out(j, w).0, after.out(j, w).1).source == j
            }
        } by {
            assert(self.is_live(j));
            if j == i {
                let x = after.out(j, w);
                assert(after.node(j).outgoing.contains(x));
                let w2 = choose|w2: int|
                    0 <= w2 < self.node(i).outgoing.len() && self.node(i).outgoing[w2] == x;
                assert(self.out(i, w2) == x);
                if after.is_live(x.0) {
                    assert(self.edge(x.0, x.1) == after.edge(x.0, x.1));
                }
            } else {
                assert(self.out(j, w) == after.out(j, w));
                let t = self.out(j, w).0;
                if after.is_live(t) {
                    assert(self.edge(t, self.out(j, w).1) == after.edge(t, self.out(j, w).1));
                }
            }
        }
        assert forall|j: int| after.is_live(j) implies #[trigger] after.justified(j) by {
            assert(self.justified(j));
            if self.node(j).handles == 0 {
                let w = choose|w: int|
                    0 <= w < self.node(j).outgoing.len() && self.is_live(
                        (#[trigger] self.out(j, w)).0,
                    );
                if j == i {
                    let x = self.out(j, w);
                    assert(self.node(i).outgoing.contains(x));
                    assert(after.node(i).outgoing.contains(x));
                    let w2 = choose|w2: int|
                        0 <= w2 < after.node(i).outgoing.len() && after.node(i).outgoing[w2] == x;
                    assert(after.is_live(after.out(i, w2).0));
                } else {
                    assert(after.is_live(after.out(j, w).0));
                }
            }
        }
        assert(after.tables_wf()) by {
            assert forall|j: int| after.is_live(j) implies match (#[trigger] after.node(
                j,
            )).registry {
                Some(r) => 0 <= r < after.tables@.len(),
                None => true,
            } by {
                assert(self.is_live(j));
                assert(after.node(j).registry == self.node(j).registry);
            }
        }
    }

    /// Prunes the back-references of the live node at position `i` and
    /// returns those that are left.
    pub(crate) fn prune(&mut self, i: usize) -> (edges: Vec<WeakEdge>)
        requires
            old(self).wf(),
            old(self).is_live(i as int),
        ensures
            final(self).wf(),
            old(self).pruned(final(self), i as int),
            edges@.map_values(|w: WeakEdge| w@) == final(self).node(i as int).outgoing,
            forall|j: int| 0 <= j < edges@.len() ==> final(self).is_live((#[trigger] edges@[j])@.0),
    {
        let ghost before = *self;
        let mut kept: Vec<WeakEdge> = Vec::new();
        let mut edges: Vec<WeakEdge> = Vec::new();
        let data = self.slots[i].as_ref().unwrap();
        let mut j: usize = 0;
        while j < data.outgoing.len()
            invariant
                self.wf(),
                self.is_live(i as int),
                data == self.slots@[i as int].unwrap(),
                j <= data.outgoing@.len(),
                kept@ == edges@,
                edges@.map_values(|w: WeakEdge| w@) == self.live_only(
                    self.node(i as int).outgoing.take(j as int),
                ),
            decreases data.outgoing@.len() - j,
        {
            let w = data.outgoing[j];
            let ghost done = self.node(i as int).outgoing.take(j as int);
            let ghost next = self.node(i as int).outgoing.take(j + 1);
            proof {
                assert(self.out(i as int, j as int) == w@);
                assert(next.drop_last() == done);
                assert(next.last() == w@);
            }
            if self.slots[w.target.ptr].is_some() {
                kept.push(w);
                edges.push(w);
                assert(edges@.map_values(|w: WeakEdge| w@) == self.live_only(done).push(w@));
            }
            j += 1;
        }
        proof {
            let all = self.node(i as int).outgoing;
            assert(all.take(all.len() as int) == all);
            self.lemma_live_only(all);
        }
        match &mut self.slots[i] {
            Some(d) => {
                d.outgoing = kept;
            },
            None => {},
        }
        proof {
            assert(self.node(i as int).incoming == before.node(i as int).incoming);
            assert forall|j: int| before.is_live(j) && j != i implies self.node(j) == before.node(
                j,
            ) by {}
            assert(before.pruned(self, i as int));
            before.lemma_pruned_wf(self, i as int);
            assert forall|j: int| 0 <= j < edges@.len() implies self.is_live(
                (#[trigger] edges@[j])@.0,
            ) by {
                let x = edges@.map_values(|w: WeakEdge| w@)[j];
                assert(before.live_only(before.node(i as int).outgoing).contains(x));
            }
        }
        edges
    }
}

impl RelRc {
    /// The content identity of the node.
    pub fn hash_id<N, E>(&self, arena: &Arena<N, E>) -> (h: RelRcHash)
        requires
            arena.is_live(self@),
        ensures
            h == arena.node(self@).hash,
    {
        arena.get(self).hash_id()
    }

    /// The outgoing edges of the node whose target is alive, as weak
    /// references, in the order in which the edges were made.
    ///
    /// The back-references to edges whose target has been destroyed are taken
    /// out of the stored list.
    pub fn all_outgoing<N, E>(&self, arena: &mut Arena<N, E>) -> (edges: Vec<WeakEdge>)
        requires
            old(arena).wf(),
            old(arena).is_live(self@),
        ensures
            final(arena).wf(),
            old(arena).pruned(final(arena), self@),
            edges@.map_values(|w: WeakEdge| w@) == old(arena).live_only(
                old(arena).node(self@).outgoing,
            ),
            edges@.map_values(|w: WeakEdge| w@).no_duplicates(),
            forall|c: int, k: int|
                edges@.map_values(|w: WeakEdge| w@).contains((c, k)) <==> old(arena).leaves(
                    self@,
                    c,
                    k,
                ),
    {
        proof {
            arena.lemma_live_edges(self@);
        }
        arena.prune(self.ptr)
    }

    /// The children of the node that are alive, one for each outgoing edge, in
    /// the order in which the edges were made.
    pub fn all_children<N, E>(&self, arena: &mut Arena<N, E>) -> (children: Vec<RelWeak>)
        requires
            old(arena).wf(),
            old(arena).is_live(self@),
        ensures
            final(arena).wf(),
            old(arena).pruned(final(arena), self@),
            children@.map_values(|c: RelWeak| c@) == old(arena).live_only(
                old(arena).node(self@).outgoing,
            ).map_values(|w: (int, int)| w.0),
    {
        let edges = arena.prune(self.ptr);
        let mut children: Vec<RelWeak> = Vec::new();
        let mut j: usize = 0;
        while j < edges.len()
            invariant
                j <= edges@.len(),
                children@.len() == j,
                forall|j2: int| 0 <= j2 < j ==> (#[trigger] children@[j2])@ == edges@[j2]@.0,
            decreases edges@.len() - j,
        {
            children.push(edges[j].target);
            j += 1;
        }
        assert(children@.map_values(|c: RelWeak| c@) =~= edges@.map_values(|w: WeakEdge| w@).map_values(
            |w: (int, int)| w.0,
        ));
        children
    }

    /// The number of outgoing edges of the node whose target is alive.
    pub fn n_outgoing<N, E>(&self, arena: &mut Arena<N, E>) -> (n: usize)
        requires
            old(arena).wf(),
            old(arena).is_live(self@),
        ensures
            final(arena).wf(),
            old(arena).pruned(final(arena), self@),
            n == old(arena).live_only(old(arena).node(self@).outgoing).len(),
    {
        let edges = arena.prune(self.ptr);
        assert(edges@.map_values(|w: WeakEdge| w@).len() == edges@.len());
        edges.len()
    }
}

impl<N, E> Arena<N, E> {
    /// Whether the two arenas hold the same nodes.
    pub open(crate) spec fn same_nodes(&self, after: &Self) -> bool {
        after.slots@ == self.slots@
    }

    /// The number of entries that the registry at position `r` has taken
    /// over its lifetime.
    pub open(crate) spec fn registry_taken(&self, r: int) -> nat {
        self.tables@[r].opened()
    }

    /// Whether the registry at position `r` holds the node at position `x`
    /// under some identifier.
    pub open spec fn registry_holds(&self, r: int, x: int) -> bool {
        exists|k: u64| self.registry_map(r).contains_key(k) && #[trigger] self.registry_map(r)[k] == x
    }

    /// Whether the registry at position `r` can take one more entry.
    pub open(crate) spec fn registry_room(&self, r: int) -> bool {
        self.registry_taken(r) < crate::registry::REGISTRY_LIMIT
    }

    /// `after` is this arena with the registry at position `r` holding `m`;
    /// the other registries have not changed.
    pub open(crate) spec fn registry_set(&self, after: &Self, r: int, m: Map<u64, int>) -> bool {
        &&& after.tables@.len() == self.tables@.len()
        &&& after.tables@[r]@ == m
        &&& forall|r2: int|
            0 <= r2 < self.tables@.len() && r2 != r ==> #[trigger] after.tables@[r2]
                == self.tables@[r2]
    }

    /// In a registry, no node has two identifiers.
    pub proof fn lemma_registry_injective(&self, r: int)
        requires
            self.wf(),
            0 <= r < self.n_registries(),
        ensures
            self.registry_map(r).dom().finite(),
            forall|k1: u64, k2: u64|
                self.registry_map(r).contains_key(k1) && self.registry_map(r).contains_key(k2)
                    && self.registry_map(r)[k1] == self.registry_map(r)[k2] ==> k1 == k2,
    {
        self.tables@[r].lemma_injective();
    }
}

impl<N, E> Arena<N, E> {
    /// The registries stay well formed when each of them does, and the nodes
    /// keep their links to them, but for the node at position `i`.
    pub(crate) proof fn lemma_tables_kept(&self, after: &Self, i: int)
        requires
            self.tables_wf(),
            after.tables@.len() >= self.tables@.len(),
            forall|r: int| 0 <= r < after.tables@.len() ==> (#[trigger] after.tables@[r]).wf(),
            forall|j: int| after.is_live(j) ==> self.is_live(j),
            forall|j: int|
                after.is_live(j) && j != i ==> (#[trigger] after.node(j)).registry == self.node(
                    j,
                ).registry,
            after.is_live(i) ==> match after.node(i).registry {
                Some(r) => 0 <= r < after.tables@.len(),
                None => true,
            },
        ensures
            after.tables_wf(),
    {
        assert forall|j: int| after.is_live(j) implies match (#[trigger] after.node(j)).registry {
            Some(r) => 0 <= r < after.tables@.len(),
            None => true,
        } by {
            if j != i {
                assert(self.is_live(j));
                let x = self.node(j);
                assert(after.node(j).registry == x.registry);
            }
        }
    }
}

impl<N, E> Arena<N, E> {
    /// An ancestor of a node is alive and not younger than the node.
    pub proof fn lemma_ancestor_live(&self, a: int, d: int)
        requires
            self.is_ancestor(a, d),
        ensures
            self.is_live(a),
            a <= d,
    {
        self.lemma_descends_live(d, a, |i: int| true);
    }

    /// An ancestor of a parent of a node is an ancestor of the node.
    pub proof fn lemma_ancestor_step(&self, a: int, d: int, k: int)
        requires
            self.parents_wf(),
            self.is_live(d),
            0 <= k < self.node(d).incoming.len(),
            self.is_ancestor(a, self.edge(d, k).source),
        ensures
            self.is_ancestor(a, d),
    {
    }
}

impl<N, E> Arena<N, E> {
    /// What could be reached from a node can still be reached from it after
    /// nodes have been destroyed, if the node is still alive.
    pub proof fn lemma_shrunk_descends(
        &self,
        after: &Self,
        i: int,
        handles: nat,
        d: int,
        a: int,
        pass: spec_fn(int) -> bool,
    )
        requires
            self.shrunk(after, i, handles),
            after.parents_wf(),
            after.is_live(d),
            self.descends(d, a, pass),
        ensures
            after.descends(d, a, pass),
        decreases d,
    {
        let x = after.node(d);
        if a != d {
            let k = choose|k: int|
                0 <= k < self.node(d).incoming.len() && 0 <= (#[trigger] self.edge(d, k)).source < d
                    && self.descends(self.edge(d, k).source, a, pass);
            assert(after.edge(d, k) == self.edge(d, k));
            self.lemma_shrunk_descends(after, i, handles, self.edge(d, k).source, a, pass);
        }
    }
}

impl<N, E> Arena<N, E> {
    /// What could be reached from a node can still be reached from it after
    /// handles have been given back, if the node is still alive.
    pub proof fn lemma_given_back_descends(
        &self,
        after: &Self,
        handles: spec_fn(int) -> nat,
        d: int,
        a: int,
        pass: spec_fn(int) -> bool,
    )
        requires
            self.given_back(after, handles),
            after.parents_wf(),
            after.is_live(d),
            self.descends(d, a, pass),
        ensures
            after.descends(d, a, pass),
        decreases d,
    {
        let x = after.node(d);
        if a != d {
            let k = choose|k: int|
                0 <= k < self.node(d).incoming.len() && 0 <= (#[trigger] self.edge(d, k)).source < d
                    && self.descends(self.edge(d, k).source, a, pass);
            assert(after.edge(d, k) == self.edge(d, k));
            self.lemma_given_back_descends(after, handles, self.edge(d, k).source, a, pass);
        }
    }

    /// What can be reached after handles have been given back could be
    /// reached before.
    pub proof fn lemma_given_back_ascends(
        &self,
        after: &Self,
        handles: spec_fn(int) -> nat,
        d: int,
        a: int,
        pass: spec_fn(int) -> bool,
    )
        requires
            self.given_back(after, handles),
            after.descends(d, a, pass),
        ensures
            self.descends(d, a, pass),
        decreases d,
    {
        let x = after.node(d);
        if a != d {
            let k = choose|k: int|
                0 <= k < after.node(d).incoming.len() && 0 <= (#[trigger] after.edge(d, k)).source < d
                    && after.descends(after.edge(d, k).source, a, pass);
            assert(after.edge(d, k) == self.edge(d, k));
            self.lemma_given_back_ascends(after, handles, after.edge(d, k).source, a, pass);
        }
    }

    /// The ownership law for handles that are given back: a node is alive
    /// afterwards exactly if a strong handle is left on it or on one of its
    /// descendants.
    pub proof fn lemma_given_back_alive(&self, after: &Self, handles: spec_fn(int) -> nat, i: int)
        requires
            self.wf(),
            after.wf(),
            self.given_back(after, handles),
        ensures
            after.is_live(i) <==> exists|d: int|
                self.is_live(d) && handles(d) > 0 && #[trigger] self.is_ancestor(i, d),
    {
        let all = |j: int| true;
        if after.is_live(i) {
            after.lemma_alive_iff_held(i);
            let d = choose|d: int|
                after.is_live(d) && after.node(d).handles > 0 && #[trigger] after.is_ancestor(i, d);
            self.lemma_given_back_ascends(after, handles, d, i, all);
            assert(self.is_ancestor(i, d));
        }
        if exists|d: int| self.is_live(d) && handles(d) > 0 && #[trigger] self.is_ancestor(i, d) {
            let d = choose|d: int|
                self.is_live(d) && handles(d) > 0 && #[trigger] self.is_ancestor(i, d);
            assert(after.is_live(d));
            self.lemma_given_back_descends(after, handles, d, i, all);
            after.lemma_descends_live(d, i, all);
        }
    }

    /// Giving back the last strong handle on a node that has no live child
    /// destroys the node: it is not alive any more, the registry that tracked
    /// it does not hold it any more, and it is not among the live outgoing
    /// edges of its former parents when these are next asked for.
    ///
    /// Here `after` is the arena after the handle on the node at position `i`
    /// has been given back.
    pub proof fn lemma_last_release(&self, after: &Self, i: int)
        requires
            self.wf(),
            after.wf(),
            self.is_live(i),
            self.node(i).handles == 1,
            !self.has_live_child(i),
            self.shrunk(after, i, unbump(self.node(i).handles)),
        ensures
            !after.is_live(i),
            forall|r: int, k: u64|
                0 <= r < self.n_registries() && self.node(i).registry == Some(r) && #[trigger] after.registry_map(
                    r,
                ).contains_key(k) ==> after.registry_map(r)[k] != i,
            forall|p: int, k: int|
                after.is_live(p) ==> !(#[trigger] after.live_only(after.node(p).outgoing).contains(
                    (i, k),
                )),
    {
        if after.is_live(i) {
            assert(after.justified(i));
            let x = after.node(i);
            let w = choose|w: int|
                0 <= w < after.node(i).outgoing.len() && after.is_live((#[trigger] after.out(i, w)).0);
            assert(self.out(i, w) == after.out(i, w));
            assert(self.is_live(self.out(i, w).0));
        }
        assert forall|p: int, k: int| after.is_live(p) implies !(#[trigger] after.live_only(
            after.node(p).outgoing,
        ).contains((i, k))) by {
            after.lemma_live_only(after.node(p).outgoing);
        }
    }
}

} // verus!
