//! Parent-child relationships between nodes.

use crate::node::{Arena, RelRc, RelWeak};
use vstd::prelude::*;

verus! {

/// What an incoming edge is, as a mathematical value: its value, the position
/// of its source (the parent) and the position of its target (the child that
/// owns it).
pub struct EdgeView<E> {
    pub value: E,
    pub source: int,
    pub target: int,
}

/// An incoming edge of a node.
///
/// The edge is stored and owned by its target. It keeps its source alive: a
/// node cannot be destroyed while one of its children is alive.
#[derive(Debug)]
pub struct InnerEdgeData<E> {
    /// The value of the edge.
    pub(crate) value: E,
    /// The source (parent) of the edge, a strong reference.
    pub(crate) source: RelRc,
    /// The target (child) of the edge, a weak reference to its owner.
    pub(crate) target: RelWeak,
}

impl<E> View for InnerEdgeData<E> {
    type V = EdgeView<E>;

    open(crate) spec fn view(&self) -> EdgeView<E> {
        EdgeView { value: self.value, source: self.source@, target: self.target@ }
    }
}

impl<E> InnerEdgeData<E> {
    pub(crate) fn new(value: E, source: RelRc, target: RelWeak) -> (e: Self)
        ensures
            e@ == (EdgeView { value, source: source@, target: target@ }),
    {
        Self { value, source, target }
    }

    /// The value of the edge.
    pub fn value(&self) -> (v: &E)
        ensures
            *v == self@.value,
    {
        &self.value
    }

    /// The source node of the edge.
    pub fn source(&self) -> (p: &RelRc)
        ensures
            p@ == self@.source,
    {
        &self.source
    }

    /// The weak reference to this edge, given its position among the incoming
    /// edges of its target.
    pub(crate) fn downgrade(&self, target_pos: usize) -> (w: WeakEdge)
        ensures
            w@ == (self@.target, target_pos as int),
    {
        WeakEdge::new(target_pos, self.target)
    }
}

/// A weak reference to an edge: the target node, which owns the edge, and the
/// position of the edge among the incoming edges of the target.
///
/// Its view is the pair of the target's position and the edge's position.
#[derive(Clone, Copy, Debug)]
pub struct WeakEdge {
    /// The position of the edge among the incoming edges of its owner.
    pub(crate) index: usize,
    /// The target node (and owner) of the edge.
    pub(crate) target: RelWeak,
}

impl View for WeakEdge {
    type V = (int, int);

    open(crate) spec fn view(&self) -> (int, int) {
        (self.target@, self.index as int)
    }
}

impl WeakEdge {
    pub(crate) fn new(index: usize, target: RelWeak) -> (w: Self)
        ensures
            w@ == (target@, index as int),
    {
        Self { index, target }
    }

    /// Whether two weak references denote the same edge.
    pub fn ptr_eq(&self, other: &Self) -> (b: bool)
        ensures
            b == (self@ == other@),
    {
        self.index == other.index && self.target.ptr_eq(&other.target)
    }

    /// The target of the edge as a weak reference.
    pub fn target(&self) -> (t: &RelWeak)
        ensures
            t@ == self@.0,
    {
        &self.target
    }

    /// The position of the edge among the incoming edges of its target.
    pub fn index(&self) -> (k: usize)
        ensures
            k == self@.1,
    {
        self.index
    }
}

/// A strong reference to an edge: it holds a strong handle on the target,
/// which owns the edge.
///
/// Its view is the pair of the target's position and the edge's position.
#[derive(Debug)]
pub struct Edge {
    /// The position of the edge among the incoming edges of its owner.
    pub(crate) index: usize,
    /// The target node (and owner) of the edge.
    pub(crate) target: RelRc,
}

impl View for Edge {
    type V = (int, int);

    open(crate) spec fn view(&self) -> (int, int) {
        (self.target@, self.index as int)
    }
}

impl Edge {
    /// The target node of the edge.
    pub fn target(&self) -> (t: &RelRc)
        ensures
            t@ == self@.0,
    {
        &self.target
    }

    /// The position of the edge among the incoming edges of its target.
    pub fn index(&self) -> (k: usize)
        ensures
            k == self@.1,
    {
        self.index
    }

    /// Gives up the edge and keeps the strong handle on its target.
    pub fn into_target(self) -> (t: RelRc)
        ensures
            t@ == self@.0,
    {
        self.target
    }
}

impl<E> InnerEdgeData<E> {
    /// The target node of the edge, as a weak reference.
    ///
    /// The target owns the edge, so it is alive for as long as the edge can be
    /// reached through it, and the reference can be upgraded.
    pub fn target(&self) -> (t: RelWeak)
        ensures
            t@ == self@.target,
    {
        self.target
    }
}

impl WeakEdge {
    /// The strong reference to the edge, if its target is still alive.
    pub fn upgrade<N, E>(&self, arena: &mut Arena<N, E>) -> (e: Option<Edge>)
        requires
            old(arena).wf(),
        ensures
            final(arena).wf(),
            e is Some == old(arena).is_live(self@.0),
            e matches Some(x) ==> x@ == self@ && old(arena).held(final(arena), self@.0),
            e is None ==> *final(arena) == *old(arena),
    {
        match self.target.upgrade(arena) {
            Some(target) => Some(Edge { index: self.index, target }),
            None => None,
        }
    }
}

} // verus!
