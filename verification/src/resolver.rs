//! Equivalence between nodes, as the application defines it, for merging
//! graphs that were built independently.

use vstd::prelude::*;

verus! {

/// The error for two nodes that are not equivalent.
#[derive(Debug, Clone, Copy, PartialEq, Eq, Structural, Hash)]
pub struct NotEquivalent;

impl NotEquivalent {
    /// The message of the error.
    pub fn message(&self) -> (s: String)
        ensures
            s@ == "Vertices are not equivalent"@,
    {
        String::from_str("Vertices are not equivalent")
    }
}

/// The application's rule for when two nodes stand for the same thing, going
/// by their values and their incoming edges, and for how an edge value changes
/// when its source is replaced by an equivalent node.
///
/// Every method is a function of its arguments: it returns what the spec
/// function of the same name gives.
pub trait EquivalenceResolver<N, E> {
    /// What is needed to rewrite the edges that leave a node into the edges
    /// that leave the equivalent node.
    type MergeMapping;

    /// The identifier of the resolver.
    open spec fn id_spec(&self) -> Seq<char> {
        arbitrary()
    }

    /// The coarse key of a node with the given value and incoming edge values.
    open spec fn dedup_key_spec(&self, value: N, incoming_edges: Seq<E>) -> u64 {
        arbitrary()
    }

    /// The mapping from node `a` to node `b` if the two are equivalent, the
    /// sources of their incoming edges being pairwise the same.
    open spec fn merge_spec(
        &self,
        a_value: N,
        a_incoming_edges: Seq<E>,
        b_value: N,
        b_incoming_edges: Seq<E>,
    ) -> Option<Self::MergeMapping> {
        arbitrary()
    }

    /// The value of the edge after its source has moved along the mapping.
    open spec fn move_spec(&self, mapping: Self::MergeMapping, edge: E) -> E {
        arbitrary()
    }

    /// A unique identifier for the resolver.
    fn id(&self) -> (id: String)
        ensures
            id@ == self.id_spec(),
    ;

    /// A coarse key for grouping nodes that may be equivalent. Equivalent
    /// nodes must have the same key; nodes with the same key need not be
    /// equivalent.
    fn dedup_key(&self, value: &N, incoming_edges: &[&E]) -> (key: u64)
        ensures
            key == self.dedup_key_spec(*value, incoming_edges@.map_values(|e: &E| *e)),
    ;

    /// Decides whether two nodes are equivalent, and if so gives the mapping
    /// from the first to the second.
    ///
    /// The sources of the two lists of incoming edges are pairwise the same.
    fn try_merge_mapping(
        &self,
        a_value: &N,
        a_incoming_edges: &[&E],
        b_value: &N,
        b_incoming_edges: &[&E],
    ) -> (r: Result<Self::MergeMapping, NotEquivalent>)
        ensures
            r == (match self.merge_spec(
                *a_value,
                a_incoming_edges@.map_values(|e: &E| *e),
                *b_value,
                b_incoming_edges@.map_values(|e: &E| *e),
            ) {
                Some(m) => Ok::<Self::MergeMapping, NotEquivalent>(m),
                None => Err::<Self::MergeMapping, NotEquivalent>(NotEquivalent),
            }),
    ;

    /// The value of an edge after its source has been replaced by the
    /// equivalent node that the mapping leads to.
    fn move_edge_source(&self, mapping: &Self::MergeMapping, edge: &E) -> (moved: E)
        ensures
            moved == self.move_spec(*mapping, *edge),
    ;
}

/// The identifier of a resolver, kept with what was built with it.
#[derive(Debug, Clone, PartialEq, Eq)]
pub struct ResolverId {
    id: String,
}

impl View for ResolverId {
    type V = Seq<char>;

    closed spec fn view(&self) -> Seq<char> {
        self.id@
    }
}

impl ResolverId {
    /// The identifier of the given resolver.
    pub fn of<N, E, R: EquivalenceResolver<N, E>>(resolver: &R) -> (id: ResolverId)
        ensures
            id@ == resolver.id_spec(),
    {
        ResolverId { id: resolver.id() }
    }

    /// The identifier as a string.
    pub fn into_string(self) -> (s: String)
        ensures
            s@ == self@,
    {
        self.id
    }

    /// Checks that this is the identifier of the given resolver.
    ///
    /// The error holds this identifier and the one of the resolver, in this
    /// order.
    pub fn check<N, E, R: EquivalenceResolver<N, E>>(&self, resolver: &R) -> (r: Result<
        (),
        InvalidResolver,
    >)
        ensures
            r is Ok <==> self@ == resolver.id_spec(),
            r matches Err(e) ==> e.0@ == self@ && e.1@ == resolver.id_spec(),
    {
        let expected = resolver.id();
        if self.id == expected {
            Ok(())
        } else {
            Err(InvalidResolver(self.id.clone(), expected))
        }
    }
}

/// The error for a resolver whose identifier is not the expected one: the
/// identifier that was found, and the one that was expected.
#[derive(Debug, Clone, PartialEq, Eq, Hash)]
pub struct InvalidResolver(pub String, pub String);

} // verus!
