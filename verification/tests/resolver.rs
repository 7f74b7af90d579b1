use relrc::{EquivalenceResolver, InvalidResolver, NotEquivalent, ResolverId};

/// A resolver for nodes `(usize, usize)` and edges `usize`.
///
/// Two nodes are equivalent if the first elements of their values are the
/// same. Every outgoing edge has the second element of its source as value.
#[derive(Debug, Copy, Clone, Default)]
struct TestResolver;

impl EquivalenceResolver<(usize, usize), usize> for TestResolver {
    type MergeMapping = usize;

    fn id(&self) -> String {
        "test_resolver".to_string()
    }

    fn dedup_key(&self, value: &(usize, usize), _incoming_edges: &[&usize]) -> u64 {
        value.0 as u64
    }

    fn try_merge_mapping(
        &self,
        a_value: &(usize, usize),
        _a_incoming_edges: &[&usize],
        b_value: &(usize, usize),
        _b_incoming_edges: &[&usize],
    ) -> Result<Self::MergeMapping, NotEquivalent> {
        if a_value.0 == b_value.0 {
            Ok(b_value.1)
        } else {
            Err(NotEquivalent)
        }
    }

    fn move_edge_source(&self, mapping: &Self::MergeMapping, _edge: &usize) -> usize {
        *mapping
    }
}

#[test]
fn test_resolver_equivalence() {
    let resolver = TestResolver;

    // Equivalent nodes (same first element)
    let a_value = (1, 2);
    let b_value = (1, 3);

    let result = resolver.try_merge_mapping(&a_value, &[], &b_value, &[]);
    assert!(result.is_ok());
    assert_eq!(result.unwrap(), 3);

    // Non-equivalent nodes (different first element)
    let c_value = (2, 2);
    let result = resolver.try_merge_mapping(&a_value, &[], &c_value, &[]);
    assert!(result.is_err());
}

#[test]
fn test_resolver_edge_update() {
    let resolver = TestResolver;

    // Create a merge mapping (second element of target node)
    let mapping = 5;

    // The edge value before the move doesn't matter, it will be replaced with the mapping
    let edge = 10;

    // Edge should be updated to the second element of the target node
    assert_eq!(resolver.move_edge_source(&mapping, &edge), 5);
}

#[test]
fn resolver_id_matches_its_resolver() {
    let resolver = TestResolver;
    let id = ResolverId::of(&resolver);
    assert_eq!(id.check(&resolver), Ok(()));
    assert_eq!(id.into_string(), "test_resolver");
}

#[test]
fn not_equivalent_message() {
    assert_eq!(NotEquivalent.message(), "Vertices are not equivalent");
}

struct OtherResolver;

impl EquivalenceResolver<(usize, usize), usize> for OtherResolver {
    type MergeMapping = ();

    fn id(&self) -> String {
        "other".to_string()
    }

    fn dedup_key(&self, _value: &(usize, usize), _incoming_edges: &[&usize]) -> u64 {
        0
    }

    fn try_merge_mapping(
        &self,
        _a_value: &(usize, usize),
        _a_incoming_edges: &[&usize],
        _b_value: &(usize, usize),
        _b_incoming_edges: &[&usize],
    ) -> Result<Self::MergeMapping, NotEquivalent> {
        Err(NotEquivalent)
    }

    fn move_edge_source(&self, _mapping: &Self::MergeMapping, edge: &usize) -> usize {
        *edge
    }
}

#[test]
fn resolver_id_rejects_another_resolver() {
    let id = ResolverId::of(&TestResolver);
    assert_eq!(
        id.check(&OtherResolver),
        Err(InvalidResolver("test_resolver".to_string(), "other".to_string()))
    );
}
