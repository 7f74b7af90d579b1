//! Content identities of nodes.

use std::hash::Hash;
use vstd::prelude::*;

verus! {

/// The content identity of a node: a digest of its value, of the values of its
/// incoming edges and of the content identities of its parents.
///
/// Unlike the position of a node in its arena, the content identity is the
/// same in every arena and in every process.
#[derive(Clone, Copy, Debug, PartialEq, Eq, Structural, Hash, PartialOrd, Ord)]
pub struct RelRcHash(pub usize);

impl RelRcHash {
    /// The digest as a plain integer.
    pub fn bits(&self) -> (b: usize)
        ensures
            b == self.0,
    {
        self.0
    }
}

/// Calls `fxhash::hash` on the pair of a node value and the list of its
/// incoming edges, each given by the content identity of its source and the
/// edge value.
///
/// Nothing is claimed of the digest: the values are hashed through their own
/// `Hash` impls, which are not known here.
#[verifier::external_body]
pub(crate) fn content_hash<N: Hash, E: Hash>(value: &N, incoming: &Vec<(RelRcHash, &E)>) -> (h:
    RelRcHash) {
    RelRcHash(fxhash::hash(&(value, incoming)))
}

/// The multiplier of the Fx hash for 64-bit words.
pub const FX_SEED: u64 = 0x517c_c1b7_2722_0a95;

/// The state of a 64-bit Fx hasher after it has taken one more word: the
/// state is rotated left by five bits, combined with the word by exclusive
/// or, and multiplied by the multiplier, all in 64 bits.
pub open spec fn fx_word(hash: u64, word: u64) -> u64 {
    (((((hash << 5u64) | (hash >> 59u64)) ^ word) as int * FX_SEED as int)
        % 0x1_0000_0000_0000_0000) as u64
}

/// What `fxhash::hash64` gives for a pair of 64-bit integers: the state of a
/// hasher that starts from zero and takes the two words in their order.
pub open spec fn fx_hash_pair(state: u64, word: u64) -> u64 {
    fx_word(fx_word(0, state), word)
}

/// Calls `fxhash::hash64` on the pair of the two integers: a 64-bit Fx
/// hasher starts from zero, is fed the two of them in this order, and its
/// state is the digest.
#[verifier::external_body]
pub(crate) fn mix(state: u64, word: u64) -> (h: u64)
    ensures
        h == fx_hash_pair(state, word),
{
    fxhash::hash64(&(state, word))
}

/// The digest of a sequence of words: the words are mixed in one by one,
/// starting from zero.
pub open spec fn mix_all(words: Seq<u64>) -> u64
    decreases words.len(),
{
    if words.len() == 0 {
        0
    } else {
        fx_hash_pair(mix_all(words.drop_last()), words.last())
    }
}

/// The digest of a sequence of words.
pub fn hash_words(words: &Vec<u64>) -> (h: u64)
    ensures
        h == mix_all(words@),
{
    let mut h: u64 = 0;
    let mut j: usize = 0;
    while j < words.len()
        invariant
            j <= words@.len(),
            h == mix_all(words@.take(j as int)),
        decreases words@.len() - j,
    {
        assert(words@.take(j + 1).drop_last() == words@.take(j as int));
        assert(words@.take(j + 1).last() == words@[j as int]);
        h = mix(h, words[j]);
        j += 1;
    }
    assert(words@.take(words@.len() as int) == words@);
    h
}

impl From<usize> for RelRcHash {
    fn from(bits: usize) -> (h: RelRcHash) {
        RelRcHash(bits)
    }
}

impl vstd::std_specs::convert::FromSpecImpl<usize> for RelRcHash {
    open spec fn obeys_from_spec() -> bool {
        true
    }

    open spec fn from_spec(bits: usize) -> RelRcHash {
        RelRcHash(bits)
    }
}

impl From<RelRcHash> for usize {
    fn from(h: RelRcHash) -> (bits: usize) {
        h.0
    }
}

impl vstd::std_specs::convert::FromSpecImpl<RelRcHash> for usize {
    open spec fn obeys_from_spec() -> bool {
        true
    }

    open spec fn from_spec(h: RelRcHash) -> usize {
        h.0
    }
}

} // verus!
