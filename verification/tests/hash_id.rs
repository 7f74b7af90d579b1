use relrc::hash_id::hash_words;
use relrc::RelRcHash;

#[test]
fn words_are_mixed_in_one_by_one() {
    assert_eq!(hash_words(&vec![]), 0);
    let one = fxhash::hash64(&(0u64, 7u64));
    assert_eq!(hash_words(&vec![7]), one);
    assert_ne!(one, 0);
    assert_ne!(one, 7);
    let two = fxhash::hash64(&(one, 9u64));
    assert_eq!(hash_words(&vec![7, 9]), two);
    assert_ne!(hash_words(&vec![9, 7]), two);
}

#[test]
fn a_content_identity_is_its_bits() {
    let hash = RelRcHash::from(12usize);
    assert_eq!(hash, RelRcHash(12));
    assert_eq!(hash.bits(), 12);
    assert_eq!(usize::from(hash), 12);
    assert!(RelRcHash(1) < RelRcHash(2));
}

#[test]
fn the_content_identity_is_the_fx_hash_of_the_record() {
    let mut arena = relrc::Arena::<u32, u8>::new();
    let root = relrc::RelRc::new(&mut arena, 5);
    let no_edges: Vec<(RelRcHash, &u8)> = vec![];
    assert_eq!(root.hash_id(&arena).0, fxhash::hash(&(&5u32, &no_edges)));
    let child = relrc::RelRc::with_parents(&mut arena, 6, vec![(&root, 1)]);
    let edges: Vec<(RelRcHash, &u8)> = vec![(root.hash_id(&arena), &1)];
    assert_eq!(child.hash_id(&arena).0, fxhash::hash(&(&6u32, &edges)));
}

#[test]
fn a_word_is_mixed_in_by_rotating_and_multiplying() {
    let seed: u64 = 0x517c_c1b7_2722_0a95;
    let step = |hash: u64, word: u64| (hash.rotate_left(5) ^ word).wrapping_mul(seed);
    let pair = |state: u64, word: u64| step(step(0, state), word);
    assert_eq!(relrc::hash_id::FX_SEED, seed);
    assert_eq!(hash_words(&vec![]), 0);
    assert_eq!(hash_words(&vec![7]), pair(0, 7));
    assert_eq!(hash_words(&vec![7, u64::MAX]), pair(pair(0, 7), u64::MAX));
    assert_eq!(hash_words(&vec![1, 2, 3]), pair(pair(pair(0, 1), 2), 3));
    assert_ne!(hash_words(&vec![1, 2]), hash_words(&vec![2, 1]));
}
