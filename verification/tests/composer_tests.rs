use digital_composer::composer::{compose, generate, get_hash, train, ComposeError};

#[test]
fn hash_is_deterministic_and_content_derived() {
    assert_eq!(get_hash(&vec![1, 2, 3]), get_hash(&vec![1, 2, 3]));
    assert_ne!(get_hash(&vec![1, 2, 3]), get_hash(&vec![3, 2, 1]));
}

#[test]
fn hash_matches_the_reference_vectors() {
    // 64-bit FNV-1a of the empty input is the offset basis; of "a", a known value
    assert_eq!(get_hash(&vec![]), 0xcbf2_9ce4_8422_2325);
    assert_eq!(get_hash(&vec![0x61]), 0xaf63_dc4c_8601_ec8c);
}

#[test]
fn composition_uses_only_training_pitches() {
    let notes = vec![60, 64, 67, 60, 64, 67];
    let comp = compose(&notes, 1, 3).unwrap();
    assert_eq!(comp.len(), 3);
    for p in comp {
        assert!(p == 60 || p == 64 || p == 67);
    }
}

#[test]
fn longer_composition_stays_in_the_training_alphabet() {
    let notes = vec![1, 2, 3, 1, 2, 3, 1, 2];
    let comp = compose(&notes, 2, 32).unwrap();
    assert_eq!(comp.len(), 32);
    for p in comp {
        assert!(p == 1 || p == 2 || p == 3);
    }
}

#[test]
fn zero_length_composition_is_empty() {
    assert_eq!(compose(&vec![1, 2], 1, 0), Ok(vec![]));
}

#[test]
fn unobserved_final_context_stalls() {
    // the only mark is [1] -> 2; generation starts at the window [2]
    assert_eq!(compose(&vec![1, 2], 1, 5), Err(ComposeError::StalledGeneration));
}

#[test]
fn degenerate_chain_composes_deterministically() {
    // every trained context has exactly one successor, so the whole
    // composition is forced: [67]->60, [60]->64, [64]->67
    let notes = vec![60, 64, 67, 60, 64, 67];
    for _ in 0..20 {
        assert_eq!(compose(&notes, 1, 3), Ok(vec![60, 64, 67]));
    }
}

#[test]
fn train_then_generate() {
    let notes = vec![60, 64, 67, 60, 64, 67];
    let (chain, seed) = train(&notes, 1);
    assert_eq!(seed, vec![67]);
    let comp = generate(&chain, &seed, 10).unwrap();
    assert_eq!(comp.len(), 10);
    for p in comp {
        assert!(p == 60 || p == 64 || p == 67);
    }
}

#[test]
fn generate_on_empty_chain_stalls() {
    let notes = vec![5, 6];
    let (chain, _) = train(&notes, 1);
    // a context that was never observed stalls generation at once
    assert_eq!(
        generate(&chain, &vec![99], 1),
        Err(ComposeError::StalledGeneration)
    );
}
