use digital_composer::markov::MarkovChain;

#[test]
fn unobserved_context_returns_none() {
    let chain = MarkovChain::new();
    assert_eq!(chain.random_successor(42), None);
}

#[test]
fn other_contexts_stay_unobserved() {
    let mut chain = MarkovChain::new();
    chain.mark(1, 60);
    assert_eq!(chain.random_successor(2), None);
}

#[test]
fn single_symbol_is_always_returned() {
    let mut chain = MarkovChain::new();
    for _ in 0..5 {
        chain.mark(7, 60);
    }
    for _ in 0..50 {
        assert_eq!(chain.random_successor(7), Some(60));
    }
}

#[test]
fn observed_context_never_returns_none() {
    let mut chain = MarkovChain::new();
    chain.mark(3, 10);
    chain.mark(3, 20);
    chain.mark(3, 30);
    for _ in 0..100 {
        assert!(chain.random_successor(3).is_some());
    }
}

#[test]
fn only_marked_symbols_come_back() {
    let mut chain = MarkovChain::new();
    chain.mark(9, 60);
    chain.mark(9, 60);
    chain.mark(9, 64);
    for _ in 0..100 {
        let s = chain.random_successor(9).unwrap();
        assert!(s == 60 || s == 64);
    }
}

#[test]
fn contexts_are_independent() {
    let mut chain = MarkovChain::new();
    chain.mark(1, 10);
    chain.mark(2, 20);
    for _ in 0..20 {
        assert_eq!(chain.random_successor(1), Some(10));
        assert_eq!(chain.random_successor(2), Some(20));
    }
}
