use engine::deck::{Deck, DeckError};
use engine::rng::PokerRng;
use std::collections::HashSet;

#[test]
fn new_produces_52_unique_cards() {
    let mut rng = PokerRng::from_seed(42);
    let mut deck = Deck::new(&mut rng);
    let mut seen = HashSet::new();
    for _ in 0..52 {
        let card = deck.deal().expect("should have 52 cards");
        assert!(seen.insert(card), "duplicate card: {card:?}");
    }
    assert_eq!(seen.len(), 52);
}

#[test]
fn deal_returns_err_after_52() {
    let mut rng = PokerRng::from_seed(0);
    let mut deck = Deck::new(&mut rng);
    for _ in 0..52 {
        deck.deal().unwrap();
    }
    assert_eq!(deck.deal(), Err(DeckError::Exhausted));
}

#[test]
fn remaining_decrements() {
    let mut rng = PokerRng::from_seed(1);
    let mut deck = Deck::new(&mut rng);
    assert_eq!(deck.remaining(), 52);
    deck.deal().unwrap();
    assert_eq!(deck.remaining(), 51);
}

#[test]
fn deterministic_from_seed() {
    let mut rng_a = PokerRng::from_seed(999);
    let mut rng_b = PokerRng::from_seed(999);
    let card_a = Deck::new(&mut rng_a).deal().unwrap();
    let card_b = Deck::new(&mut rng_b).deal().unwrap();
    assert_eq!(card_a, card_b);
}
