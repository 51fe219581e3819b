use engine::card::{parse_card, Card, Rank, Suit};

#[test]
fn display_ace_spades() {
    assert_eq!(Card::new(Rank::Ace, Suit::Spades).to_string(), "As");
}

#[test]
fn display_ten_hearts() {
    assert_eq!(Card::new(Rank::Ten, Suit::Hearts).to_string(), "Th");
}

#[test]
fn parse_round_trip() {
    let card = Card::new(Rank::King, Suit::Diamonds);
    let s = card.to_string();
    let parsed = parse_card(&s).expect("parse_card failed");
    assert_eq!(card, parsed);
}

#[test]
fn parse_invalid_returns_none() {
    assert!(parse_card("XY").is_none());
    assert!(parse_card("").is_none());
    assert!(parse_card("Ash").is_none());
}
