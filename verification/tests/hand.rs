use engine::card::{Card, Rank, Suit};
use engine::hand::BoardCards;

fn c(r: Rank, s: Suit) -> Card {
    Card::new(r, s)
}

#[test]
fn empty_board_has_zero_cards() {
    let board = BoardCards::empty();
    assert_eq!(board.count(), 0);
    assert!(board.all_cards().is_empty());
}

#[test]
fn flop_board_has_three_cards() {
    let board = BoardCards {
        flop: Some([
            c(Rank::Ace, Suit::Spades),
            c(Rank::King, Suit::Diamonds),
            c(Rank::Seven, Suit::Clubs),
        ]),
        turn: None,
        river: None,
    };
    assert_eq!(board.count(), 3);
    assert_eq!(board.all_cards().len(), 3);
}

#[test]
fn full_board_has_five_cards() {
    let board = BoardCards {
        flop: Some([
            c(Rank::Ace, Suit::Spades),
            c(Rank::King, Suit::Diamonds),
            c(Rank::Seven, Suit::Clubs),
        ]),
        turn: Some(c(Rank::Two, Suit::Hearts)),
        river: Some(c(Rank::Nine, Suit::Diamonds)),
    };
    assert_eq!(board.count(), 5);
    assert_eq!(board.all_cards().len(), 5);
}
