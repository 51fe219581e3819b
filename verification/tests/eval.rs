use engine::card::{Card, Rank, Suit};
use engine::eval::{board_eval, describe_hand, rank_hand, rank_players, rank_with_board, HandRank};
use engine::hand::{BoardCards, HoleCards};
use engine::player::PlayerId;

fn c(r: Rank, s: Suit) -> Card {
    Card::new(r, s)
}

#[test]
fn rank_with_board_matches_rank_hand() {
    let boards = [
        BoardCards::empty(),
        BoardCards {
            flop: Some([
                c(Rank::King, Suit::Diamonds),
                c(Rank::Seven, Suit::Clubs),
                c(Rank::Two, Suit::Hearts),
            ]),
            turn: None,
            river: None,
        },
        BoardCards {
            flop: Some([
                c(Rank::Queen, Suit::Spades),
                c(Rank::Jack, Suit::Spades),
                c(Rank::Two, Suit::Hearts),
            ]),
            turn: Some(c(Rank::Five, Suit::Diamonds)),
            river: None,
        },
        BoardCards {
            flop: Some([
                c(Rank::Queen, Suit::Spades),
                c(Rank::Jack, Suit::Spades),
                c(Rank::Two, Suit::Hearts),
            ]),
            turn: Some(c(Rank::Five, Suit::Diamonds)),
            river: Some(c(Rank::Nine, Suit::Clubs)),
        },
    ];
    let holes = [
        HoleCards::new(c(Rank::Ace, Suit::Spades), c(Rank::Ace, Suit::Hearts)),
        HoleCards::new(c(Rank::Ace, Suit::Clubs), c(Rank::King, Suit::Hearts)),
        HoleCards::new(c(Rank::Ten, Suit::Hearts), c(Rank::Nine, Suit::Hearts)),
        HoleCards::new(
            c(Rank::Three, Suit::Diamonds),
            c(Rank::Four, Suit::Diamonds),
        ),
    ];
    for board in &boards {
        let be = board_eval(board);
        let board_set = board.all_cards();
        for hole in &holes {
            if board_set.contains(&hole.card1) || board_set.contains(&hole.card2) {
                continue;
            }
            assert_eq!(
                rank_with_board(&be, hole),
                rank_hand(hole, board),
                "fast eval disagreed with rank_hand for hole {hole:?} board {board:?}"
            );
        }
    }
}

fn card(r: Rank, s: Suit) -> Card {
    Card::new(r, s)
}

fn hole(c1: Card, c2: Card) -> HoleCards {
    HoleCards::new(c1, c2)
}

fn board5(c1: Card, c2: Card, c3: Card, c4: Card, c5: Card) -> BoardCards {
    BoardCards {
        flop: Some([c1, c2, c3]),
        turn: Some(c4),
        river: Some(c5),
    }
}

fn board3(c1: Card, c2: Card, c3: Card) -> BoardCards {
    BoardCards {
        flop: Some([c1, c2, c3]),
        turn: None,
        river: None,
    }
}

#[test]
fn high_card() {
    let h = hole(
        card(Rank::Ace, Suit::Spades),
        card(Rank::King, Suit::Diamonds),
    );
    let b = board5(
        card(Rank::Two, Suit::Clubs),
        card(Rank::Five, Suit::Hearts),
        card(Rank::Seven, Suit::Diamonds),
        card(Rank::Nine, Suit::Clubs),
        card(Rank::Jack, Suit::Spades),
    );
    assert!(matches!(rank_hand(&h, &b), HandRank::HighCard(_)));
}

#[test]
fn one_pair() {
    let h = hole(
        card(Rank::Ace, Suit::Spades),
        card(Rank::Ace, Suit::Diamonds),
    );
    let b = board5(
        card(Rank::Two, Suit::Clubs),
        card(Rank::Five, Suit::Hearts),
        card(Rank::Seven, Suit::Diamonds),
        card(Rank::Nine, Suit::Clubs),
        card(Rank::Jack, Suit::Spades),
    );
    assert!(matches!(rank_hand(&h, &b), HandRank::OnePair(_)));
}

#[test]
fn two_pair() {
    let h = hole(
        card(Rank::Ace, Suit::Spades),
        card(Rank::Ace, Suit::Diamonds),
    );
    let b = board5(
        card(Rank::King, Suit::Clubs),
        card(Rank::King, Suit::Hearts),
        card(Rank::Seven, Suit::Diamonds),
        card(Rank::Nine, Suit::Clubs),
        card(Rank::Jack, Suit::Spades),
    );
    assert!(matches!(rank_hand(&h, &b), HandRank::TwoPair(_)));
}

#[test]
fn three_of_a_kind() {
    let h = hole(
        card(Rank::Ace, Suit::Spades),
        card(Rank::Ace, Suit::Diamonds),
    );
    let b = board5(
        card(Rank::Ace, Suit::Clubs),
        card(Rank::King, Suit::Hearts),
        card(Rank::Seven, Suit::Diamonds),
        card(Rank::Nine, Suit::Clubs),
        card(Rank::Jack, Suit::Spades),
    );
    assert!(matches!(rank_hand(&h, &b), HandRank::ThreeOfAKind(_)));
}

#[test]
fn straight() {
    let h = hole(
        card(Rank::Ace, Suit::Spades),
        card(Rank::King, Suit::Diamonds),
    );
    let b = board5(
        card(Rank::Queen, Suit::Clubs),
        card(Rank::Jack, Suit::Hearts),
        card(Rank::Ten, Suit::Diamonds),
        card(Rank::Two, Suit::Clubs),
        card(Rank::Three, Suit::Spades),
    );
    assert!(matches!(rank_hand(&h, &b), HandRank::Straight(_)));
}

#[test]
fn flush() {
    let h = hole(
        card(Rank::Ace, Suit::Spades),
        card(Rank::King, Suit::Spades),
    );
    let b = board5(
        card(Rank::Queen, Suit::Spades),
        card(Rank::Jack, Suit::Spades),
        card(Rank::Nine, Suit::Spades),
        card(Rank::Two, Suit::Clubs),
        card(Rank::Three, Suit::Hearts),
    );
    assert!(matches!(rank_hand(&h, &b), HandRank::Flush(_)));
}

#[test]
fn full_house() {
    let h = hole(
        card(Rank::Ace, Suit::Spades),
        card(Rank::Ace, Suit::Diamonds),
    );
    let b = board5(
        card(Rank::Ace, Suit::Clubs),
        card(Rank::King, Suit::Hearts),
        card(Rank::King, Suit::Diamonds),
        card(Rank::Two, Suit::Clubs),
        card(Rank::Three, Suit::Spades),
    );
    assert!(matches!(rank_hand(&h, &b), HandRank::FullHouse(_)));
}

#[test]
fn four_of_a_kind() {
    let h = hole(
        card(Rank::Ace, Suit::Spades),
        card(Rank::Ace, Suit::Diamonds),
    );
    let b = board5(
        card(Rank::Ace, Suit::Clubs),
        card(Rank::Ace, Suit::Hearts),
        card(Rank::Seven, Suit::Diamonds),
        card(Rank::Nine, Suit::Clubs),
        card(Rank::Jack, Suit::Spades),
    );
    assert!(matches!(rank_hand(&h, &b), HandRank::FourOfAKind(_)));
}

#[test]
fn straight_flush() {
    let h = hole(
        card(Rank::Ace, Suit::Spades),
        card(Rank::King, Suit::Spades),
    );
    let b = board5(
        card(Rank::Queen, Suit::Spades),
        card(Rank::Jack, Suit::Spades),
        card(Rank::Ten, Suit::Spades),
        card(Rank::Two, Suit::Clubs),
        card(Rank::Three, Suit::Hearts),
    );
    assert!(matches!(rank_hand(&h, &b), HandRank::StraightFlush(_)));
}

#[test]
fn pair_of_aces_beats_pair_of_kings() {
    let board = board3(
        card(Rank::Two, Suit::Clubs),
        card(Rank::Five, Suit::Diamonds),
        card(Rank::Nine, Suit::Hearts),
    );
    let aces = rank_hand(
        &hole(
            card(Rank::Ace, Suit::Spades),
            card(Rank::Ace, Suit::Diamonds),
        ),
        &board,
    );
    let kings = rank_hand(
        &hole(
            card(Rank::King, Suit::Spades),
            card(Rank::King, Suit::Diamonds),
        ),
        &board,
    );
    assert!(aces > kings);
}

#[test]
fn higher_straight_beats_lower_straight() {
    let board = board3(
        card(Rank::Six, Suit::Clubs),
        card(Rank::Seven, Suit::Diamonds),
        card(Rank::Eight, Suit::Hearts),
    );
    let broadway = rank_hand(
        &hole(
            card(Rank::Nine, Suit::Spades),
            card(Rank::Ten, Suit::Diamonds),
        ),
        &board,
    );
    let lower = rank_hand(
        &hole(
            card(Rank::Four, Suit::Spades),
            card(Rank::Five, Suit::Diamonds),
        ),
        &board,
    );
    assert!(broadway > lower);
}

#[test]
fn flush_beats_straight() {
    let board = board3(
        card(Rank::Six, Suit::Spades),
        card(Rank::Seven, Suit::Spades),
        card(Rank::Eight, Suit::Spades),
    );
    let flush = rank_hand(
        &hole(
            card(Rank::Nine, Suit::Spades),
            card(Rank::Two, Suit::Spades),
        ),
        &board,
    );
    let straight = rank_hand(
        &hole(
            card(Rank::Nine, Suit::Diamonds),
            card(Rank::Ten, Suit::Clubs),
        ),
        &board,
    );
    assert!(flush > straight);
}

#[test]
fn full_house_beats_flush() {
    let board = board3(
        card(Rank::Ace, Suit::Clubs),
        card(Rank::Ace, Suit::Hearts),
        card(Rank::King, Suit::Spades),
    );
    let fh = rank_hand(
        &hole(
            card(Rank::Ace, Suit::Spades),
            card(Rank::King, Suit::Diamonds),
        ),
        &board,
    );
    let flush_hand = rank_hand(
        &hole(
            card(Rank::Two, Suit::Spades),
            card(Rank::Five, Suit::Spades),
        ),
        &BoardCards {
            flop: Some([
                card(Rank::Seven, Suit::Spades),
                card(Rank::Nine, Suit::Spades),
                card(Rank::Jack, Suit::Spades),
            ]),
            turn: None,
            river: None,
        },
    );
    assert!(matches!(fh, HandRank::FullHouse(_)));
    assert!(matches!(flush_hand, HandRank::Flush(_)));
    assert!(fh > flush_hand);
}

#[test]
fn quads_beats_full_house() {
    let board = board3(
        card(Rank::Ace, Suit::Clubs),
        card(Rank::Ace, Suit::Hearts),
        card(Rank::King, Suit::Spades),
    );
    let quads = rank_hand(
        &hole(
            card(Rank::Ace, Suit::Spades),
            card(Rank::Ace, Suit::Diamonds),
        ),
        &board,
    );
    let fh = rank_hand(
        &hole(
            card(Rank::King, Suit::Clubs),
            card(Rank::King, Suit::Diamonds),
        ),
        &board,
    );
    assert!(matches!(quads, HandRank::FourOfAKind(_)));
    assert!(matches!(fh, HandRank::FullHouse(_)));
    assert!(quads > fh);
}

#[test]
fn rank_players_sorts_winner_first() {
    let board = board5(
        card(Rank::Two, Suit::Clubs),
        card(Rank::Five, Suit::Hearts),
        card(Rank::Seven, Suit::Diamonds),
        card(Rank::Nine, Suit::Clubs),
        card(Rank::Jack, Suit::Spades),
    );
    let players = vec![
        (
            PlayerId::new(1),
            hole(card(Rank::Two, Suit::Hearts), card(Rank::Two, Suit::Spades)),
        ),
        (
            PlayerId::new(2),
            hole(
                card(Rank::Ace, Suit::Spades),
                card(Rank::King, Suit::Diamonds),
            ),
        ),
    ];
    let ranked = rank_players(&players, &board);
    assert_eq!(ranked[0].0, PlayerId::new(1));
    assert_eq!(ranked[1].0, PlayerId::new(2));
}

#[test]
fn rank_players_three_way_tie() {
    let board = board5(
        card(Rank::Ace, Suit::Clubs),
        card(Rank::King, Suit::Hearts),
        card(Rank::Queen, Suit::Diamonds),
        card(Rank::Jack, Suit::Clubs),
        card(Rank::Ten, Suit::Spades),
    );
    let players = vec![
        (
            PlayerId::new(1),
            hole(
                card(Rank::Two, Suit::Hearts),
                card(Rank::Three, Suit::Hearts),
            ),
        ),
        (
            PlayerId::new(2),
            hole(
                card(Rank::Four, Suit::Diamonds),
                card(Rank::Five, Suit::Diamonds),
            ),
        ),
        (
            PlayerId::new(3),
            hole(card(Rank::Six, Suit::Clubs), card(Rank::Seven, Suit::Clubs)),
        ),
    ];
    let ranked = rank_players(&players, &board);
    assert!(matches!(ranked[0].1, HandRank::Straight(_)));
    assert!(matches!(ranked[1].1, HandRank::Straight(_)));
    assert!(matches!(ranked[2].1, HandRank::Straight(_)));
    assert_eq!(ranked[0].1, ranked[1].1);
    assert_eq!(ranked[1].1, ranked[2].1);
}

#[test]
fn describe_hand_two_pair_aces_tens_kicker_king() {
    let h = hole(
        card(Rank::Ace, Suit::Spades),
        card(Rank::Ace, Suit::Diamonds),
    );
    let b = board5(
        card(Rank::Ten, Suit::Clubs),
        card(Rank::Ten, Suit::Hearts),
        card(Rank::King, Suit::Diamonds),
        card(Rank::Three, Suit::Clubs),
        card(Rank::Two, Suit::Spades),
    );
    let d = describe_hand(&h, &b);
    assert_eq!(d.category, "two_pair");
    assert_eq!(d.primary.as_deref(), Some("A"));
    assert_eq!(d.secondary.as_deref(), Some("T"));
    assert_eq!(d.kicker.as_deref(), Some("K"));
}

#[test]
fn describe_hand_ace_high_flush_lists_top_five_in_descending_order() {
    let h = hole(
        card(Rank::Ace, Suit::Spades),
        card(Rank::Nine, Suit::Spades),
    );
    let b = board5(
        card(Rank::King, Suit::Spades),
        card(Rank::Seven, Suit::Spades),
        card(Rank::Two, Suit::Spades),
        card(Rank::Three, Suit::Hearts),
        card(Rank::Four, Suit::Clubs),
    );
    let d = describe_hand(&h, &b);
    assert_eq!(d.category, "flush");
    assert_eq!(d.primary.as_deref(), Some("A"));
    assert_eq!(d.board, vec!["A", "K", "9", "7", "2"]);
}

#[test]
fn describe_hand_broadway_straight_ten_to_ace() {
    let h = hole(
        card(Rank::Ace, Suit::Spades),
        card(Rank::King, Suit::Diamonds),
    );
    let b = board5(
        card(Rank::Queen, Suit::Clubs),
        card(Rank::Jack, Suit::Hearts),
        card(Rank::Ten, Suit::Diamonds),
        card(Rank::Two, Suit::Clubs),
        card(Rank::Three, Suit::Spades),
    );
    let d = describe_hand(&h, &b);
    assert_eq!(d.category, "straight");
    assert_eq!(d.primary.as_deref(), Some("A"));
    assert_eq!(d.kicker.as_deref(), Some("T"));
    assert_eq!(d.board, vec!["A", "K", "Q", "J", "T"]);
}

#[test]
fn describe_hand_wheel_straight_five_high_ace_low() {
    let h = hole(
        card(Rank::Ace, Suit::Spades),
        card(Rank::Two, Suit::Diamonds),
    );
    let b = board5(
        card(Rank::Three, Suit::Clubs),
        card(Rank::Four, Suit::Hearts),
        card(Rank::Five, Suit::Diamonds),
        card(Rank::King, Suit::Clubs),
        card(Rank::Queen, Suit::Spades),
    );
    let d = describe_hand(&h, &b);
    assert_eq!(d.category, "straight");
    assert_eq!(d.primary.as_deref(), Some("5"));
    assert_eq!(d.kicker.as_deref(), Some("A"));
    assert_eq!(d.board, vec!["5", "4", "3", "2", "A"]);
}

#[test]
fn describe_hand_full_house_aces_over_kings() {
    let h = hole(
        card(Rank::Ace, Suit::Spades),
        card(Rank::Ace, Suit::Diamonds),
    );
    let b = board5(
        card(Rank::Ace, Suit::Clubs),
        card(Rank::King, Suit::Hearts),
        card(Rank::King, Suit::Diamonds),
        card(Rank::Two, Suit::Clubs),
        card(Rank::Three, Suit::Spades),
    );
    let d = describe_hand(&h, &b);
    assert_eq!(d.category, "full_house");
    assert_eq!(d.primary.as_deref(), Some("A"));
    assert_eq!(d.secondary.as_deref(), Some("K"));
}

#[test]
fn describe_hand_quads_with_kicker() {
    let h = hole(
        card(Rank::Ace, Suit::Spades),
        card(Rank::Ace, Suit::Diamonds),
    );
    let b = board5(
        card(Rank::Ace, Suit::Clubs),
        card(Rank::Ace, Suit::Hearts),
        card(Rank::King, Suit::Diamonds),
        card(Rank::Two, Suit::Clubs),
        card(Rank::Three, Suit::Spades),
    );
    let d = describe_hand(&h, &b);
    assert_eq!(d.category, "four_of_a_kind");
    assert_eq!(d.primary.as_deref(), Some("A"));
    assert_eq!(d.kicker.as_deref(), Some("K"));
}

#[test]
fn describe_hand_royal_flush_high_ace() {
    let h = hole(
        card(Rank::Ace, Suit::Spades),
        card(Rank::King, Suit::Spades),
    );
    let b = board5(
        card(Rank::Queen, Suit::Spades),
        card(Rank::Jack, Suit::Spades),
        card(Rank::Ten, Suit::Spades),
        card(Rank::Two, Suit::Clubs),
        card(Rank::Three, Suit::Hearts),
    );
    let d = describe_hand(&h, &b);
    assert_eq!(d.category, "straight_flush");
    assert_eq!(d.primary.as_deref(), Some("A"));
    assert_eq!(d.board, vec!["A", "K", "Q", "J", "T"]);
}

#[test]
fn describe_hand_one_pair_includes_top_kicker() {
    let h = hole(
        card(Rank::Ace, Suit::Spades),
        card(Rank::King, Suit::Diamonds),
    );
    let b = board5(
        card(Rank::Ace, Suit::Clubs),
        card(Rank::Seven, Suit::Hearts),
        card(Rank::Four, Suit::Diamonds),
        card(Rank::Two, Suit::Clubs),
        card(Rank::Three, Suit::Spades),
    );
    let d = describe_hand(&h, &b);
    assert_eq!(d.category, "one_pair");
    assert_eq!(d.primary.as_deref(), Some("A"));
    assert_eq!(d.kicker.as_deref(), Some("K"));
}

#[test]
fn describe_hand_high_card_top_two_ranks() {
    let h = hole(
        card(Rank::Ace, Suit::Spades),
        card(Rank::Queen, Suit::Diamonds),
    );
    let b = board5(
        card(Rank::Nine, Suit::Clubs),
        card(Rank::Seven, Suit::Hearts),
        card(Rank::Four, Suit::Diamonds),
        card(Rank::Two, Suit::Clubs),
        card(Rank::Three, Suit::Spades),
    );
    let d = describe_hand(&h, &b);
    assert_eq!(d.category, "high_card");
    assert_eq!(d.primary.as_deref(), Some("A"));
    assert_eq!(d.kicker.as_deref(), Some("Q"));
}
