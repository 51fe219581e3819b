use engine::action::ActionError;
use engine::card::{parse_card, Card, Rank, Suit};
use engine::deck::{exchange, pick_below, Deck, DeckError};
use engine::eval::{
    board_eval, describe_hand, describe_ranked, has_duplicate_cards, rank_hand, rank_players, rank_with_board,
    sort_ranked, HandRank, RankDescription,
};
use engine::hand::{BoardCards, HoleCards, Street};
use engine::player::{Chips, PlayerId, Position, Seat};
use engine::rng::PokerRng;
use std::collections::HashSet;

fn cd(s: &str) -> Card {
    parse_card(s).unwrap()
}

fn hole(a: &str, b: &str) -> HoleCards {
    HoleCards::new(cd(a), cd(b))
}

fn board(s: [&str; 5]) -> BoardCards {
    BoardCards {
        flop: Some([cd(s[0]), cd(s[1]), cd(s[2])]),
        turn: Some(cd(s[3])),
        river: Some(cd(s[4])),
    }
}

#[test]
fn every_card_is_read_back_from_its_text() {
    for rank in Rank::ALL {
        for suit in Suit::ALL {
            let card = Card::new(rank, suit);
            assert_eq!(parse_card(&card.to_string()), Some(card));
        }
    }
}

#[test]
fn other_texts_are_no_cards() {
    for s in ["", "A", "Ass", "1s", "Ax", "sA", " As", "\u{c5}s"] {
        assert_eq!(parse_card(s), None);
    }
    assert_eq!(parse_card("tH"), Some(Card::new(Rank::Ten, Suit::Hearts)));
}

#[test]
fn shuffle_keeps_every_card_and_changes_the_order() {
    let mut rng = PokerRng::from_seed(3);
    let deck = Deck::new(&mut rng);
    let seen: HashSet<Card> = deck.cards().iter().copied().collect();
    assert_eq!(seen.len(), 52);
    let fresh: Vec<Card> = Rank::ALL
        .iter()
        .flat_map(|r| Suit::ALL.iter().map(move |s| Card::new(*r, *s)))
        .collect();
    assert_ne!(deck.cards(), &fresh[..]);
    let next = Deck::new(&mut rng);
    assert_ne!(deck.cards(), next.cards());
}

#[test]
fn given_deck_is_dealt_from_its_front() {
    let mut deck = Deck::from_cards(vec![cd("As"), cd("Kd")]);
    assert_eq!(deck.remaining(), 2);
    assert_eq!(deck.deal(), Ok(cd("As")));
    assert_eq!(deck.deal(), Ok(cd("Kd")));
    assert_eq!(deck.deal(), Err(DeckError::Exhausted));
    assert_eq!(deck.remaining(), 0);
    assert_eq!(deck.cards().len(), 2);
    assert_eq!(DeckError::Exhausted.to_string(), "deck is exhausted");
}

#[test]
fn rank_names_are_read_back() {
    let ranks = [
        HandRank::HighCard(1),
        HandRank::OnePair(2),
        HandRank::TwoPair(3),
        HandRank::ThreeOfAKind(4),
        HandRank::Straight(5),
        HandRank::Flush(6),
        HandRank::FullHouse(7),
        HandRank::FourOfAKind(8),
        HandRank::StraightFlush(9),
    ];
    for (i, r) in ranks.iter().enumerate() {
        assert_eq!(HandRank::from_name(r.name(), i as u32 + 1), Some(*r));
    }
    assert_eq!(HandRank::from_name("royal_flush", 1), None);
    assert_eq!(HandRank::from_name("", 1), None);
}

#[test]
fn ranks_are_ordered_by_category_then_strength() {
    assert!(HandRank::HighCard(900) < HandRank::OnePair(1));
    assert!(HandRank::Flush(1) > HandRank::Straight(900));
    assert!(HandRank::TwoPair(3) < HandRank::TwoPair(4));
    assert!(HandRank::FullHouse(7) <= HandRank::FullHouse(7));
}

#[test]
fn suits_are_not_confused() {
    let flush = board(["2h", "7h", "9h", "Jc", "4d"]);
    assert!(matches!(rank_hand(&hole("Ah", "Kh"), &flush), HandRank::Flush(_)));
    for other in ["Kd", "Kc", "Ks"] {
        assert!(matches!(rank_hand(&hole("Ah", other), &flush), HandRank::HighCard(_)));
    }
}

#[test]
fn card_given_twice_counts_once() {
    let b = board(["2h", "7s", "9h", "Jc", "4d"]);
    let twice = rank_hand(&hole("Ah", "2h"), &b);
    assert!(matches!(twice, HandRank::HighCard(_)));
}

#[test]
fn prepared_board_ranks_alike() {
    let b = board(["2h", "7h", "9h", "Jc", "4d"]);
    let e = board_eval(&b);
    for h in [hole("Ah", "Kh"), hole("Js", "Jd"), hole("8c", "Tc"), hole("3s", "5s")] {
        assert_eq!(rank_with_board(&e, &h), rank_hand(&h, &b));
    }
}

#[test]
fn ranking_is_sorted_and_stable() {
    let b = board(["2h", "7c", "9h", "Jc", "Qd"]);
    let players = [
        (PlayerId(1), hole("3s", "4s")),
        (PlayerId(2), hole("Ah", "As")),
        (PlayerId(3), hole("3d", "4d")),
        (PlayerId(4), hole("Ad", "Ac")),
    ];
    let r = rank_players(&players, &b);
    let ids: Vec<u64> = r.iter().map(|p| p.0.inner()).collect();
    assert_eq!(ids, vec![2, 4, 1, 3]);
    assert_eq!(r[0].1, r[1].1);
    assert_eq!(r[2].1, r[3].1);
    assert!(r[1].1 > r[2].1);
}

#[test]
fn duplicates_are_found() {
    assert!(!has_duplicate_cards(&[cd("As"), cd("Ah"), cd("Ks")]));
    assert!(has_duplicate_cards(&[cd("As"), cd("Ah"), cd("As")]));
    assert!(!has_duplicate_cards(&[]));
}

#[test]
fn description_follows_the_given_rank() {
    let b = board(["2h", "7c", "9h", "Jc", "Qd"]);
    let h = hole("Ks", "As");
    let d = describe_ranked(HandRank::HighCard(0), &h, &b);
    assert_eq!(d.category, "high_card");
    assert_eq!(d.primary.as_deref(), Some("A"));
    assert_eq!(d.kicker.as_deref(), Some("K"));
    assert_eq!(d.board, vec!["A", "K", "Q", "J", "9"]);
    let none = describe_ranked(HandRank::Straight(0), &h, &b);
    assert_eq!(none.primary, None);
    assert!(none.board.is_empty());
    assert_eq!(d.clone(), d);
}

#[test]
fn wheel_is_described_from_five_to_ace() {
    let d = describe_ranked(
        HandRank::Straight(0),
        &hole("As", "2d"),
        &board(["3h", "4c", "5h", "Jc", "Qd"]),
    );
    assert_eq!(d.primary.as_deref(), Some("5"));
    assert_eq!(d.kicker.as_deref(), Some("A"));
    assert_eq!(d.board, vec!["5", "4", "3", "2", "A"]);
}

#[test]
fn category_alone_has_no_ranks() {
    let d = RankDescription::category_only("flush");
    assert_eq!(d.category, "flush");
    assert_eq!((d.primary, d.secondary, d.kicker), (None, None, None));
    assert!(d.board.is_empty());
}

#[test]
fn texts_of_small_values() {
    assert_eq!(PlayerId(0).to_string(), "0");
    assert_eq!(PlayerId(u64::MAX).to_string(), "18446744073709551615");
    assert_eq!(PlayerId(70).tagged(), "PlayerId(70)");
    assert_eq!(Chips(1005).to_string(), "1005");
    assert_eq!(Seat(9).to_string(), "9");
    assert_eq!(Suit::Hearts.to_string(), "h");
    assert_eq!(Rank::Ten.to_string(), "T");
    assert_eq!(Street::Turn.to_string(), "turn");
}

#[test]
fn chips_stop_at_the_ends() {
    assert_eq!(Chips(u32::MAX).saturating_add(Chips(1)), Chips(u32::MAX));
    assert_eq!(Chips(3).saturating_add(Chips(4)), Chips(7));
    assert_eq!(Chips(3).saturating_sub(Chips(4)), Chips(0));
    assert_eq!(Chips(3).checked_sub(Chips(4)), None);
    assert_eq!(Chips(9).checked_sub(Chips(4)), Some(Chips(5)));
    assert_eq!(Chips::zero(), Chips(0));
    assert_eq!(u32::from(Chips::from(8)), 8);
}

#[test]
fn positions_of_up_to_nine_seats_differ() {
    for n in 2..=9u8 {
        let seats: Vec<u8> = (0..n).map(|i| i * 3).collect();
        for dealer in &seats {
            let all: HashSet<Position> =
                seats.iter().map(|s| Position::for_seat(*s, *dealer, &seats)).collect();
            assert_eq!(all.len(), n as usize);
        }
    }
}

#[test]
fn large_tables_have_positions_too() {
    let seats: Vec<u8> = (0..=255).collect();
    assert_eq!(Position::for_seat(0, 0, &seats), Position::Dealer);
    assert_eq!(Position::for_seat(255, 0, &seats), Position::Cutoff);
    assert_eq!(Position::for_seat(254, 0, &seats), Position::Hijack);
    assert_eq!(Position::for_seat(100, 0, &seats), Position::Lojack);
}

#[test]
fn every_action_error_has_its_words() {
    let all = [
        (ActionError::NotYourTurn, "not your turn"),
        (ActionError::InvalidAction, "invalid action"),
        (ActionError::BelowMinRaise, "raise amount below minimum"),
        (ActionError::NotInHand, "player not in hand"),
        (ActionError::HandFinished, "hand already finished"),
        (ActionError::HandNotStarted, "hand not started"),
        (ActionError::StaleHand, "stale hand reference"),
        (ActionError::StaleStreet, "stale street reference"),
        (ActionError::OutOfSequence, "action out of sequence"),
        (ActionError::InvalidAllInAmount, "invalid all-in amount"),
        (ActionError::AlreadyFolded, "player has folded"),
        (ActionError::StraddleNotSupported, "straddle is not supported in M1"),
    ];
    for (e, text) in all {
        assert_eq!(e.to_string(), text);
    }
}

#[test]
fn four_cards_without_a_kicker_are_ranked() {
    let quads = BoardCards { flop: None, turn: Some(cd("Ad")), river: Some(cd("Ac")) };
    assert_eq!(rank_hand(&hole("As", "Ah"), &quads), HandRank::FourOfAKind(2_181_038_080));
    let pairs = BoardCards { flop: None, turn: Some(cd("Kd")), river: Some(cd("Kc")) };
    assert_eq!(rank_hand(&hole("As", "Ah"), &pairs), HandRank::TwoPair(2_197_815_296));
    assert_eq!(
        rank_with_board(&board_eval(&pairs), &hole("As", "Ah")),
        HandRank::TwoPair(2_197_815_296)
    );
    let twice = board(["As", "Ah", "Ad", "Ac", "As"]);
    assert_eq!(rank_hand(&hole("As", "Ah"), &twice), HandRank::FourOfAKind(2_181_038_080));
    let kicker = BoardCards { flop: None, turn: Some(cd("Ad")), river: Some(cd("Kc")) };
    assert!(matches!(rank_hand(&hole("As", "Ah"), &kicker), HandRank::ThreeOfAKind(_)));
}

#[test]
fn given_ranks_are_sorted_best_first() {
    let given = [
        (PlayerId(1), HandRank::OnePair(4)),
        (PlayerId(2), HandRank::Flush(1)),
        (PlayerId(3), HandRank::OnePair(4)),
        (PlayerId(4), HandRank::OnePair(9)),
    ];
    let ids: Vec<u64> = sort_ranked(&given).iter().map(|p| p.0.inner()).collect();
    assert_eq!(ids, vec![2, 4, 1, 3]);
}

#[test]
fn words_that_favour_small_numbers_are_passed_over() {
    assert_eq!(pick_below(17, 5), Some(2));
    assert_eq!(pick_below(u64::MAX, 3), None);
    assert_eq!(pick_below(u64::MAX - 1, 3), Some(2));
    assert_eq!(pick_below(u64::MAX, 52), None);
    assert_eq!(pick_below(u64::MAX - 16, 52), Some(51));
    assert_eq!(pick_below(u64::MAX - 15, 52), None);
}

#[test]
fn two_cards_change_places() {
    let mut cards = vec![cd("As"), cd("Kd"), cd("Qh")];
    exchange(&mut cards, 0, 2);
    assert_eq!(cards, vec![cd("Qh"), cd("Kd"), cd("As")]);
    exchange(&mut cards, 1, 1);
    assert_eq!(cards, vec![cd("Qh"), cd("Kd"), cd("As")]);
}

#[test]
fn descriptions_name_what_they_are_about() {
    let boards = [
        board(["2h", "7h", "9h", "Jh", "Qh"]),
        board(["2h", "2c", "9h", "9c", "Qd"]),
        board(["2h", "2c", "2d", "9c", "9d"]),
        board(["Ts", "Js", "Qs", "Ks", "2d"]),
        board(["3s", "4d", "5s", "7s", "Kd"]),
        BoardCards::empty(),
    ];
    let holes = [hole("As", "Ah"), hole("2s", "6c"), hole("Ac", "Kc"), hole("9s", "As")];
    for b in &boards {
        for h in &holes {
            let d = describe_hand(h, b);
            assert!(d.primary.is_some(), "{d:?}");
            if d.category == "two_pair" || d.category == "full_house" {
                assert!(d.secondary.is_some(), "{d:?}");
            }
            if d.category.contains("straight") || d.category == "flush" {
                assert_eq!(d.board.len(), 5, "{d:?}");
            }
        }
    }
}
