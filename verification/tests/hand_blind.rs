use engine::action::PlayerAction;
use engine::card::{Card, Rank, Suit};
use engine::event::EngineEvent;
use engine::game::{
    cards_for_street, BlindFinishError, BlindInjectError, GameHand, GameSnapshot, HoleSlot,
};
use engine::hand::{HoleCards, Street};
use engine::player::{Chips, PlayerId};
use engine::rng::{DeckSeed, PokerRng};

fn pid(n: u64) -> PlayerId {
    PlayerId::new(n)
}
fn c(n: u32) -> Chips {
    Chips(n)
}
fn card(r: Rank, s: Suit) -> Card {
    Card::new(r, s)
}
fn hole(a: Card, b: Card) -> HoleCards {
    HoleCards::new(a, b)
}

fn run_blind_betting(
    hand: &mut GameHand,
    board_cards: &[Card],
    mut act: impl FnMut(&GameSnapshot, PlayerId) -> PlayerAction,
) {
    let mut board_offset = 0usize;
    let mut safety = 0;
    loop {
        if hand.is_done() {
            break;
        }
        safety += 1;
        assert!(safety < 200, "blind betting loop runaway");

        if let Some(street) = hand.pending_board_street() {
            let n = cards_for_street(street);
            let slice = &board_cards[board_offset..board_offset + n];
            board_offset += n;
            hand.inject_board_for_street(slice).expect("inject board");
            continue;
        }

        let snap = hand.snapshot();
        let actor = match snap.current_actor {
            Some(a) => a,
            None => break,
        };
        let action = act(&snap, actor);
        hand.apply_action(actor, action).expect("apply action");
    }
    while let Some(street) = hand.pending_board_street() {
        let n = cards_for_street(street);
        let slice = &board_cards[board_offset..board_offset + n];
        board_offset += n;
        hand.inject_board_for_street(slice)
            .expect("inject trailing board");
    }
}

fn standard_board() -> [Card; 5] {
    [
        card(Rank::Two, Suit::Clubs),
        card(Rank::Seven, Suit::Diamonds),
        card(Rank::Nine, Suit::Spades),
        card(Rank::Jack, Suit::Hearts),
        card(Rank::Four, Suit::Clubs),
    ]
}

#[test]
fn blind_tests_blind_full_hand_no_hole_values() {
    let mut hand = GameHand::new_blind(
        vec![(pid(1), c(1000), 0), (pid(2), c(1000), 1)],
        0,
        c(20),
        c(10),
        DeckSeed::default(),
    );
    hand.start().unwrap();

    let evs = hand.drain_events();
    assert!(
        evs.iter()
            .all(|e| !matches!(e, EngineEvent::HoleCardsDealt { .. })),
        "blind start must NOT emit any HoleCardsDealt event"
    );

    let snap = hand.snapshot();
    assert!(
        snap.players.iter().all(|p| p.hole_cards.is_none()),
        "no plaintext hole values in a blind snapshot before showdown"
    );

    let board = standard_board();
    run_blind_betting(&mut hand, &board, |snap, actor| {
        let committed = snap
            .players
            .iter()
            .find(|p| p.player_id == actor)
            .map(|p| p.committed_this_street.0)
            .unwrap_or(0);
        let to_call = snap.current_bet.0.saturating_sub(committed);
        if to_call > 0 {
            PlayerAction::Call
        } else {
            PlayerAction::Check
        }
    });

    assert!(hand.is_done());
    let snap = hand.snapshot();
    assert_eq!(snap.board.count(), 5, "full board revealed via injection");
    assert!(snap.players.iter().all(|p| p.hole_cards.is_none()));

    assert!(
        hand.seats().iter().all(|s| s.hole == HoleSlot::Opaque),
        "every blind seat remains Opaque before any showdown reveal"
    );

    let err = hand.finish_blind().unwrap_err();
    assert!(matches!(err, BlindFinishError::MissingReveal { .. }));
}

#[test]
fn blind_tests_blind_fold_around_awards_without_reveal() {
    let mut hand = GameHand::new_blind(
        vec![(pid(1), c(1000), 0), (pid(2), c(1000), 1)],
        0,
        c(20),
        c(10),
        DeckSeed::default(),
    );
    hand.start().unwrap();
    let actor = hand.snapshot().current_actor.unwrap();
    assert_eq!(actor, pid(1));
    hand.apply_action(actor, PlayerAction::Fold).unwrap();
    assert!(hand.is_done());

    let result = hand.finish_blind().expect("uncontested finish");
    assert!(
        result.showdown.is_empty(),
        "uncontested blind hand has an EMPTY showdown (zero leak)"
    );
    assert!(
        result.show_order.is_empty(),
        "no show order for an uncontested hand"
    );
    let total: u32 = result.chips_awarded.values().sum();
    assert_eq!(total, 30, "pot fully awarded");
    assert_eq!(
        *result.chips_awarded.get(&pid(2).inner()).unwrap(),
        30,
        "lone survivor (BB) wins the whole pot"
    );
    assert_eq!(result.board.count(), 0);
}

#[test]
fn blind_tests_blind_last_man_standing_three_handed() {
    let mut hand = GameHand::new_blind(
        vec![
            (pid(1), c(500), 0),
            (pid(2), c(500), 1),
            (pid(3), c(500), 2),
        ],
        0,
        c(20),
        c(10),
        DeckSeed::default(),
    );
    hand.start().unwrap();
    let a = hand.snapshot().current_actor.unwrap();
    hand.apply_action(a, PlayerAction::Fold).unwrap();
    let a = hand.snapshot().current_actor.unwrap();
    hand.apply_action(a, PlayerAction::Fold).unwrap();
    assert!(hand.is_done());

    let result = hand.finish_blind().expect("uncontested finish");
    assert!(result.showdown.is_empty());
    assert_eq!(
        *result.chips_awarded.get(&pid(3).inner()).unwrap(),
        30,
        "lone survivor wins SB+BB"
    );
}

#[test]
fn blind_tests_blind_two_player_showdown_ranks_correct_winner() {
    let mut hand = GameHand::new_blind(
        vec![(pid(1), c(1000), 0), (pid(2), c(1000), 1)],
        0,
        c(20),
        c(10),
        DeckSeed::default(),
    );
    hand.start().unwrap();

    let board = standard_board();
    run_blind_betting(&mut hand, &board, |snap, actor| {
        let committed = snap
            .players
            .iter()
            .find(|p| p.player_id == actor)
            .map(|p| p.committed_this_street.0)
            .unwrap_or(0);
        let to_call = snap.current_bet.0.saturating_sub(committed);
        if to_call > 0 {
            PlayerAction::Call
        } else {
            PlayerAction::Check
        }
    });
    assert!(hand.is_done());

    let p1 = hole(
        card(Rank::Nine, Suit::Diamonds),
        card(Rank::Ace, Suit::Hearts),
    );
    let p2 = hole(card(Rank::Ace, Suit::Spades), card(Rank::King, Suit::Clubs));

    hand.inject_showdown_reveal(pid(1), p1).expect("reveal p1");
    hand.inject_showdown_reveal(pid(2), p2).expect("reveal p2");

    let result = hand.finish_blind().expect("contested finish");
    assert_eq!(
        result.showdown.len(),
        2,
        "two reveals → two showdown entries"
    );
    assert_eq!(
        *result.chips_awarded.get(&pid(1).inner()).unwrap(),
        40,
        "pair of nines beats ace-high"
    );
    assert_eq!(*result.chips_awarded.get(&pid(2).inner()).unwrap(), 0);
    assert_eq!(result.show_order.len(), 2);
}

#[test]
fn blind_tests_blind_three_way_all_in_side_pots() {
    let mut hand = GameHand::new_blind(
        vec![
            (pid(1), c(100), 0),
            (pid(2), c(200), 1),
            (pid(3), c(300), 2),
        ],
        0,
        c(20),
        c(10),
        DeckSeed::default(),
    );
    hand.start().unwrap();

    let board = standard_board();
    run_blind_betting(&mut hand, &board, |_snap, actor| {
        if actor == pid(3) {
            PlayerAction::Call
        } else {
            PlayerAction::AllIn
        }
    });
    assert!(hand.is_done());
    let snap = hand.snapshot();
    assert_eq!(snap.board.count(), 5, "all-in runout reveals full board");

    let p1 = hole(
        card(Rank::Jack, Suit::Spades),
        card(Rank::Jack, Suit::Diamonds),
    );
    let p2 = hole(
        card(Rank::Ace, Suit::Diamonds),
        card(Rank::King, Suit::Hearts),
    );
    let p3 = hole(
        card(Rank::Nine, Suit::Hearts),
        card(Rank::Nine, Suit::Clubs),
    );
    hand.inject_showdown_reveal(pid(1), p1).unwrap();
    hand.inject_showdown_reveal(pid(2), p2).unwrap();
    hand.inject_showdown_reveal(pid(3), p3).unwrap();

    let result = hand.finish_blind().expect("contested side-pot finish");

    let total_final: u32 = result.final_stacks.values().sum();
    assert_eq!(total_final, 600, "chip conservation across blind side pots");

    let p1_award = *result.chips_awarded.get(&pid(1).inner()).unwrap();
    let p3_award = *result.chips_awarded.get(&pid(3).inner()).unwrap();
    let p2_award = *result.chips_awarded.get(&pid(2).inner()).unwrap();
    assert_eq!(p1_award, 300, "short stack scoops the 300 main pot");
    assert_eq!(p2_award, 0, "mid stack (ace high) wins nothing");
    assert_eq!(p3_award, 200, "deep stack wins only the contested side pot");
    assert_eq!(
        result.final_stacks.get(&pid(3).inner()),
        Some(&300),
        "deep stack retains 100 and wins the 200 side pot"
    );
}

#[test]
fn blind_tests_blind_forfeited_side_pot_goes_to_revealer_not_refunded() {
    let mut hand = GameHand::new_blind(
        vec![
            (pid(1), c(100), 0),
            (pid(2), c(1000), 1),
            (pid(3), c(1000), 2),
        ],
        0,
        c(20),
        c(10),
        DeckSeed::default(),
    );
    hand.start().unwrap();

    let board = standard_board();
    run_blind_betting(&mut hand, &board, |_snap, _actor| PlayerAction::AllIn);
    assert!(hand.is_done());
    assert_eq!(hand.snapshot().board.count(), 5);

    let p1 = hole(
        card(Rank::Jack, Suit::Spades),
        card(Rank::Jack, Suit::Diamonds),
    );
    hand.inject_showdown_reveal(pid(1), p1).unwrap();

    let result = hand
        .finish_blind_with_forfeits()
        .expect("a single honest revealer wins by forfeit, not void");

    let total_final: u32 = result.final_stacks.values().sum();
    assert_eq!(total_final, 2100, "chip conservation: 100 + 1000 + 1000");

    let p1_award = *result.chips_awarded.get(&pid(1).inner()).unwrap_or(&0);
    let p2_award = *result.chips_awarded.get(&pid(2).inner()).unwrap_or(&0);
    let p3_award = *result.chips_awarded.get(&pid(3).inner()).unwrap_or(&0);

    assert_eq!(
        p2_award, 0,
        "forfeiter pid2 must be awarded ZERO (no side-pot refund)"
    );
    assert_eq!(
        p3_award, 0,
        "forfeiter pid3 must be awarded ZERO (no side-pot refund)"
    );
    assert_eq!(
        p1_award, 2100,
        "the honest revealer wins the main pot AND the forfeited side pot \
             (forfeit-not-refund)"
    );
    let p1_final = *result.final_stacks.get(&pid(1).inner()).unwrap_or(&0);
    assert_eq!(p1_final, 2100, "the sole revealer scoops the whole table");
}

#[test]
fn blind_tests_blind_board_withholder_forfeits_committed_stake() {
    let mut hand = GameHand::new_blind(
        vec![(pid(1), c(1000), 0), (pid(2), c(1000), 1)],
        0,
        c(20),
        c(10),
        DeckSeed::default(),
    );
    hand.start().unwrap();

    let a0 = hand.snapshot().current_actor.unwrap();
    hand.apply_action(a0, PlayerAction::AllIn).unwrap();
    let a1 = hand.snapshot().current_actor.unwrap();
    hand.apply_action(a1, PlayerAction::AllIn).unwrap();

    let board = standard_board();
    assert_eq!(hand.pending_board_street(), Some(Street::Flop));
    hand.inject_board_for_street(&board[0..3])
        .expect("inject flop");
    assert_eq!(hand.pending_board_street(), Some(Street::Turn));
    assert!(!hand.is_done(), "hand stuck awaiting the turn board");

    let result = hand
        .finish_blind_forfeit_board(&[pid(2)])
        .expect("≥1 honest survivor → Completed, not void");

    let total_final: u32 = result.final_stacks.values().sum();
    assert_eq!(
        total_final, 2000,
        "chip conservation across deal → all-in → board-withhold forfeit"
    );
    let p1_award = *result.chips_awarded.get(&pid(1).inner()).unwrap_or(&0);
    let p2_award = *result.chips_awarded.get(&pid(2).inner()).unwrap_or(&0);
    assert_eq!(p1_award, 2000, "honest survivor scoops the pot");
    assert_eq!(
        p2_award, 0,
        "the board withholder is awarded ZERO (forfeit-not-refund)"
    );
    let p2_final = *result
        .final_stacks
        .get(&pid(2).inner())
        .unwrap_or(&u32::MAX);
    assert_eq!(
        p2_final, 0,
        "the all-in withholder must lose its whole committed stake (not be refunded)"
    );
    assert_eq!(
        *result.final_stacks.get(&pid(1).inner()).unwrap_or(&0),
        2000,
        "the honest survivor ends with the whole table"
    );
    assert!(
        result.showdown.is_empty(),
        "board-forfeit settlement must not fabricate a showdown"
    );
    assert!(
        result.show_order.is_empty(),
        "board-forfeit settlement must not expose a showdown order"
    );
}

#[test]
fn blind_tests_blind_board_withholder_residual_splits_among_honest() {
    let mut hand = GameHand::new_blind(
        vec![
            (pid(1), c(1000), 0),
            (pid(2), c(1000), 1),
            (pid(3), c(1000), 2),
        ],
        0,
        c(20),
        c(10),
        DeckSeed::default(),
    );
    hand.start().unwrap();
    let board = standard_board();
    let mut safety = 0;
    while let Some(actor) = hand.snapshot().current_actor {
        hand.apply_action(actor, PlayerAction::AllIn).unwrap();
        safety += 1;
        assert!(safety < 50, "preflop runaway");
    }
    assert_eq!(hand.pending_board_street(), Some(Street::Flop));
    hand.inject_board_for_street(&board[0..3]).unwrap();
    assert_eq!(hand.pending_board_street(), Some(Street::Turn));

    let result = hand
        .finish_blind_forfeit_board(&[pid(3)])
        .expect("2 honest survivors → Completed (equal chop), not void");

    let total_final: u32 = result.final_stacks.values().sum();
    assert_eq!(total_final, 3000, "chip conservation in the residual split");
    let p1 = *result.chips_awarded.get(&pid(1).inner()).unwrap_or(&0);
    let p2 = *result.chips_awarded.get(&pid(2).inner()).unwrap_or(&0);
    let p3 = *result.chips_awarded.get(&pid(3).inner()).unwrap_or(&0);
    assert_eq!(p3, 0, "the withholder is excluded (forfeit-not-refund)");
    assert_eq!(
        p1 + p2,
        3000,
        "the two honest survivors split the whole pot"
    );
    assert_eq!(p1, 1500, "equal chop: pid1 half");
    assert_eq!(p2, 1500, "equal chop: pid2 half");
    assert_eq!(
        *result
            .final_stacks
            .get(&pid(3).inner())
            .unwrap_or(&u32::MAX),
        0,
        "the withholder loses its full committed stake"
    );
}

#[test]
fn blind_tests_blind_board_withholder_only_side_pot_goes_to_survivor_not_refunded() {
    let mut hand = GameHand::new_blind(
        vec![
            (pid(1), c(100), 0),
            (pid(2), c(1000), 1),
            (pid(3), c(1000), 2),
        ],
        0,
        c(20),
        c(10),
        DeckSeed::default(),
    );
    hand.start().unwrap();
    let board = standard_board();
    let mut safety = 0;
    while let Some(actor) = hand.snapshot().current_actor {
        hand.apply_action(actor, PlayerAction::AllIn).unwrap();
        safety += 1;
        assert!(safety < 50, "preflop runaway");
    }
    assert_eq!(hand.pending_board_street(), Some(Street::Flop));
    hand.inject_board_for_street(&board[0..3]).unwrap();
    assert_eq!(hand.pending_board_street(), Some(Street::Turn));

    let result = hand
        .finish_blind_forfeit_board(&[pid(2), pid(3)])
        .expect("pid1 honest survivor → Completed, not NoSurvivor");

    let total_final: u32 = result.final_stacks.values().sum();
    assert_eq!(
        total_final, 2100,
        "chip conservation across deal → all-in → side-pot board-withhold forfeit"
    );

    let p1_award = *result.chips_awarded.get(&pid(1).inner()).unwrap_or(&0);
    let p2_award = *result.chips_awarded.get(&pid(2).inner()).unwrap_or(&0);
    let p3_award = *result.chips_awarded.get(&pid(3).inner()).unwrap_or(&0);

    assert_eq!(
        p2_award, 0,
        "withholder pid2 must be awarded ZERO (no side-pot refund)"
    );
    assert_eq!(
        p3_award, 0,
        "withholder pid3 must be awarded ZERO (no side-pot refund)"
    );
    assert_eq!(
        p1_award, 2100,
        "the honest survivor wins the main pot AND the withholder-only side pot \
             (forfeit-not-refund)"
    );

    let p2_final = *result
        .final_stacks
        .get(&pid(2).inner())
        .unwrap_or(&u32::MAX);
    let p3_final = *result
        .final_stacks
        .get(&pid(3).inner())
        .unwrap_or(&u32::MAX);
    assert!(
        p2_final < 1000,
        "withholder pid2 must end BELOW its 1000 starting stack (final {p2_final})"
    );
    assert!(
        p3_final < 1000,
        "withholder pid3 must end BELOW its 1000 starting stack (final {p3_final})"
    );
    assert_eq!(
        p2_final, 0,
        "withholder pid2 forfeits its whole committed stake"
    );
    assert_eq!(
        p3_final, 0,
        "withholder pid3 forfeits its whole committed stake"
    );
    assert_eq!(
        *result.final_stacks.get(&pid(1).inner()).unwrap_or(&0),
        2100,
        "the honest survivor ends with the whole table"
    );
}

#[test]
fn blind_tests_blind_board_all_withhold_returns_no_survivor() {
    let mut hand = GameHand::new_blind(
        vec![(pid(1), c(1000), 0), (pid(2), c(1000), 1)],
        0,
        c(20),
        c(10),
        DeckSeed::default(),
    );
    hand.start().unwrap();
    let a0 = hand.snapshot().current_actor.unwrap();
    hand.apply_action(a0, PlayerAction::AllIn).unwrap();
    let a1 = hand.snapshot().current_actor.unwrap();
    hand.apply_action(a1, PlayerAction::AllIn).unwrap();
    let board = standard_board();
    hand.inject_board_for_street(&board[0..3]).unwrap();

    let err = hand
        .finish_blind_forfeit_board(&[pid(1), pid(2)])
        .expect_err("no honest survivor → NoSurvivor (caller VOIDs)");
    assert_eq!(err, BlindFinishError::NoSurvivor);
}

#[test]
fn blind_tests_blind_reject_reveal_for_folded_seat() {
    let mut hand = GameHand::new_blind(
        vec![
            (pid(1), c(500), 0),
            (pid(2), c(500), 1),
            (pid(3), c(500), 2),
        ],
        0,
        c(20),
        c(10),
        DeckSeed::default(),
    );
    hand.start().unwrap();
    let a = hand.snapshot().current_actor.unwrap();
    assert_eq!(a, pid(1));
    hand.apply_action(a, PlayerAction::Fold).unwrap();
    let board = standard_board();
    run_blind_betting(&mut hand, &board, |snap, actor| {
        let committed = snap
            .players
            .iter()
            .find(|p| p.player_id == actor)
            .map(|p| p.committed_this_street.0)
            .unwrap_or(0);
        let to_call = snap.current_bet.0.saturating_sub(committed);
        if to_call > 0 {
            PlayerAction::Call
        } else {
            PlayerAction::Check
        }
    });
    assert!(hand.is_done());

    let p1 = hole(
        card(Rank::Two, Suit::Hearts),
        card(Rank::Three, Suit::Hearts),
    );
    let err = hand.inject_showdown_reveal(pid(1), p1).unwrap_err();
    assert_eq!(err, BlindInjectError::PlayerFolded(pid(1)));
}

#[test]
fn blind_tests_blind_reject_wrong_board_count() {
    let mut hand = GameHand::new_blind(
        vec![(pid(1), c(1000), 0), (pid(2), c(1000), 1)],
        0,
        c(20),
        c(10),
        DeckSeed::default(),
    );
    hand.start().unwrap();
    let a = hand.snapshot().current_actor.unwrap();
    hand.apply_action(a, PlayerAction::Call).unwrap();
    let a = hand.snapshot().current_actor.unwrap();
    hand.apply_action(a, PlayerAction::Check).unwrap();

    assert_eq!(hand.pending_board_street(), Some(Street::Flop));
    let one = [card(Rank::Two, Suit::Clubs)];
    let err = hand.inject_board_for_street(&one).unwrap_err();
    assert_eq!(
        err,
        BlindInjectError::WrongBoardCount {
            street: Street::Flop,
            expected: 3,
            got: 1
        }
    );
    let flop = [
        card(Rank::Two, Suit::Clubs),
        card(Rank::Seven, Suit::Diamonds),
        card(Rank::Nine, Suit::Spades),
    ];
    hand.inject_board_for_street(&flop)
        .expect("correct flop count");
    assert_eq!(hand.snapshot().board.count(), 3);
}

#[test]
fn blind_tests_blind_reject_reveal_unknown_player() {
    let mut hand = GameHand::new_blind(
        vec![(pid(1), c(1000), 0), (pid(2), c(1000), 1)],
        0,
        c(20),
        c(10),
        DeckSeed::default(),
    );
    hand.start().unwrap();
    let a = hand.snapshot().current_actor.unwrap();
    hand.apply_action(a, PlayerAction::Fold).unwrap();
    assert!(hand.is_done());
    let h = hole(
        card(Rank::Two, Suit::Hearts),
        card(Rank::Three, Suit::Hearts),
    );
    let err = hand.inject_showdown_reveal(pid(99), h).unwrap_err();
    assert_eq!(err, BlindInjectError::UnknownPlayer(pid(99)));
}

#[test]
fn blind_tests_blind_injectors_reject_plaintext_hand() {
    let mut hand = GameHand::new_with_rng(
        vec![(pid(1), c(1000), 0), (pid(2), c(1000), 1)],
        0,
        c(20),
        c(10),
        PokerRng::from_seed(1),
    );
    hand.start().unwrap();
    let flop = [
        card(Rank::Two, Suit::Clubs),
        card(Rank::Seven, Suit::Diamonds),
        card(Rank::Nine, Suit::Spades),
    ];
    assert_eq!(
        hand.inject_board_for_street(&flop).unwrap_err(),
        BlindInjectError::NotBlindMode
    );
    let h = hole(
        card(Rank::Two, Suit::Hearts),
        card(Rank::Three, Suit::Hearts),
    );
    assert_eq!(
        hand.inject_showdown_reveal(pid(1), h).unwrap_err(),
        BlindInjectError::NotBlindMode
    );
}

#[test]
fn blind_tests_blind_reject_reveal_before_showdown() {
    let mut hand = GameHand::new_blind(
        vec![(pid(1), c(1000), 0), (pid(2), c(1000), 1)],
        0,
        c(20),
        c(10),
        DeckSeed::default(),
    );
    hand.start().unwrap();
    let h = hole(
        card(Rank::Two, Suit::Hearts),
        card(Rank::Three, Suit::Hearts),
    );
    assert_eq!(
        hand.inject_showdown_reveal(pid(1), h).unwrap_err(),
        BlindInjectError::NotAtShowdown
    );
}

#[test]
fn blind_tests_blind_new_blind_seats_start_opaque() {
    let hand = GameHand::new_blind(
        vec![(pid(1), c(1000), 0), (pid(2), c(1000), 1)],
        0,
        c(20),
        c(10),
        DeckSeed::default(),
    );
    for seat in hand.seats() {
        assert!(seat.hole.is_opaque(), "blind seat must start Opaque");
        assert!(
            seat.hole_cards().is_none(),
            "no plaintext reachable for an Opaque seat"
        );
    }
}

fn heads_up_to_pending_flop() -> GameHand {
    let mut hand = GameHand::new_blind(
        vec![(pid(1), c(1000), 0), (pid(2), c(1000), 1)],
        0,
        c(20),
        c(10),
        DeckSeed::default(),
    );
    hand.start().unwrap();
    let a = hand.snapshot().current_actor.unwrap();
    hand.apply_action(a, PlayerAction::Call).unwrap();
    let a = hand.snapshot().current_actor.unwrap();
    hand.apply_action(a, PlayerAction::Check).unwrap();
    assert_eq!(hand.pending_board_street(), Some(Street::Flop));
    hand
}

#[test]
fn blind_tests_blind_reject_duplicate_within_injected_flop() {
    let mut hand = heads_up_to_pending_flop();
    let dup = card(Rank::Two, Suit::Clubs);
    let flop = [dup, card(Rank::Seven, Suit::Diamonds), dup];
    let err = hand.inject_board_for_street(&flop).unwrap_err();
    assert_eq!(err, BlindInjectError::DuplicateCard { card: dup });
    assert_eq!(hand.snapshot().board.count(), 0);
}

#[test]
fn blind_tests_blind_reject_board_card_equals_existing_board_card() {
    let mut hand = heads_up_to_pending_flop();
    let flop = [
        card(Rank::Two, Suit::Clubs),
        card(Rank::Seven, Suit::Diamonds),
        card(Rank::Nine, Suit::Spades),
    ];
    hand.inject_board_for_street(&flop).expect("valid flop");
    let a = hand.snapshot().current_actor.unwrap();
    hand.apply_action(a, PlayerAction::Check).unwrap();
    let a = hand.snapshot().current_actor.unwrap();
    hand.apply_action(a, PlayerAction::Check).unwrap();
    assert_eq!(hand.pending_board_street(), Some(Street::Turn));
    let dup = card(Rank::Two, Suit::Clubs);
    let err = hand.inject_board_for_street(&[dup]).unwrap_err();
    assert_eq!(err, BlindInjectError::DuplicateCard { card: dup });
    assert_eq!(hand.snapshot().board.count(), 3);
}

fn heads_up_to_contested_showdown() -> GameHand {
    let mut hand = GameHand::new_blind(
        vec![(pid(1), c(1000), 0), (pid(2), c(1000), 1)],
        0,
        c(20),
        c(10),
        DeckSeed::default(),
    );
    hand.start().unwrap();
    let board = standard_board();
    run_blind_betting(&mut hand, &board, |snap, actor| {
        let committed = snap
            .players
            .iter()
            .find(|p| p.player_id == actor)
            .map(|p| p.committed_this_street.0)
            .unwrap_or(0);
        let to_call = snap.current_bet.0.saturating_sub(committed);
        if to_call > 0 {
            PlayerAction::Call
        } else {
            PlayerAction::Check
        }
    });
    assert!(hand.is_done());
    hand
}

#[test]
fn blind_tests_blind_reject_two_seats_reveal_same_card() {
    let mut hand = heads_up_to_contested_showdown();
    let shared = card(Rank::Queen, Suit::Spades);
    let p1 = hole(shared, card(Rank::King, Suit::Diamonds));
    hand.inject_showdown_reveal(pid(1), p1).expect("reveal p1");
    let p2 = hole(shared, card(Rank::Ten, Suit::Diamonds));
    let err = hand.inject_showdown_reveal(pid(2), p2).unwrap_err();
    assert_eq!(err, BlindInjectError::DuplicateCard { card: shared });
    let seat2 = hand.seats().iter().find(|s| s.player_id == pid(2)).unwrap();
    assert!(seat2.hole.is_opaque(), "rejected reveal leaves seat Opaque");
}

#[test]
fn blind_tests_blind_reject_reveal_card_equals_board_card() {
    let mut hand = heads_up_to_contested_showdown();
    let board_card = card(Rank::Nine, Suit::Spades);
    let p1 = hole(board_card, card(Rank::King, Suit::Diamonds));
    let err = hand.inject_showdown_reveal(pid(1), p1).unwrap_err();
    assert_eq!(err, BlindInjectError::DuplicateCard { card: board_card });
    let seat1 = hand.seats().iter().find(|s| s.player_id == pid(1)).unwrap();
    assert!(seat1.hole.is_opaque(), "rejected reveal leaves seat Opaque");
}

#[test]
fn blind_tests_blind_reject_reveal_with_internal_duplicate() {
    let mut hand = heads_up_to_contested_showdown();
    let dup = card(Rank::Queen, Suit::Spades);
    let p1 = hole(dup, dup);
    let err = hand.inject_showdown_reveal(pid(1), p1).unwrap_err();
    assert_eq!(err, BlindInjectError::DuplicateCard { card: dup });
}

#[test]
fn blind_tests_blind_finish_before_done_returns_not_done() {
    let mut hand = GameHand::new_blind(
        vec![(pid(1), c(1000), 0), (pid(2), c(1000), 1)],
        0,
        c(20),
        c(10),
        DeckSeed::default(),
    );
    hand.start().unwrap();
    assert!(!hand.is_done());
    let err = hand.finish_blind().unwrap_err();
    assert_eq!(err, BlindFinishError::NotDone);
}

#[test]
fn blind_tests_blind_finish_on_plaintext_hand_returns_not_blind_mode() {
    let mut hand = GameHand::new_with_rng(
        vec![(pid(1), c(1000), 0), (pid(2), c(1000), 1)],
        0,
        c(20),
        c(10),
        PokerRng::from_seed(1),
    );
    hand.start().unwrap();
    let a = hand.snapshot().current_actor.unwrap();
    hand.apply_action(a, PlayerAction::Fold).unwrap();
    assert!(hand.is_done());
    let err = hand.finish_blind().unwrap_err();
    assert_eq!(err, BlindFinishError::NotBlindMode);
}

#[test]
fn blind_tests_blind_contested_treats_plain_slot_as_missing_reveal() {
    let mut hand = heads_up_to_contested_showdown();
    let p2 = hole(card(Rank::Ace, Suit::Spades), card(Rank::King, Suit::Clubs));
    hand.inject_showdown_reveal(pid(2), p2).expect("reveal p2");
    let stray = hole(
        card(Rank::Queen, Suit::Hearts),
        card(Rank::Queen, Suit::Diamonds),
    );
    hand.override_hole_cards_for_test(pid(1), stray);
    assert_eq!(hand.seats()[0].hole, HoleSlot::Plain(stray));
    let err = hand.finish_blind().unwrap_err();
    assert_eq!(
        err,
        BlindFinishError::MissingReveal {
            player_id: pid(1),
            seat: 0,
        }
    );
}
