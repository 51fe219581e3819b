use engine::action::{ActionError, BlindKind, PlayerAction};
use engine::card::{parse_card, Card};
use engine::deck::Deck;
use engine::eval::HandRank;
use engine::event::EngineEvent;
use engine::game::pots::{
    distribute_pots, distribute_pots_among_survivors, distribute_pots_uncontested, leaders_of,
    odd_chip_recipients, pot_recipients, share_out,
};
use engine::game::{
    blind_positions, cards_for_street, BlindFinishError, BlindInjectError, GameHand, HandResult,
    HoleSlot,
};
use engine::hand::{BoardCards, HoleCards, Street};
use engine::player::{Chips, PlayerId};
use engine::rng::PokerRng;
use engine::round::SidePot;
use std::collections::{HashMap, HashSet};

fn pid(n: u64) -> PlayerId {
    PlayerId(n)
}

fn cd(s: &str) -> Card {
    parse_card(s).unwrap()
}

fn hole(a: &str, b: &str) -> HoleCards {
    HoleCards::new(cd(a), cd(b))
}

fn raise(n: u32) -> PlayerAction {
    PlayerAction::Raise { amount: Chips(n) }
}

fn sitting(stacks: &[u32]) -> Vec<(PlayerId, Chips, u8)> {
    stacks
        .iter()
        .enumerate()
        .map(|(i, s)| (pid(i as u64 + 1), Chips(*s), i as u8))
        .collect()
}

fn dealt(stacks: &[u32], seed: u64) -> GameHand {
    GameHand::new_with_rng(
        sitting(stacks),
        0,
        Chips(20),
        Chips(10),
        PokerRng::from_seed(seed),
    )
}

fn elsewhere(stacks: &[u32]) -> GameHand {
    GameHand::new_blind(sitting(stacks), 0, Chips(20), Chips(10), [4u8; 32])
}

fn table_chips(h: &GameHand) -> u64 {
    let s = h.snapshot();
    s.pot.inner() as u64 + s.players.iter().map(|p| p.stack.inner() as u64).sum::<u64>()
}

fn final_chips(r: &HandResult) -> u64 {
    r.final_stacks.values().map(|c| *c as u64).sum()
}

fn assert_paid(r: &HandResult, committed: u64, brought: u64) {
    for p in &r.pots {
        let sum: u32 = p.winners.iter().map(|w| w.amount_won.inner()).sum();
        assert_eq!(sum, p.amount.inner());
    }
    let pots: u64 = r.pots.iter().map(|p| p.amount.inner() as u64).sum();
    let awards: u64 = r.chips_awarded.values().map(|c| *c as u64).sum();
    assert_eq!(pots, committed);
    assert_eq!(awards, committed);
    assert_eq!(final_chips(r), brought);
}

/// A small stream of choices that depends on `state` alone.
fn choice(state: &mut u64) -> u64 {
    *state = state.wrapping_mul(6364136223846793005).wrapping_add(1442695040888963407);
    *state >> 33
}

/// Tries one action of whoever is next. Refused actions are tried too.
fn step(h: &mut GameHand, state: &mut u64) -> Option<(PlayerId, PlayerAction)> {
    let snap = h.snapshot();
    let actor = snap.current_actor?;
    let action = match choice(state) % 8 {
        0 => PlayerAction::Fold,
        1 => PlayerAction::Check,
        2 => PlayerAction::AllIn,
        3 => raise(choice(state) as u32 % 400),
        4 => match snap.min_raise_to {
            Some(c) => raise(c.inner()),
            None => PlayerAction::Call,
        },
        _ => PlayerAction::Call,
    };
    let _ = h.apply_action(actor, action.clone());
    Some((actor, action))
}

#[test]
fn no_chip_is_made_or_lost_in_dealt_hands() {
    for seed in 0..60u64 {
        let stacks: Vec<u32> = match seed % 4 {
            0 => vec![500, 500],
            1 => vec![35, 500, 90, 15],
            2 => vec![1000, 7, 333, 250, 60, 411],
            _ => vec![5, 12, 800],
        };
        let brought: u64 = stacks.iter().map(|s| *s as u64).sum();
        let mut h = dealt(&stacks, seed);
        let mut state = seed;
        assert_eq!(table_chips(&h), brought);
        h.start().unwrap();
        assert_eq!(table_chips(&h), brought);
        let mut n = 0;
        while !h.is_done() {
            step(&mut h, &mut state).unwrap();
            assert_eq!(table_chips(&h), brought);
            n += 1;
            assert!(n < 2000);
        }
        let committed = h.snapshot().pot.inner() as u64;
        let left = h.non_folded_player_ids();
        let board = h.snapshot().board;
        if left.len() >= 2 {
            assert_eq!(board.count(), 5);
            assert_eq!(h.snapshot().street, Street::River);
        }
        let r = h.finish();
        assert_paid(&r, committed, brought);
        if left.len() >= 2 {
            let shown: HashSet<u64> = r.show_order.iter().map(|p| p.inner()).collect();
            assert_eq!(shown.len(), r.show_order.len());
            assert_eq!(shown, left.iter().map(|p| p.inner()).collect());
            for p in &r.pots {
                if !p.is_refund {
                    assert!(p.winners.iter().all(|w| left.contains(&w.player_id)));
                }
            }
        } else {
            assert!(r.show_order.is_empty());
        }
        for (i, a) in r.actions.iter().enumerate() {
            assert_eq!(a.seq as usize, i);
        }
    }
}

#[test]
fn replay_is_identical() {
    for seed in 0..10u64 {
        let mut runs: Vec<String> = Vec::new();
        for _ in 0..2 {
            let mut h = dealt(&[300, 200, 500], seed);
            let mut state = seed * 7;
            h.start().unwrap();
            while !h.is_done() {
                step(&mut h, &mut state).unwrap();
            }
            let events = format!("{:?}", h.drain_events());
            let r = h.finish();
            let mut stacks: Vec<(u64, u32)> = r.final_stacks.into_iter().collect();
            stacks.sort();
            runs.push(format!("{events} {:?} {:?} {:?} {stacks:?}", r.pots, r.actions, r.board));
        }
        assert_eq!(runs[0], runs[1]);
    }
}

#[test]
fn preview_tells_what_the_action_then_does() {
    for seed in 0..40u64 {
        let mut h = dealt(&[300, 45, 500, 120], seed);
        let mut state = seed;
        h.start().unwrap();
        while !h.is_done() {
            let before = h.clone();
            let (who, action) = step(&mut h, &mut state).unwrap();
            let preview = before.preview_action_transition(who, &action);
            let valid = before.validate_action(who, &action);
            assert_eq!(preview.is_ok(), valid.is_ok());
            let mut same = before.clone();
            match (preview, same.apply_action(who, action)) {
                (Ok(p), Ok(snap)) => {
                    let me = snap.players.iter().find(|x| x.player_id == who).unwrap();
                    assert_eq!(p.stack_after, me.stack);
                    assert_eq!(p.all_in_after, me.all_in);
                    assert_eq!(p.committed_after, me.committed_this_street);
                    assert_eq!(p.current_bet_after, snap.current_bet);
                    assert_eq!(p.min_raise_to_after, snap.min_raise_to);
                    assert_eq!(p.next_actor, snap.current_actor);
                    assert_eq!(p.street_after, snap.street);
                    assert_eq!(p.hand_done_after, same.is_done());
                }
                (Err(a), Err(b)) => {
                    assert_eq!(a, b);
                    assert_eq!(format!("{:?}", same.snapshot()), format!("{:?}", before.snapshot()));
                    assert_eq!(same.next_action_seq(), before.next_action_seq());
                }
                (a, b) => panic!("{a:?} {b:?}"),
            }
        }
    }
}

#[test]
fn player_whose_turn_it_is_can_fold_and_call() {
    for seed in 0..20u64 {
        let mut h = dealt(&[300, 45, 500], seed);
        let mut state = seed + 100;
        h.start().unwrap();
        while let Some(actor) = h.snapshot().current_actor {
            let me = *h.seats().iter().find(|s| s.player_id == actor).unwrap();
            assert!(!me.folded && me.stack.inner() > 0);
            assert!(h.validate_action(actor, &PlayerAction::Fold).is_ok());
            assert!(h.validate_action(actor, &PlayerAction::Call).is_ok());
            step(&mut h, &mut state).unwrap();
        }
    }
}

#[test]
fn beginning_is_refused_for_its_reasons() {
    let mut lone = dealt(&[500], 1);
    assert_eq!(lone.start().unwrap_err(), ActionError::NotInHand);
    let mut rich = dealt(&[u32::MAX, 1], 1);
    assert_eq!(rich.start().unwrap_err(), ActionError::InvalidAction);
    let mut h = dealt(&[500, 500], 1);
    assert_eq!(
        h.apply_action(pid(1), PlayerAction::Call).unwrap_err(),
        ActionError::HandNotStarted
    );
    assert!(!h.is_started());
    h.start().unwrap();
    assert!(h.is_started());
    assert_eq!(h.start().unwrap_err(), ActionError::HandFinished);
    assert_eq!(
        h.apply_action(pid(9), PlayerAction::Call).unwrap_err(),
        ActionError::NotInHand
    );
    h.apply_action(pid(1), PlayerAction::Fold).unwrap();
    assert_eq!(
        h.apply_action(pid(2), PlayerAction::Check).unwrap_err(),
        ActionError::HandFinished
    );
    assert_eq!(h.snapshot().current_actor, None);
    assert_eq!(h.snapshot().min_raise_to, None);
}

#[test]
fn deck_too_short_for_the_deal_fails_the_beginning() {
    let deck = Deck::from_cards(vec![cd("As"), cd("Ks"), cd("Qs")]);
    let mut h =
        GameHand::new_with_deck(sitting(&[500, 500]), 0, Chips(20), Chips(10), deck, [0u8; 32]);
    assert_eq!(h.start().unwrap_err(), ActionError::HandFinished);
    assert!(!h.is_started());
    assert_eq!(table_chips(&h), 1000);
}

#[test]
fn deck_too_short_for_the_flop_fails_the_closing_action() {
    let deck = Deck::from_cards(vec![
        cd("As"),
        cd("Ks"),
        cd("Qs"),
        cd("Js"),
        cd("Ts"),
        cd("9s"),
    ]);
    let mut h =
        GameHand::new_with_deck(sitting(&[500, 500]), 0, Chips(20), Chips(10), deck, [0u8; 32]);
    h.start().unwrap();
    h.apply_action(pid(1), PlayerAction::Call).unwrap();
    assert_eq!(
        h.apply_action(pid(2), PlayerAction::Check).unwrap_err(),
        ActionError::HandFinished
    );
    assert_eq!(table_chips(&h), 1000);
}

#[test]
fn cards_are_dealt_one_by_one_round_the_table() {
    let deck = Deck::from_cards(vec![
        cd("As"),
        cd("Kd"),
        cd("Ah"),
        cd("Kc"),
        cd("2c"),
        cd("3c"),
        cd("4c"),
        cd("5d"),
        cd("6d"),
    ]);
    let mut h =
        GameHand::new_with_deck(sitting(&[500, 500]), 0, Chips(20), Chips(10), deck, [0u8; 32]);
    let snap = h.start().unwrap();
    assert_eq!(snap.players[0].hole_cards, Some(hole("As", "Ah")));
    assert_eq!(snap.players[1].hole_cards, Some(hole("Kd", "Kc")));
    h.apply_action(pid(1), PlayerAction::Fold).unwrap();
    assert_eq!(
        h.undealt_board(),
        vec![cd("2c"), cd("3c"), cd("4c"), cd("5d"), cd("6d")]
    );
    let r = h.finish();
    assert_eq!(r.folded_hole_cards[&1], hole("As", "Ah"));
    assert_eq!(r.final_stacks[&2], 510);
}

#[test]
fn forced_bets_come_first() {
    let mut h = dealt(&[500, 500, 500], 1).with_forced_straddle(Chips(40));
    assert_eq!(h.straddle_position(), Some((0, Chips(40))));
    h.start().unwrap();
    assert_eq!(h.next_action_seq(), 3);
    let events = h.drain_events();
    match &events[0] {
        EngineEvent::HandStarted { sb_seat, bb_seat, straddle_seat, straddle_amount, .. } => {
            assert_eq!((*sb_seat, *bb_seat), (1, 2));
            assert_eq!((*straddle_seat, *straddle_amount), (Some(0), Some(40)));
        }
        e => panic!("{e:?}"),
    }
    let kinds: Vec<(u16, BlindKind)> = events
        .iter()
        .filter_map(|e| match e {
            EngineEvent::ActionApplied {
                action: PlayerAction::Blind { kind, .. },
                action_seq,
                ..
            } => Some((*action_seq, *kind)),
            _ => None,
        })
        .collect();
    assert_eq!(
        kinds,
        vec![(0, BlindKind::Small), (1, BlindKind::Big), (2, BlindKind::Straddle)]
    );
    assert!(h.drain_events().is_empty());
    assert_eq!(h.snapshot().min_raise_to, Some(Chips(80)));
}

#[test]
fn there_is_no_straddle_heads_up() {
    let mut h = dealt(&[500, 500], 1).with_forced_straddle(Chips(40));
    assert_eq!(h.straddle_position(), None);
    h.start().unwrap();
    assert_eq!(h.next_action_seq(), 2);
    let off = dealt(&[500, 500, 500], 1).with_forced_straddle(Chips(0));
    assert_eq!(off.straddle_position(), None);
}

#[test]
fn facts_tell_the_chosen_actions_in_order() {
    let mut h = dealt(&[500, 500, 500], 1);
    h.start().unwrap();
    h.apply_action(pid(1), raise(60)).unwrap();
    h.apply_action(pid(2), PlayerAction::Call).unwrap();
    let facts = h.current_street_action_facts();
    let told: Vec<(PlayerId, PlayerAction)> =
        facts.iter().map(|f| (f.player_id, f.action.clone())).collect();
    assert_eq!(told, h.current_street_actions());
    assert!(facts[0].full_raise && facts[0].increased_bet);
    assert!(!facts[1].increased_bet && facts[1].is_call_like());
    assert_eq!(h.last_aggressor_player_id(), Some(pid(1)));
    assert_eq!(h.current_street_strategy_actions()[0], (pid(1), raise(60)));
    assert!(h.street_action_facts(Street::Flop).is_empty());
}

#[test]
fn blinds_wrap_round_the_table() {
    assert_eq!(blind_positions(0, 2), (0, 1));
    assert_eq!(blind_positions(5, 2), (1, 0));
    assert_eq!(blind_positions(2, 3), (0, 1));
    assert_eq!(blind_positions(usize::MAX, 6), (4, 5));
    assert_eq!(blind_positions(usize::MAX - 1, usize::MAX), (0, 1));
    assert_eq!(blind_positions(7, 1), (0, 0));
    assert_eq!(blind_positions(7, 0), (0, 0));
}

#[test]
fn streets_bring_five_cards() {
    let all = [Street::Preflop, Street::Flop, Street::Turn, Street::River];
    let counts: Vec<usize> = all.iter().map(|s| cards_for_street(*s)).collect();
    assert_eq!(counts, vec![0, 3, 1, 1]);
}

/// Plays a hand dealt elsewhere to its end, everybody calling.
fn called_down(h: &mut GameHand, board: &[&str]) {
    h.start().unwrap();
    let mut next = 0;
    while !h.is_done() {
        if let Some(s) = h.pending_board_street() {
            let n = cards_for_street(s);
            let cards: Vec<Card> = board[next..next + n].iter().map(|c| cd(c)).collect();
            next += n;
            h.inject_board_for_street(&cards).unwrap();
        } else {
            let actor = h.snapshot().current_actor.unwrap();
            h.apply_action(actor, PlayerAction::Call).unwrap();
        }
    }
}

const BOARD: [&str; 5] = ["2h", "7c", "9h", "Jc", "Qd"];

#[test]
fn sealed_cards_stay_sealed_while_the_hand_is_played() {
    let mut h = elsewhere(&[300, 200, 500]);
    assert!(h.seats().iter().all(|s| s.hole == HoleSlot::Opaque));
    called_down(&mut h, &BOARD);
    assert!(h.seats().iter().all(|s| s.hole == HoleSlot::Opaque));
    assert!(h.snapshot().players.iter().all(|p| p.hole_cards.is_none()));
    let events = h.drain_events();
    assert!(!events.iter().any(|e| matches!(e, EngineEvent::HoleCardsDealt { .. })));
    assert!(h.undealt_board().is_empty());
}

#[test]
fn every_refusal_of_cards_has_its_reason() {
    let mut plain = dealt(&[300, 300], 1);
    plain.start().unwrap();
    assert_eq!(
        plain.inject_board_for_street(&[cd("As")]).unwrap_err(),
        BlindInjectError::NotBlindMode
    );
    assert_eq!(
        plain.inject_showdown_reveal(pid(1), hole("As", "Ks")),
        Err(BlindInjectError::NotBlindMode)
    );
    let mut h = elsewhere(&[300, 200, 500]);
    h.start().unwrap();
    assert_eq!(
        h.inject_board_for_street(&[cd("As")]).unwrap_err(),
        BlindInjectError::NoBoardPending
    );
    assert_eq!(
        h.inject_showdown_reveal(pid(1), hole("As", "Ks")),
        Err(BlindInjectError::NotAtShowdown)
    );
    h.apply_action(pid(1), PlayerAction::Fold).unwrap();
    h.apply_action(pid(2), PlayerAction::Call).unwrap();
    h.apply_action(pid(3), PlayerAction::Check).unwrap();
    assert_eq!(h.pending_board_street(), Some(Street::Flop));
    assert_eq!(
        h.inject_board_for_street(&[cd("As")]).unwrap_err(),
        BlindInjectError::WrongBoardCount { street: Street::Flop, expected: 3, got: 1 }
    );
    assert_eq!(
        h.inject_board_for_street(&[cd("As"), cd("Ks"), cd("As")]).unwrap_err(),
        BlindInjectError::DuplicateCard { card: cd("As") }
    );
    assert_eq!(h.pending_board_street(), Some(Street::Flop));
    let mut next = 0;
    while !h.is_done() {
        if let Some(s) = h.pending_board_street() {
            let n = cards_for_street(s);
            let cards: Vec<Card> = BOARD[next..next + n].iter().map(|c| cd(c)).collect();
            next += n;
            h.inject_board_for_street(&cards).unwrap();
        } else {
            let actor = h.snapshot().current_actor.unwrap();
            h.apply_action(actor, PlayerAction::Check).unwrap();
        }
    }
    assert_eq!(
        h.inject_showdown_reveal(pid(9), hole("As", "Ks")),
        Err(BlindInjectError::UnknownPlayer(pid(9)))
    );
    assert_eq!(
        h.inject_showdown_reveal(pid(1), hole("As", "Ks")),
        Err(BlindInjectError::PlayerFolded(pid(1)))
    );
    assert_eq!(
        h.inject_showdown_reveal(pid(2), hole("As", "2h")),
        Err(BlindInjectError::DuplicateCard { card: cd("2h") })
    );
    assert_eq!(h.inject_showdown_reveal(pid(2), hole("As", "Ks")), Ok(()));
    assert_eq!(h.inject_showdown_reveal(pid(2), hole("As", "Ks")), Ok(()));
    assert_eq!(
        h.inject_showdown_reveal(pid(2), hole("As", "Kd")),
        Err(BlindInjectError::AlreadyRevealed(pid(2)))
    );
    assert_eq!(
        h.inject_showdown_reveal(pid(3), hole("Ks", "Kd")),
        Err(BlindInjectError::DuplicateCard { card: cd("Ks") })
    );
}

#[test]
fn errors_have_their_words() {
    let finish = [
        (
            BlindFinishError::MissingReveal { player_id: pid(12), seat: 3 },
            "blind showdown: non-folded contender (player PlayerId(12), seat 3) has no injected reveal",
        ),
        (
            BlindFinishError::NotDone,
            "finish_blind rejected: hand is not finished (phase != Done)",
        ),
        (
            BlindFinishError::NotBlindMode,
            "finish_blind rejected: hand is not in blind mode (use finish())",
        ),
        (
            BlindFinishError::NoSurvivor,
            "finish_blind_forfeit_board rejected: no honest survivor after force-folding withholders",
        ),
    ];
    for (e, text) in finish {
        assert_eq!(e.to_string(), text);
    }
    let inject = [
        (BlindInjectError::NotBlindMode, "injection rejected: hand is not in blind mode"),
        (
            BlindInjectError::NoBoardPending,
            "no board is pending injection for the current street",
        ),
        (
            BlindInjectError::WrongBoardCount { street: Street::Flop, expected: 3, got: 12 },
            "wrong board card count for flop: expected 3, got 12",
        ),
        (
            BlindInjectError::UnknownPlayer(pid(7)),
            "showdown reveal rejected: no seat with player id PlayerId(7)",
        ),
        (
            BlindInjectError::PlayerFolded(pid(7)),
            "showdown reveal rejected: player PlayerId(7) has folded (folded cards stay sealed)",
        ),
        (
            BlindInjectError::NotAtShowdown,
            "showdown reveal rejected: hand is not at showdown (not done)",
        ),
        (
            BlindInjectError::DuplicateCard { card: cd("Th") },
            "injection rejected: duplicate card Th",
        ),
        (
            BlindInjectError::AlreadyRevealed(pid(7)),
            "showdown reveal rejected: player PlayerId(7) is already revealed with different cards",
        ),
    ];
    for (e, text) in inject {
        assert_eq!(e.to_string(), text);
    }
}

#[test]
fn shown_hands_are_settled_and_silent_ones_forfeit() {
    let mut h = elsewhere(&[300, 200, 500]);
    assert_eq!(h.finish_blind().unwrap_err(), BlindFinishError::NotDone);
    called_down(&mut h, &BOARD);
    assert_eq!(
        h.finish_blind().unwrap_err(),
        BlindFinishError::MissingReveal { player_id: pid(1), seat: 0 }
    );
    assert_eq!(
        h.finish_blind_with_forfeits().unwrap_err(),
        BlindFinishError::MissingReveal { player_id: pid(1), seat: 0 }
    );
    h.inject_showdown_reveal(pid(2), hole("3s", "4s")).unwrap();
    let mut forfeited = h.clone();
    let r = forfeited.finish_blind_with_forfeits().unwrap();
    assert_paid(&r, 60, 1000);
    assert_eq!(r.final_stacks[&2], 240);
    h.inject_showdown_reveal(pid(1), hole("As", "Ad")).unwrap();
    h.inject_showdown_reveal(pid(3), hole("5s", "6s")).unwrap();
    let r = h.finish_blind().unwrap();
    assert_paid(&r, 60, 1000);
    assert_eq!(r.final_stacks[&1], 340);
    assert_eq!(r.show_order.len(), 3);
    let mut plain = dealt(&[300, 300], 1);
    plain.start().unwrap();
    plain.apply_action(pid(1), PlayerAction::Fold).unwrap();
    assert_eq!(plain.finish_blind().unwrap_err(), BlindFinishError::NotBlindMode);
    assert_eq!(
        plain.finish_blind_forfeit_board(&[]).unwrap_err(),
        BlindFinishError::NotBlindMode
    );
}

#[test]
fn uncontested_hand_shows_nothing() {
    let mut h = elsewhere(&[300, 200]);
    h.start().unwrap();
    h.apply_action(pid(1), PlayerAction::Fold).unwrap();
    let r = h.finish_blind().unwrap();
    assert!(r.showdown.is_empty());
    assert!(r.show_order.is_empty());
    assert!(r.folded_hole_cards.is_empty());
    assert_paid(&r, 30, 500);
    assert_eq!(r.final_stacks[&2], 210);
}

#[test]
fn breaking_a_hand_off_conserves_chips_and_punishes_the_withholder() {
    let mut h = elsewhere(&[300, 300, 300]);
    h.start().unwrap();
    h.apply_action(pid(1), PlayerAction::AllIn).unwrap();
    h.apply_action(pid(2), PlayerAction::AllIn).unwrap();
    h.apply_action(pid(3), PlayerAction::AllIn).unwrap();
    let mut nobody = h.clone();
    assert_eq!(
        nobody.finish_blind_forfeit_board(&[pid(1), pid(2), pid(3)]).unwrap_err(),
        BlindFinishError::NoSurvivor
    );
    let back = nobody.finish_blind().unwrap();
    assert_paid(&back, 900, 900);
    assert!(back.final_stacks.values().all(|c| *c == 300));
    let r = h.finish_blind_forfeit_board(&[pid(2), pid(9), pid(2)]).unwrap();
    assert_paid(&r, 900, 900);
    assert_eq!(r.final_stacks[&1], 450);
    assert_eq!(r.final_stacks[&2], 0);
    assert_eq!(r.final_stacks[&3], 450);
    assert!(r.show_order.is_empty());
    assert!(h.is_done());
}

#[test]
fn abandoned_hand_is_refunded() {
    let mut h = elsewhere(&[1000, 1000]);
    h.start().unwrap();
    h.apply_action(pid(1), PlayerAction::AllIn).unwrap();
    h.apply_action(pid(2), PlayerAction::AllIn).unwrap();
    h.inject_board_for_street(&[cd("2c"), cd("7d"), cd("9s")]).unwrap();
    assert_eq!(
        h.finish_blind_forfeit_board(&[pid(1), pid(2)]).unwrap_err(),
        BlindFinishError::NoSurvivor
    );
    let mut with_forfeits = h.clone();
    let r = h.finish_blind().unwrap();
    assert_eq!(r.final_stacks, HashMap::from([(1, 1000), (2, 1000)]));
    assert_eq!(r.chips_awarded, HashMap::from([(1, 1000), (2, 1000)]));
    assert!(r.showdown.is_empty());
    assert!(r.show_order.is_empty());
    assert!(r.pots.iter().all(|p| p.is_refund));
    let f = with_forfeits.finish_blind_with_forfeits().unwrap();
    assert_eq!(f.final_stacks, r.final_stacks);
    assert!(f.showdown.is_empty());
    assert!(f.show_order.is_empty());
}

#[test]
fn uneven_stakes_of_an_abandoned_hand_go_back_layer_by_layer() {
    let mut h = elsewhere(&[100, 301, 200, 500]);
    h.start().unwrap();
    h.apply_action(pid(4), PlayerAction::Fold).unwrap();
    h.apply_action(pid(1), PlayerAction::AllIn).unwrap();
    h.apply_action(pid(2), PlayerAction::AllIn).unwrap();
    h.apply_action(pid(3), PlayerAction::AllIn).unwrap();
    assert_eq!(
        h.finish_blind_forfeit_board(&[pid(3), pid(1), pid(2)]).unwrap_err(),
        BlindFinishError::NoSurvivor
    );
    assert!(h.snapshot().side_pots.is_empty());
    let r = h.finish_blind().unwrap();
    assert_paid(&r, 601, 1101);
    assert_eq!(r.final_stacks, HashMap::from([(1, 100), (2, 301), (3, 200), (4, 500)]));
    let amounts: Vec<u32> = r.pots.iter().map(|p| p.amount.inner()).collect();
    assert_eq!(amounts, vec![300, 200, 101]);
}

#[test]
fn nothing_was_put_in_and_nothing_goes_back() {
    let mut h = elsewhere(&[100, 200]);
    assert_eq!(
        h.finish_blind_forfeit_board(&[pid(1), pid(2)]).unwrap_err(),
        BlindFinishError::NoSurvivor
    );
    let r = h.finish_blind().unwrap();
    assert!(r.pots.is_empty());
    assert_eq!(r.final_stacks, HashMap::from([(1, 100), (2, 200)]));
}

#[test]
fn snapshot_shows_the_table() {
    for seed in 0..40u64 {
        let stacks: Vec<u32> = match seed % 3 {
            0 => vec![500, 500],
            1 => vec![35, 500, 90, 15],
            _ => vec![5, 12, 800],
        };
        let mut h = dealt(&stacks, seed);
        let mut state = seed;
        h.start().unwrap();
        loop {
            let snap = h.snapshot();
            let put_in: u32 = h
                .seats()
                .iter()
                .map(|s| s.starting_stack.inner() - s.stack.inner())
                .sum();
            assert_eq!(snap.pot.inner(), put_in);
            let side: u32 = snap.side_pots.iter().map(|p| p.amount.inner()).sum();
            assert_eq!(side, put_in);
            assert_eq!(snap.dealer_seat, 0);
            assert_eq!(snap.players.len(), stacks.len());
            for (p, s) in snap.players.iter().zip(h.seats()) {
                assert_eq!(p.player_id, s.player_id);
                assert_eq!(p.seat, s.seat);
                assert_eq!(p.stack, s.stack);
                assert_eq!((p.folded, p.all_in), (s.folded, s.all_in));
                if !p.folded {
                    assert_eq!(p.all_in, p.stack.inner() == 0);
                }
                if Some(p.player_id) == snap.current_actor {
                    assert!(!p.folded && !p.all_in);
                }
            }
            if h.is_done() {
                break;
            }
            step(&mut h, &mut state).unwrap();
        }
    }
}

#[test]
fn shown_cards_are_the_only_known_ones_and_all_differ() {
    let mut h = elsewhere(&[300, 200, 500]);
    called_down(&mut h, &BOARD);
    assert_eq!(h.inject_showdown_reveal(pid(3), hole("As", "Ks")), Ok(()));
    assert!(h.inject_showdown_reveal(pid(1), hole("2h", "3h")).is_err());
    assert!(h.inject_showdown_reveal(pid(1), hole("3h", "3h")).is_err());
    assert!(h.inject_showdown_reveal(pid(1), hole("Ks", "3h")).is_err());
    let holes: Vec<HoleSlot> = h.seats().iter().map(|s| s.hole).collect();
    let shown = HoleSlot::Revealed(hole("As", "Ks"));
    assert_eq!(holes, vec![HoleSlot::Opaque, HoleSlot::Opaque, shown]);
    assert_eq!(h.inject_showdown_reveal(pid(1), hole("Ah", "3h")), Ok(()));
    h.finish_blind_with_forfeits().unwrap();
    let holes: Vec<HoleSlot> = h.seats().iter().map(|s| s.hole).collect();
    assert_eq!(holes, vec![HoleSlot::Revealed(hole("Ah", "3h")), HoleSlot::Opaque, shown]);
}

fn pot(amount: u32, eligible: &[u64], refund: &[u64]) -> SidePot {
    SidePot {
        cap: Chips(amount),
        amount: Chips(amount),
        eligible: eligible.iter().map(|n| pid(*n)).collect(),
        refund_to: refund.iter().map(|n| pid(*n)).collect(),
    }
}

fn order(ids: &[u64]) -> HashMap<u64, usize> {
    ids.iter().enumerate().map(|(i, n)| (*n, i)).collect()
}

#[test]
fn odd_chips_go_to_the_left_of_the_button() {
    let ids = [pid(5), pid(6), pid(7)];
    assert_eq!(odd_chip_recipients(&ids, 2, &order(&[7, 5, 6])), vec![pid(7), pid(5)]);
    assert_eq!(odd_chip_recipients(&ids, 0, &order(&[7, 5, 6])), Vec::<PlayerId>::new());
    assert_eq!(odd_chip_recipients(&ids, 1, &order(&[6])), vec![pid(6)]);
    assert_eq!(odd_chip_recipients(&ids, 1, &order(&[])), vec![pid(5)]);
    let r = distribute_pots_among_survivors(
        &[pot(101, &[5, 6], &[])],
        &[pid(5), pid(6)],
        &order(&[6, 5]),
    );
    let won: Vec<(u64, u32)> =
        r[0].winners.iter().map(|w| (w.player_id.inner(), w.amount_won.inner())).collect();
    assert_eq!(won, vec![(5, 50), (6, 51)]);
}

#[test]
fn unmatched_pots_go_back_and_empty_ones_vanish() {
    let board = BoardCards {
        flop: Some([cd("2h"), cd("7c"), cd("9h")]),
        turn: Some(cd("Jc")),
        river: Some(cd("Qd")),
    };
    let pots = [pot(40, &[5, 6], &[]), pot(0, &[5], &[]), pot(30, &[6], &[6])];
    let hands = [(pid(5), hole("As", "Ad")), (pid(6), hole("3s", "4s"))];
    let r = distribute_pots(&pots, &hands, &board, &order(&[5, 6]), &HashSet::new());
    assert_eq!(r.len(), 2);
    assert_eq!((r[0].index, r[0].is_refund), (0, false));
    assert_eq!(r[0].winners[0].player_id, pid(5));
    assert_eq!((r[1].index, r[1].is_refund), (2, true));
    assert_eq!(r[1].winners[0].player_id, pid(6));
}

#[test]
fn forfeited_layer_goes_to_those_who_showed() {
    let board = BoardCards::empty();
    let pots = [pot(40, &[6, 7], &[])];
    let hands = [(pid(5), hole("As", "Ad"))];
    let silent: HashSet<u64> = [6u64, 7].into_iter().collect();
    let r = distribute_pots(&pots, &hands, &board, &order(&[5, 6, 7]), &silent);
    assert_eq!(r[0].winners.len(), 1);
    assert_eq!(r[0].winners[0].player_id, pid(5));
    assert!(!r[0].is_refund);
    let back = distribute_pots(&pots, &hands, &board, &order(&[5, 6, 7]), &HashSet::new());
    assert!(back[0].is_refund);
    assert_eq!(back[0].winners.len(), 2);
}

#[test]
fn lone_player_takes_what_the_player_has_part_in() {
    let pots = [pot(40, &[5, 6], &[]), pot(20, &[6], &[])];
    let r = distribute_pots_uncontested(&pots, Some(pid(5)), &order(&[5, 6]));
    assert_eq!(r[0].winners[0].player_id, pid(5));
    assert!(r[1].is_refund);
    assert_eq!(r[1].winners[0].player_id, pid(6));
    let none = distribute_pots_uncontested(&pots, None, &order(&[5, 6]));
    assert!(none.iter().all(|p| p.is_refund));
}

#[test]
fn new_hand_is_dealt_by_the_system() {
    let mut h = GameHand::new(sitting(&[500, 500]), 0, Chips(20), Chips(10));
    let seed = h.deck_seed();
    let snap = h.start().unwrap();
    let mut again = GameHand::new_with_rng(
        sitting(&[500, 500]),
        0,
        Chips(20),
        Chips(10),
        PokerRng::from_seed_bytes(seed),
    );
    assert_eq!(format!("{snap:?}"), format!("{:?}", again.start().unwrap()));
}

#[test]
fn blinds_larger_than_the_stacks_run_the_board_out() {
    let mut h = dealt(&[5, 8], 4);
    h.start().unwrap();
    assert!(h.is_done());
    assert_eq!(h.snapshot().board.count(), 5);
    let r = h.finish();
    assert_paid(&r, 13, 13);
    assert_eq!(r.pots.last().unwrap().amount, Chips(3));
    assert!(r.pots.last().unwrap().is_refund);
}

#[test]
fn hand_replays_from_its_seed_and_records() {
    for seed in 0..15u64 {
        let mut h = GameHand::new_with_rng(
            sitting(&[300, 45, 500]),
            0,
            Chips(20),
            Chips(10),
            PokerRng::from_seed_bytes([seed as u8; 32]),
        );
        let mut state = seed * 31;
        h.start().unwrap();
        while !h.is_done() {
            step(&mut h, &mut state).unwrap();
        }
        let seed_on_record = h.deck_seed();
        let r = h.finish();
        let mut again = GameHand::new_with_rng(
            sitting(&[300, 45, 500]),
            0,
            Chips(20),
            Chips(10),
            PokerRng::from_seed_bytes(seed_on_record),
        );
        again.start().unwrap();
        for a in r.actions.iter().skip(2) {
            again.apply_action(a.player_id, a.action.clone()).unwrap();
        }
        assert!(again.is_done());
        let r2 = again.finish();
        assert_eq!(r.actions, r2.actions);
        assert_eq!(r.pots, r2.pots);
        assert_eq!(r.board, r2.board);
        assert_eq!(r.final_stacks, r2.final_stacks);
    }
}

#[test]
fn records_balance_one_after_the_other() {
    for seed in 0..20u64 {
        let mut h = dealt(&[300, 45, 500, 90], seed);
        let mut state = seed * 13;
        h.start().unwrap();
        while !h.is_done() {
            step(&mut h, &mut state).unwrap();
        }
        let pot = h.snapshot().pot;
        let r = h.finish();
        let mut so_far: u32 = 0;
        for a in &r.actions {
            assert_eq!(a.pot_before, Chips(so_far));
            so_far += a.amount.inner();
            assert_eq!(a.pot_after, Chips(so_far));
            assert_eq!(a.stack_before.inner(), a.stack_after.inner() + a.amount.inner());
            match a.action {
                PlayerAction::Call => assert!(a.amount.inner() > 0),
                PlayerAction::Check | PlayerAction::Fold => assert_eq!(a.amount.inner(), 0),
                _ => {}
            }
        }
        assert_eq!(pot, Chips(so_far));
    }
}

#[test]
fn no_card_is_dealt_twice() {
    for seed in 0..20u64 {
        let mut h = dealt(&[300, 300, 300, 300], seed);
        h.start().unwrap();
        while let Some(actor) = h.snapshot().current_actor {
            h.apply_action(actor, PlayerAction::Call).unwrap();
        }
        let deck = Deck::new(&mut PokerRng::from_seed(seed));
        let snap = h.snapshot();
        let mut out: Vec<Card> =
            snap.players.iter().map(|p| p.hole_cards.unwrap().card1).collect();
        out.extend(snap.players.iter().map(|p| p.hole_cards.unwrap().card2));
        out.extend(snap.board.all_cards());
        assert_eq!(&out[..], &deck.cards()[..13]);
        assert_eq!(out.iter().collect::<HashSet<_>>().len(), 13);
    }
}

#[test]
fn shown_raise_is_open_and_a_missing_one_is_not() {
    for seed in 0..40u64 {
        let mut h = dealt(&[300, 45, 500, 90], seed);
        let mut state = seed * 5 + 1;
        h.start().unwrap();
        while let Some(actor) = h.snapshot().current_actor {
            let snap = h.snapshot();
            let me = snap.players.iter().find(|p| p.player_id == actor).unwrap();
            let whole = me.stack.inner() + me.committed_this_street.inner();
            match snap.min_raise_to {
                Some(c) if c.inner() <= whole => {
                    assert!(h.validate_action(actor, &raise(c.inner())).is_ok());
                    assert!(h.validate_action(actor, &PlayerAction::AllIn).is_ok());
                }
                Some(_) => assert!(h.validate_action(actor, &PlayerAction::AllIn).is_ok()),
                None => {
                    let over = snap.current_bet.inner() + 1;
                    assert!(h.validate_action(actor, &raise(over)).is_err());
                    if whole > snap.current_bet.inner() {
                        assert!(h.validate_action(actor, &PlayerAction::AllIn).is_err());
                    }
                }
            }
            step(&mut h, &mut state).unwrap();
        }
    }
}

#[test]
fn actions_are_reported_with_their_numbers() {
    let mut h = dealt(&[500, 500, 500], 1);
    h.start().unwrap();
    let first = h.drain_events();
    assert!(matches!(first[0], EngineEvent::HandStarted { .. }));
    let number = h.next_action_seq();
    h.apply_action(pid(1), raise(60)).unwrap();
    let events = h.drain_events();
    match (&events[0], &events[1]) {
        (
            EngineEvent::ActionApplied { action, contributed, action_seq, next_actor_seat, .. },
            EngineEvent::PotUpdated { pot, .. },
        ) => {
            assert_eq!(*action, raise(60));
            assert_eq!((*contributed, *action_seq), (60, number));
            assert_eq!(*next_actor_seat, Some(1));
            assert_eq!(*pot, 90);
        }
        e => panic!("{e:?}"),
    }
}

#[test]
fn pots_are_contested_by_the_stakes_that_reach_them() {
    let mut h = dealt(&[100, 300, 500, 500], 1);
    h.start().unwrap();
    h.apply_action(pid(4), PlayerAction::AllIn).unwrap();
    h.apply_action(pid(1), PlayerAction::AllIn).unwrap();
    h.apply_action(pid(2), PlayerAction::AllIn).unwrap();
    h.apply_action(pid(3), PlayerAction::Fold).unwrap();
    let pots = h.snapshot().side_pots;
    let shown: Vec<(u32, u32, Vec<u64>, usize)> = pots
        .iter()
        .map(|p| {
            let ids = p.eligible.iter().map(|x| x.inner()).collect();
            (p.cap.inner(), p.amount.inner(), ids, p.refund_to.len())
        })
        .collect();
    assert_eq!(
        shown,
        vec![
            (100, 320, vec![1, 2, 4], 0),
            (300, 400, vec![2, 4], 0),
            (500, 200, vec![4], 1),
        ]
    );
}

#[test]
fn given_ranks_decide_who_gets_a_pot() {
    let ranked = [
        (pid(5), HandRank::Flush(3)),
        (pid(6), HandRank::Flush(3)),
        (pid(7), HandRank::OnePair(9)),
    ];
    assert_eq!(leaders_of(&ranked), vec![pid(5), pid(6)]);
    assert_eq!(leaders_of(&[]), Vec::<PlayerId>::new());
    let nobody = HashSet::new();
    let p = pot(31, &[5, 6], &[]);
    let (to, back) = pot_recipients(&p, &ranked[..2], &ranked, &nobody);
    assert_eq!((to.clone(), back), (vec![pid(5), pid(6)], false));
    let shared = share_out(4, &p, &to, back, &order(&[6, 5]));
    assert_eq!(shared.index, 4);
    assert_eq!(shared.winners[0].amount_won, Chips(15));
    assert_eq!(shared.winners[1].amount_won, Chips(16));
    assert_eq!(
        pot_recipients(&pot(31, &[8], &[]), &[], &ranked, &nobody),
        (vec![pid(8)], true)
    );
    let silent: HashSet<u64> = [8u64].into_iter().collect();
    assert_eq!(
        pot_recipients(&pot(31, &[8], &[]), &[], &ranked, &silent),
        (vec![pid(5), pid(6)], false)
    );
    assert_eq!(
        pot_recipients(&pot(31, &[5], &[5]), &ranked[..1], &ranked, &nobody),
        (vec![pid(5)], true)
    );
}
