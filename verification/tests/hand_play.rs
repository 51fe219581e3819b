use engine::action::{ActionError, BlindKind, PlayerAction};
use engine::card::{Card, Rank, Suit};
use engine::event::EngineEvent;
use engine::game::pots::distribute_pots;
use engine::game::{blind_positions, ActionTransitionPreview, GameHand, StreetActionFact};
use engine::hand::{BoardCards, HoleCards, Street};
use engine::player::{Chips, PlayerId};
use engine::rng::{DeckSeed, PokerRng};
use engine::round::{BettingRound, SidePot};
use std::collections::{HashMap, HashSet};

fn pid(n: u64) -> PlayerId {
    PlayerId::new(n)
}
fn c(n: u32) -> Chips {
    Chips(n)
}
fn card(r: Rank, s: Suit) -> Card {
    Card::new(r, s)
}

fn reference_preview(
    hand: &GameHand,
    player_id: PlayerId,
    action: &PlayerAction,
) -> Result<ActionTransitionPreview, ActionError> {
    if !hand.is_started() {
        return Err(ActionError::HandNotStarted);
    }
    if hand.is_done() {
        return Err(ActionError::HandFinished);
    }
    if !hand.seats().iter().any(|seat| seat.player_id == player_id) {
        return Err(ActionError::NotInHand);
    }
    let mut round_after_action = hand
        .betting_round_ref()
        .cloned()
        .ok_or(ActionError::HandFinished)?;
    let before = round_after_action
        .player_states()
        .iter()
        .find(|player| player.player_id == player_id)
        .ok_or(ActionError::NotInHand)?;
    let stack_before = before.stack;
    let committed_before = before.contributed;
    let current_bet_before = round_after_action.current_bet();
    let min_raise_to_before = round_after_action
        .current_player_can_raise()
        .then(|| round_after_action.min_raise_to());

    round_after_action.apply_action(player_id, action)?;
    let round_closed_after = round_after_action.is_done();

    let mut hand_after = hand.clone();
    let after_snapshot = hand_after.apply_action(player_id, action.clone())?;
    let after = after_snapshot
        .players
        .iter()
        .find(|player| player.player_id == player_id)
        .expect("previewed player remains in hand snapshot");
    let next_actor = after_snapshot.current_actor;
    let next_actor_can_raise_after = next_actor.is_some()
        && hand_after
            .betting_round_ref()
            .is_some_and(BettingRound::current_player_can_raise);
    let betting_terminal_after = hand_after.is_done()
        || hand_after
            .betting_round_ref()
            .is_none_or(BettingRound::is_done);
    Ok(ActionTransitionPreview {
        stack_before,
        committed_before,
        current_bet_before,
        min_raise_to_before,
        stack_after: after.stack,
        committed_after: after.committed_this_street,
        current_bet_after: after_snapshot.current_bet,
        min_raise_to_after: after_snapshot.min_raise_to,
        all_in_after: after.all_in,
        round_closed_after,
        next_actor,
        next_actor_can_raise_after,
        street_after: after_snapshot.street,
        betting_terminal_after,
        hand_done_after: hand_after.is_done(),
    })
}

#[test]
fn preview_action_transition_matches_full_clone_and_apply() {
    let mut compared = 0usize;
    for seed in 0u64..12 {
        let seats = if seed % 3 == 0 {
            vec![(pid(1), c(400), 0), (pid(2), c(400), 1)]
        } else {
            vec![
                (pid(1), c(400), 0),
                (pid(2), c(250), 1),
                (pid(3), c(1000), 2),
            ]
        };
        let mut hand = GameHand::new_with_rng(
            seats,
            (seed as usize) % 3,
            c(20),
            c(10),
            PokerRng::from_seed(seed),
        );
        hand.start().expect("start ok");

        for step in 0..40 {
            if hand.is_done() {
                break;
            }
            let Some(actor) = hand.snapshot().current_actor else {
                break;
            };
            let candidates = [
                PlayerAction::Fold,
                PlayerAction::Check,
                PlayerAction::Call,
                PlayerAction::AllIn,
                PlayerAction::Raise { amount: c(40) },
                PlayerAction::Raise { amount: c(120) },
                PlayerAction::Raise { amount: c(7) },
            ];
            for probe in [actor, pid(3), pid(99)] {
                for candidate in &candidates {
                    assert_eq!(
                            hand.preview_action_transition(probe, candidate),
                            reference_preview(&hand, probe, candidate),
                            "preview diverged (seed {seed}, step {step}, player {probe:?}, action {candidate:?})"
                        );
                    compared += 1;
                }
            }
            let chosen = match step % 4 {
                0 => PlayerAction::Call,
                1 => PlayerAction::Check,
                2 => PlayerAction::Raise { amount: c(60) },
                _ => PlayerAction::Call,
            };
            let applied = hand
                .apply_action(actor, chosen)
                .or_else(|_| hand.apply_action(actor, PlayerAction::Call))
                .or_else(|_| hand.apply_action(actor, PlayerAction::Check));
            if applied.is_err() {
                hand.apply_action(actor, PlayerAction::Fold)
                    .expect("fold is always legal for the actor");
            }
        }
    }
    assert!(
        compared > 500,
        "expected a broad comparison, got {compared}"
    );
}

#[test]
fn tests_start_rejects_table_chip_total_above_public_u32_pot_range() {
    let mut hand = GameHand::new_with_rng(
        vec![(pid(1), c(u32::MAX), 0), (pid(2), c(1), 1)],
        0,
        c(2),
        c(1),
        PokerRng::from_seed(1),
    );
    assert!(matches!(hand.start(), Err(ActionError::InvalidAction)));
    assert!(
        hand.actions().is_empty(),
        "oversized table must fail before blinds"
    );
}

#[test]
fn tests_blinds_have_distinct_seq_after_start() {
    let mut hand = GameHand::new_with_rng(
        vec![
            (pid(1), c(1000), 0),
            (pid(2), c(1000), 1),
            (pid(3), c(1000), 2),
        ],
        0,
        c(20),
        c(10),
        PokerRng::from_seed(42),
    );
    hand.start().expect("start ok");
    let result_actions = hand.actions();
    assert_eq!(
        result_actions.len(),
        2,
        "start() must record exactly 2 blind actions"
    );
    assert_eq!(result_actions[0].seq, 0, "SB blind must have seq=0");
    assert_eq!(result_actions[1].seq, 1, "BB blind must have seq=1");
    assert_ne!(
        result_actions[0].seq, result_actions[1].seq,
        "SB and BB blind seq must be distinct (was the P0 bug)"
    );
}

#[test]
fn live_utg_straddle_posts_and_moves_first_action_left() {
    let mut hand = GameHand::new_with_rng(
        vec![
            (pid(1), c(1000), 0),
            (pid(2), c(1000), 1),
            (pid(3), c(1000), 2),
            (pid(4), c(1000), 3),
        ],
        0,
        c(20),
        c(10),
        PokerRng::from_seed(43),
    )
    .with_forced_straddle(c(40));

    let snap = hand.start().expect("straddled hand starts");
    assert_eq!(hand.actions().len(), 3);
    assert!(matches!(
        hand.actions()[2].action,
        PlayerAction::Blind {
            kind: BlindKind::Straddle,
            amount: Chips(40)
        }
    ));
    assert_eq!(hand.actions()[2].seq, 2);
    assert_eq!(snap.pot, c(70));
    assert_eq!(snap.current_bet, c(40));
    assert_eq!(snap.min_raise_to, Some(c(80)));
    assert_eq!(
        snap.current_actor,
        Some(pid(1)),
        "action opens left of UTG straddler"
    );

    let events = hand.drain_events();
    let action_seqs: Vec<u16> = events
        .iter()
        .filter_map(|event| match event {
            EngineEvent::ActionApplied { action_seq, .. } => Some(*action_seq),
            _ => None,
        })
        .collect();
    assert_eq!(
        action_seqs,
        vec![0, 1, 2],
        "forced posts stay chronological"
    );
    assert!(matches!(
        events.first(),
        Some(EngineEvent::HandStarted {
            straddle_seat: Some(3),
            straddle_amount: Some(40),
            ..
        })
    ));
    assert!(events.iter().any(|event| matches!(
        event,
        EngineEvent::ActionApplied {
            seat: 3,
            action: PlayerAction::Blind {
                kind: BlindKind::Straddle,
                ..
            },
            current_bet: 40,
            min_raise_to: Some(80),
            next_actor_seat: Some(0),
            action_seq: 2,
            ..
        }
    )));
}

#[test]
fn straddled_all_in_matching_the_bring_in_is_a_call_not_a_raise() {
    let mut hand = GameHand::new_with_rng(
        vec![
            (pid(1), c(40), 0),
            (pid(2), c(1000), 1),
            (pid(3), c(1000), 2),
            (pid(4), c(1000), 3),
        ],
        0,
        c(20),
        c(10),
        PokerRng::from_seed(45),
    )
    .with_forced_straddle(c(40));

    let snap = hand.start().expect("straddled hand starts");
    assert_eq!(snap.current_bet, c(40));

    hand.apply_action(pid(1), PlayerAction::AllIn)
        .expect("all-in for exactly the straddle is legal");

    let facts = hand.current_street_action_facts();
    let all_in_fact = facts
        .iter()
        .find(|fact| fact.player_id == pid(1))
        .expect("the all-in is projected");
    assert!(
        !all_in_fact.increased_bet,
        "40 only MATCHES the 40 straddle — it does not increase the wager; \
             the big-blind baseline (20) reported an increase"
    );
    assert!(
        !all_in_fact.full_raise,
        "an all-in call is never a full raise; the big-blind baseline made \
             its phantom 20 delta clear a phantom 20 increment"
    );
    assert_eq!(
        all_in_fact.strategy_action(),
        PlayerAction::Call,
        "a non-full-raise projects to Call — this is the fabricated raise \
             level the bots and coach were fed (BUG-175)"
    );
    assert!(all_in_fact.is_call_like(), "an all-in call is call-like");
}

#[test]
fn straddled_short_all_in_below_the_bring_in_is_not_an_increase() {
    let mut hand = GameHand::new_with_rng(
        vec![
            (pid(1), c(30), 0),
            (pid(2), c(1000), 1),
            (pid(3), c(1000), 2),
            (pid(4), c(1000), 3),
        ],
        0,
        c(20),
        c(10),
        PokerRng::from_seed(46),
    )
    .with_forced_straddle(c(40));

    hand.start().expect("straddled hand starts");
    hand.apply_action(pid(1), PlayerAction::AllIn)
        .expect("short all-in call is legal");

    let facts = hand.current_street_action_facts();
    let all_in_fact = facts
        .iter()
        .find(|fact| fact.player_id == pid(1))
        .expect("the all-in is projected");
    assert!(
        !all_in_fact.increased_bet,
        "30 < the 40 straddle bring-in, so this is an under-call, not a \
             raise; the big-blind baseline (20) wrongly flagged it increased"
    );
    assert!(all_in_fact.is_call_like(), "an under-call is call-like");
}

#[test]
fn straddled_three_bet_keeps_full_raise_depth() {
    let mut hand = GameHand::new_with_rng(
        vec![
            (pid(1), c(1000), 0),
            (pid(2), c(1000), 1),
            (pid(3), c(1000), 2),
            (pid(4), c(1000), 3),
        ],
        0,
        c(20),
        c(10),
        PokerRng::from_seed(48),
    )
    .with_forced_straddle(c(40));

    hand.start().expect("straddled hand starts");
    hand.apply_action(pid(1), PlayerAction::Raise { amount: c(100) })
        .expect("open to 100 is legal");
    hand.apply_action(pid(2), PlayerAction::Raise { amount: c(170) })
        .expect("min 3-bet to 170 is legal");

    let facts = hand.current_street_action_facts();
    let three_bet = facts
        .iter()
        .find(|fact| fact.player_id == pid(2))
        .expect("the 3-bet is projected");
    assert!(three_bet.increased_bet, "170 > 100 increases the wager");
    assert!(
        three_bet.full_raise,
        "delta 70 >= the real 60 increment — a full 3-bet; the big-blind \
             baseline inflated the open's increment to 80 and lost this"
    );
    assert_eq!(
        three_bet.strategy_action(),
        PlayerAction::Raise { amount: c(170) },
        "a full 3-bet must NOT be projected down to Call (BUG-196)"
    );
}

#[test]
fn last_aggressor_carries_the_preflop_raiser_onto_a_checked_flop() {
    let mut hand = GameHand::new_with_rng(
        vec![
            (pid(1), c(1000), 0),
            (pid(2), c(1000), 1),
            (pid(3), c(1000), 2),
        ],
        0,
        c(20),
        c(10),
        PokerRng::from_seed(49),
    );
    hand.start().expect("hand starts");
    assert_eq!(
        hand.last_aggressor_player_id(),
        None,
        "blind posts are never aggression"
    );

    hand.apply_action(pid(1), PlayerAction::Raise { amount: c(60) })
        .expect("open is legal");
    hand.apply_action(pid(2), PlayerAction::Fold)
        .expect("fold is legal");
    hand.apply_action(pid(3), PlayerAction::Call)
        .expect("call is legal");
    assert_eq!(
        hand.last_aggressor_player_id(),
        Some(pid(1)),
        "at the start of the flop the preflop raiser is still the aggressor"
    );
    hand.apply_action(pid(3), PlayerAction::Check)
        .expect("check is legal");

    assert!(
        hand.current_street_action_facts()
            .iter()
            .all(|fact| !fact.increased_bet),
        "no flop wager increase yet"
    );
    assert_eq!(hand.last_aggressor_player_id(), Some(pid(1)));

    hand.apply_action(pid(1), PlayerAction::Raise { amount: c(40) })
        .expect("c-bet is legal");
    hand.apply_action(pid(3), PlayerAction::Raise { amount: c(120) })
        .expect("check-raise is legal");
    assert_eq!(
        hand.last_aggressor_player_id(),
        Some(pid(3)),
        "the most recent wager increase wins, on the current street"
    );
}

#[test]
fn last_aggressor_is_none_in_a_limped_pot_checked_down() {
    let mut hand = GameHand::new_with_rng(
        vec![
            (pid(1), c(1000), 0),
            (pid(2), c(1000), 1),
            (pid(3), c(1000), 2),
        ],
        0,
        c(20),
        c(10),
        PokerRng::from_seed(50),
    );
    hand.start().expect("hand starts");
    hand.apply_action(pid(1), PlayerAction::Call).expect("limp");
    hand.apply_action(pid(2), PlayerAction::Call)
        .expect("complete");
    hand.apply_action(pid(3), PlayerAction::Check)
        .expect("option");
    hand.apply_action(pid(2), PlayerAction::Check)
        .expect("check");
    hand.apply_action(pid(3), PlayerAction::Check)
        .expect("check");
    assert_eq!(hand.last_aggressor_player_id(), None);
    assert!(hand.street_action_facts(Street::River).is_empty());
}

#[test]
fn unstraddled_preflop_facts_keep_the_big_blind_baseline() {
    let mut hand = GameHand::new_with_rng(
        vec![
            (pid(1), c(1000), 0),
            (pid(2), c(1000), 1),
            (pid(3), c(1000), 2),
        ],
        0,
        c(20),
        c(10),
        PokerRng::from_seed(47),
    );

    let snap = hand.start().expect("plain hand starts");
    assert_eq!(snap.current_bet, c(20), "no straddle → BB is the bring-in");

    hand.apply_action(pid(1), PlayerAction::AllIn)
        .expect("all-in is legal");
    let facts = hand.current_street_action_facts();
    let fact = facts
        .iter()
        .find(|fact| fact.player_id == pid(1))
        .expect("the all-in is projected");
    assert!(
        fact.increased_bet && fact.full_raise,
        "a 1000 all-in over a 20 big blind is still a full raise"
    );
}

#[test]
fn configured_straddle_is_suppressed_heads_up() {
    let mut hand = GameHand::new_with_rng(
        vec![(pid(1), c(1000), 0), (pid(2), c(1000), 1)],
        0,
        c(20),
        c(10),
        PokerRng::from_seed(44),
    )
    .with_forced_straddle(c(40));

    let snap = hand.start().expect("heads-up starts without straddle");
    assert_eq!(hand.actions().len(), 2);
    assert_eq!(snap.pot, c(30));
    assert_eq!(snap.current_bet, c(20));
    assert_eq!(snap.min_raise_to, Some(c(40)));
    assert!(matches!(
        hand.drain_events().first(),
        Some(EngineEvent::HandStarted {
            straddle_seat: None,
            straddle_amount: None,
            ..
        })
    ));
}

#[test]
fn short_all_in_straddle_does_not_inflate_the_bring_in() {
    let mut hand = GameHand::new_with_rng(
        vec![
            (pid(1), c(15), 0),
            (pid(2), c(1000), 1),
            (pid(3), c(1000), 2),
        ],
        0,
        c(20),
        c(10),
        PokerRng::from_seed(45),
    )
    .with_forced_straddle(c(40));

    let snap = hand.start().expect("short straddled hand starts");
    assert_eq!(snap.pot, c(45));
    assert_eq!(snap.current_bet, c(20));
    assert_eq!(snap.min_raise_to, Some(c(40)));
    assert_eq!(
        snap.current_actor,
        Some(pid(2)),
        "action still opens left of straddler"
    );
    let short = snap.players.iter().find(|p| p.player_id == pid(1)).unwrap();
    assert_eq!(short.stack, c(0));
    assert!(short.all_in);
    assert!(matches!(
        hand.actions()[2].action,
        PlayerAction::Blind {
            kind: BlindKind::Straddle,
            amount: Chips(15)
        }
    ));
}

#[test]
fn tests_validate_action_is_pure_for_valid_and_invalid_inputs() {
    let mut hand = GameHand::new_with_rng(
        vec![(pid(1), c(1000), 0), (pid(2), c(1000), 1)],
        0,
        c(20),
        c(10),
        PokerRng::from_seed(43),
    );
    let before = hand.start().expect("start ok");
    let actor = before.current_actor.expect("preflop actor");
    let wrong_actor = if actor == pid(1) { pid(2) } else { pid(1) };
    let seq = hand.next_action_seq();
    let actions = hand.actions().len();
    let events = hand.events().len();
    let snapshot_before = hand.snapshot();

    hand.validate_action(actor, &PlayerAction::Call)
        .expect("current actor call validates");
    assert!(matches!(
        hand.validate_action(wrong_actor, &PlayerAction::Call),
        Err(ActionError::NotYourTurn)
    ));

    let snapshot_after = hand.snapshot();
    assert_eq!(hand.next_action_seq(), seq);
    assert_eq!(hand.actions().len(), actions);
    assert_eq!(hand.events().len(), events);
    assert_eq!(snapshot_after.current_actor, snapshot_before.current_actor);
    assert_eq!(snapshot_after.pot, snapshot_before.pot);
    assert_eq!(snapshot_after.current_bet, snapshot_before.current_bet);
    assert_eq!(
        snapshot_after
            .players
            .iter()
            .map(|player| (player.player_id, player.stack, player.committed_this_street))
            .collect::<Vec<_>>(),
        snapshot_before
            .players
            .iter()
            .map(|player| (player.player_id, player.stack, player.committed_this_street))
            .collect::<Vec<_>>()
    );
}

#[test]
fn tests_hu_all_in_opponent_exposes_call_only_and_stabilized_runout_preview() {
    let mut hand = GameHand::new_blind(
        vec![(pid(1), c(100), 0), (pid(2), c(1000), 1)],
        0,
        c(20),
        c(10),
        DeckSeed::default(),
    );
    hand.start().expect("start blind hand");
    assert_eq!(hand.snapshot().current_actor, Some(pid(1)));
    hand.apply_action(pid(1), PlayerAction::AllIn)
        .expect("button/SB shove");

    let snap = hand.snapshot();
    assert_eq!(snap.current_actor, Some(pid(2)));
    assert_eq!(snap.current_bet, c(100));
    assert_eq!(
        snap.min_raise_to, None,
        "the sole live stack may fold/call but cannot build a dry side pot"
    );
    assert_eq!(
        hand.preview_action_transition(pid(2), &PlayerAction::Raise { amount: c(200) })
            .unwrap_err(),
        ActionError::InvalidAction
    );
    assert_eq!(
        hand.preview_action_transition(pid(2), &PlayerAction::AllIn)
            .unwrap_err(),
        ActionError::InvalidAction,
        "an over-call all-in is still an aggressive dry-side-pot wager"
    );

    let call = hand
        .preview_action_transition(pid(2), &PlayerAction::Call)
        .expect("call remains legal");
    assert_eq!(call.min_raise_to_before, None);
    assert!(call.round_closed_after, "the call closes preflop");
    assert_eq!(call.street_after, Street::Flop);
    assert_eq!(call.committed_after, c(0));
    assert_eq!(call.current_bet_after, c(0));
    assert_eq!(call.min_raise_to_after, None);
    assert_eq!(call.next_actor, None, "all-in runout has no flop actor");
    assert!(!call.next_actor_can_raise_after);
    assert!(call.betting_terminal_after);
}

#[test]
fn tests_transition_preview_stabilizes_street_closing_action_into_flop_state() {
    let mut hand = GameHand::new_blind(
        vec![(pid(1), c(1000), 0), (pid(2), c(1000), 1)],
        0,
        c(20),
        c(10),
        DeckSeed::default(),
    );
    hand.start().expect("start blind hand");
    hand.apply_action(pid(1), PlayerAction::Call)
        .expect("SB completes");

    let transition = hand
        .preview_action_transition(pid(2), &PlayerAction::Check)
        .expect("BB option checks");
    assert!(transition.round_closed_after, "check closes preflop");
    assert_eq!(transition.street_after, Street::Flop);
    assert_eq!(transition.stack_after, c(980));
    assert_eq!(transition.committed_after, c(0));
    assert_eq!(transition.current_bet_after, c(0));
    assert_eq!(transition.min_raise_to_after, Some(c(20)));
    assert_eq!(
        transition.next_actor,
        Some(pid(2)),
        "the non-button/BB acts first postflop heads-up"
    );
    assert!(transition.next_actor_can_raise_after);
    assert!(!transition.betting_terminal_after);
}

#[test]
fn tests_short_big_blind_transition_uses_actual_live_contribution() {
    let mut covered = GameHand::new_blind(
        vec![(pid(1), c(100), 0), (pid(2), c(100), 1), (pid(3), c(8), 2)],
        0,
        c(20),
        c(10),
        DeckSeed::default(),
    );
    covered.start().unwrap();
    assert_eq!(covered.snapshot().current_actor, Some(pid(1)));
    let closes = covered
        .preview_action_transition(pid(1), &PlayerAction::Fold)
        .unwrap();
    assert!(closes.round_closed_after);
    assert!(closes.betting_terminal_after);
    assert_eq!(closes.next_actor, None);
    assert_eq!(closes.min_raise_to_after, None);

    let mut owing = GameHand::new_blind(
        vec![(pid(1), c(100), 0), (pid(2), c(100), 1), (pid(3), c(8), 2)],
        0,
        c(20),
        c(5),
        DeckSeed::default(),
    );
    owing.start().unwrap();
    let remains = owing
        .preview_action_transition(pid(1), &PlayerAction::Fold)
        .unwrap();
    assert!(!remains.round_closed_after);
    assert!(!remains.betting_terminal_after);
    assert_eq!(remains.street_after, Street::Preflop);
    assert_eq!(remains.current_bet_after, c(8));
    assert_eq!(remains.next_actor, Some(pid(2)));
    assert_eq!(remains.min_raise_to_after, None);
    assert!(!remains.next_actor_can_raise_after);
}

#[test]
fn tests_first_voluntary_action_seq_is_2_after_blinds() {
    let mut hand = GameHand::new_with_rng(
        vec![
            (pid(1), c(1000), 0),
            (pid(2), c(1000), 1),
            (pid(3), c(1000), 2),
        ],
        0,
        c(20),
        c(10),
        PokerRng::from_seed(43),
    );
    hand.start().unwrap();
    let actor = hand.snapshot().current_actor.unwrap();
    hand.apply_action(actor, PlayerAction::Fold).unwrap();
    let result_actions = hand.actions();
    assert_eq!(
        result_actions.len(),
        3,
        "after one voluntary action, 3 total"
    );
    assert_eq!(
        result_actions[2].seq, 2,
        "first voluntary action must have seq=2"
    );
    let seqs: Vec<u16> = result_actions.iter().map(|r| r.seq).collect();
    let unique: std::collections::HashSet<u16> = seqs.iter().copied().collect();
    assert_eq!(seqs.len(), unique.len(), "all action seqs must be unique");
}

#[test]
fn tests_out_of_range_dealer_idx_wraps_without_panic() {
    let mut hand = GameHand::new_with_rng(
        vec![
            (pid(1), c(1000), 0),
            (pid(2), c(1000), 1),
            (pid(3), c(1000), 2),
        ],
        5,
        c(20),
        c(10),
        PokerRng::from_seed(11),
    );
    hand.start().expect("start with wrapped dealer index");
    let snap = hand.snapshot();
    assert_eq!(
        snap.dealer_seat, 2,
        "out-of-range dealer index must wrap to seat 2"
    );
}

#[test]
fn tests_heads_up_out_of_range_dealer_idx_wraps_without_panic() {
    let mut hand = GameHand::new_with_rng(
        vec![(pid(1), c(1000), 0), (pid(2), c(1000), 1)],
        4,
        c(20),
        c(10),
        PokerRng::from_seed(11),
    );
    hand.start().expect("HU start with wrapped dealer index");
    let snap = hand.snapshot();
    assert_eq!(
        snap.dealer_seat, 0,
        "out-of-range HU dealer index must wrap to seat 0"
    );
    let mut hand2 = GameHand::new_with_rng(
        vec![(pid(1), c(1000), 0), (pid(2), c(1000), 1)],
        5,
        c(20),
        c(10),
        PokerRng::from_seed(12),
    );
    hand2
        .start()
        .expect("HU start with wrapped odd dealer index");
    assert_eq!(
        hand2.snapshot().dealer_seat,
        1,
        "out-of-range odd HU dealer index must wrap to seat 1"
    );
}

#[test]
fn tests_usize_max_dealer_idx_wraps_through_a_complete_hand() {
    assert_eq!(blind_positions(usize::MAX, 2), (usize::MAX % 2, 0));
    let dealer = usize::MAX % 3;
    assert_eq!(
        blind_positions(usize::MAX, 3),
        ((dealer + 1) % 3, (dealer + 2) % 3)
    );

    let mut hand = GameHand::new_with_rng(
        vec![
            (pid(1), c(1_000), 0),
            (pid(2), c(1_000), 1),
            (pid(3), c(1_000), 2),
        ],
        usize::MAX,
        c(20),
        c(10),
        PokerRng::from_seed(13),
    );
    hand.start().expect("usize::MAX dealer starts safely");

    while !hand.is_done() {
        let snapshot = hand.snapshot();
        let actor = snapshot.current_actor.expect("live hand has an actor");
        let player = snapshot
            .players
            .iter()
            .find(|player| player.player_id == actor)
            .expect("actor exists");
        let action = if snapshot.current_bet.0 > player.committed_this_street.0 {
            PlayerAction::Call
        } else {
            PlayerAction::Check
        };
        hand.apply_action(actor, action)
            .expect("call/check runout remains legal");
    }

    let result = hand.finish();
    assert_eq!(result.show_order.len(), 3);
}

#[test]
fn tests_street_action_facts_distinguish_all_in_call_short_raise_and_full_raise() {
    struct Case {
        all_in_total: u32,
        increased_bet: bool,
        full_raise: bool,
        call_like: bool,
        expected_last_aggressor: PlayerId,
    }

    let opener = pid(4);
    let all_in_player = pid(1);
    let cases = [
        Case {
            all_in_total: 50,
            increased_bet: false,
            full_raise: false,
            call_like: true,
            expected_last_aggressor: opener,
        },
        Case {
            all_in_total: 100,
            increased_bet: false,
            full_raise: false,
            call_like: true,
            expected_last_aggressor: opener,
        },
        Case {
            all_in_total: 150,
            increased_bet: true,
            full_raise: false,
            call_like: false,
            expected_last_aggressor: all_in_player,
        },
        Case {
            all_in_total: 180,
            increased_bet: true,
            full_raise: true,
            call_like: false,
            expected_last_aggressor: all_in_player,
        },
    ];

    for case in cases {
        let mut hand = GameHand::new_with_rng(
            vec![
                (all_in_player, c(case.all_in_total), 0),
                (pid(2), c(1_000), 1),
                (pid(3), c(1_000), 2),
                (opener, c(1_000), 3),
            ],
            0,
            c(20),
            c(10),
            PokerRng::from_seed(u64::from(case.all_in_total)),
        );
        hand.start().expect("start hand");
        assert_eq!(hand.snapshot().current_actor, Some(opener));
        hand.apply_action(opener, PlayerAction::Raise { amount: c(100) })
            .expect("opening raise");
        assert_eq!(hand.snapshot().current_actor, Some(all_in_player));
        hand.apply_action(all_in_player, PlayerAction::AllIn)
            .expect("all-in case is legal");

        let facts = hand.current_street_action_facts();
        assert_eq!(facts.len(), 2);
        assert!(facts[0].increased_bet);
        assert!(facts[0].full_raise);
        assert_eq!(facts[1].increased_bet, case.increased_bet);
        assert_eq!(facts[1].full_raise, case.full_raise);
        assert_eq!(facts[1].is_call_like(), case.call_like);

        let projected = facts[1].strategy_action();
        if case.full_raise {
            assert_eq!(projected, PlayerAction::AllIn);
        } else {
            assert_eq!(projected, PlayerAction::Call);
        }
        assert_eq!(
            facts
                .iter()
                .rev()
                .find(|fact| fact.increased_bet)
                .map(|fact| fact.player_id),
            Some(case.expected_last_aggressor)
        );
    }
}

#[test]
fn tests_call_like_fact_counts_calls_but_not_short_raises() {
    let fact = |action, increased_bet| StreetActionFact {
        player_id: pid(1),
        action,
        increased_bet,
        full_raise: false,
    };

    assert!(fact(PlayerAction::Call, false).is_call_like());
    assert!(fact(PlayerAction::AllIn, false).is_call_like());
    assert!(fact(PlayerAction::Raise { amount: c(100) }, false).is_call_like());
    assert!(!fact(PlayerAction::AllIn, true).is_call_like());
    assert!(!fact(PlayerAction::Raise { amount: c(150) }, true).is_call_like());
}

#[test]
fn tests_heads_up_fold_preflop() {
    let mut hand = GameHand::new_with_rng(
        vec![(pid(1), c(1000), 0), (pid(2), c(1000), 1)],
        0,
        c(20),
        c(10),
        PokerRng::from_seed(2),
    );
    hand.start().unwrap();
    let actor = hand.snapshot().current_actor.unwrap();
    hand.apply_action(actor, PlayerAction::Fold).unwrap();
    assert!(hand.is_done());
    let result = hand.finish();
    let total: u32 = result.chips_awarded.values().sum();
    assert_eq!(total, 30);
}

#[test]
fn tests_undealt_board_returns_the_real_preflop_runout_without_advancing_deck() {
    let mut hand = GameHand::new_with_rng(
        vec![(pid(1), c(1000), 0), (pid(2), c(1000), 1)],
        0,
        c(20),
        c(10),
        PokerRng::from_seed(2),
    );
    hand.start().unwrap();
    let actor = hand.snapshot().current_actor.unwrap();
    hand.apply_action(actor, PlayerAction::Fold).unwrap();
    assert!(hand.is_done());

    let before = hand.deck().remaining();
    let runout = hand.undealt_board();

    assert_eq!(runout.len(), 5, "preflop fold leaves five real board cards");
    assert_eq!(
        hand.deck().remaining(),
        before,
        "rabbit hunt must not consume cards"
    );
    assert_eq!(
        runout[0],
        hand.deck().cards()[hand.deck().cards().len() - before]
    );
}

#[test]
fn tests_undealt_board_is_empty_after_a_complete_river() {
    let mut hand = GameHand::new_with_rng(
        vec![(pid(1), c(1000), 0), (pid(2), c(1000), 1)],
        0,
        c(20),
        c(10),
        PokerRng::from_seed(42),
    );
    hand.start().unwrap();

    loop {
        let actor = hand.snapshot().current_actor;
        let Some(actor) = actor else { break };
        let snap = hand.snapshot();
        let action = if snap.current_bet
            > snap
                .players
                .iter()
                .find(|p| p.player_id == actor)
                .map(|p| p.committed_this_street)
                .unwrap_or(Chips(0))
        {
            PlayerAction::Call
        } else {
            PlayerAction::Check
        };
        hand.apply_action(actor, action).unwrap();
    }
    assert!(hand.is_done());
    assert_eq!(hand.snapshot().board.count(), 5);
    assert!(hand.undealt_board().is_empty());
}

#[test]
fn tests_zero_chip_call_recorded_as_check() {
    let mut hand = GameHand::new_with_rng(
        vec![(pid(1), c(1000), 0), (pid(2), c(1000), 1)],
        0,
        c(20),
        c(10),
        PokerRng::from_seed(9),
    );
    hand.start().unwrap();

    let sb = hand.snapshot().current_actor.unwrap();
    assert_eq!(sb, pid(1), "SB acts first preflop in HU");
    hand.apply_action(sb, PlayerAction::Call).unwrap();

    let snap_before = hand.snapshot();
    let bb = snap_before.current_actor.unwrap();
    assert_eq!(bb, pid(2), "BB has the option to check or close the street");
    let pot_before = snap_before.pot;
    let bb_stack_before = snap_before
        .players
        .iter()
        .find(|p| p.player_id == bb)
        .unwrap()
        .stack;

    hand.apply_action(bb, PlayerAction::Call)
        .expect("zero-chip Call must be accepted");

    let last = hand.actions().last().unwrap();
    assert_eq!(last.player_id, bb);
    assert_eq!(
        last.action,
        PlayerAction::Check,
        "zero-chip Call must be relabelled to Check in action history"
    );
    assert_eq!(last.amount, Chips(0), "zero chips move either way");

    assert_eq!(
        last.pot_before, last.pot_after,
        "pot unchanged by zero-chip action"
    );
    let snap_after = hand.snapshot();
    let bb_stack_after = snap_after
        .players
        .iter()
        .find(|p| p.player_id == bb)
        .unwrap()
        .stack;
    assert_eq!(bb_stack_before, bb_stack_after, "BB stack unchanged");
    assert!(
        snap_after.pot >= pot_before,
        "pot must not shrink: {} -> {}",
        pot_before.0,
        snap_after.pot.0
    );
    assert_eq!(
        snap_after.pot, pot_before,
        "zero-chip action must not change the pot"
    );

    assert_eq!(
        hand.last_action(bb),
        Some(&PlayerAction::Check),
        "last_action must reflect the relabelled Check"
    );
}

#[test]
fn tests_heads_up_dealer_is_small_blind() {
    let initial = 1000u32;
    let sb_amt = 10u32;
    let bb_amt = 20u32;
    let mut hand = GameHand::new_with_rng(
        vec![(pid(1), c(initial), 0), (pid(2), c(initial), 1)],
        0,
        c(bb_amt),
        c(sb_amt),
        PokerRng::from_seed(3),
    );
    hand.start().unwrap();
    let snap = hand.snapshot();
    let dealer_player = snap.players.iter().find(|p| p.player_id == pid(1)).unwrap();
    let non_dealer_player = snap.players.iter().find(|p| p.player_id == pid(2)).unwrap();
    assert_eq!(
        dealer_player.stack.0,
        initial - sb_amt,
        "dealer should have posted small blind"
    );
    assert_eq!(
        non_dealer_player.stack.0,
        initial - bb_amt,
        "non-dealer should have posted big blind"
    );
}

#[test]
fn tests_three_way_standard_blind_positions() {
    let initial = 1000u32;
    let sb_amt = 10u32;
    let bb_amt = 20u32;
    let mut hand = GameHand::new_with_rng(
        vec![
            (pid(1), c(initial), 0),
            (pid(2), c(initial), 1),
            (pid(3), c(initial), 2),
        ],
        0,
        c(bb_amt),
        c(sb_amt),
        PokerRng::from_seed(4),
    );
    hand.start().unwrap();
    let snap = hand.snapshot();
    let dealer_p = snap.players.iter().find(|p| p.player_id == pid(1)).unwrap();
    let sb_p = snap.players.iter().find(|p| p.player_id == pid(2)).unwrap();
    let bb_p = snap.players.iter().find(|p| p.player_id == pid(3)).unwrap();
    assert_eq!(
        dealer_p.stack.0, initial,
        "dealer should not post any blind"
    );
    assert_eq!(sb_p.stack.0, initial - sb_amt, "seat after dealer is SB");
    assert_eq!(
        bb_p.stack.0,
        initial - bb_amt,
        "seat two after dealer is BB"
    );
}

#[test]
fn tests_fold_around_showdown_entry_has_rank_name() {
    let mut hand = GameHand::new_with_rng(
        vec![(pid(1), c(1000), 0), (pid(2), c(1000), 1)],
        0,
        c(20),
        c(10),
        PokerRng::from_seed(5),
    );
    hand.start().unwrap();
    let actor = hand.snapshot().current_actor.unwrap();
    hand.apply_action(actor, PlayerAction::Fold).unwrap();
    assert!(hand.is_done());
    let result = hand.finish();
    assert_eq!(
        result.showdown.len(),
        1,
        "fold-around has one showdown entry"
    );
    let entry = &result.showdown[0];
    assert!(
        !entry.rank_name.is_empty(),
        "lone showdown entry must carry a rank_name"
    );
    assert_eq!(
        entry.rank_name,
        entry.rank.name(),
        "rank_name must match the computed rank"
    );
}

#[test]
fn tests_heads_up_all_in_preflop_completes_without_panic() {
    let mut hand = GameHand::new_with_rng(
        vec![(pid(1), c(1000), 0), (pid(2), c(1000), 1)],
        0,
        c(20),
        c(10),
        PokerRng::from_seed(1),
    );
    hand.start().unwrap();
    loop {
        if hand.is_done() {
            break;
        }
        let actor = match hand.snapshot().current_actor {
            Some(a) => a,
            None => break,
        };
        hand.apply_action(actor, PlayerAction::AllIn).unwrap();
    }
    let result = hand.finish();
    let total: u32 = result.chips_awarded.values().sum();
    assert_eq!(total, 2000);
}

#[test]
fn tests_orphaned_side_pot_does_not_destroy_chips() {
    let side_pots = vec![SidePot {
        cap: c(100),
        amount: c(200),
        eligible: vec![pid(2), pid(3)],
        refund_to: Vec::new(),
    }];
    let no_contenders: Vec<(PlayerId, HoleCards)> = Vec::new();
    let button_order = HashMap::new();
    let results = distribute_pots(
        &side_pots,
        &no_contenders,
        &BoardCards::empty(),
        &button_order,
        &HashSet::new(),
    );

    assert_eq!(
        results.len(),
        1,
        "uncontested side pot must be refunded, not dropped"
    );
    let refunded: u32 = results[0].winners.iter().map(|w| w.amount_won.0).sum();
    assert_eq!(refunded, 200, "chip conservation: full pot amount refunded");
    let mut winners: Vec<u64> = results[0]
        .winners
        .iter()
        .map(|w| w.player_id.inner())
        .collect();
    winners.sort_unstable();
    assert_eq!(
        winners,
        vec![pid(2).inner(), pid(3).inner()],
        "refund goes to the eligible contributors"
    );
}

#[test]
fn tests_all_but_one_all_in_runs_out_to_showdown() {
    let villain_start = 100u32;
    let hero_start = 1000u32;
    let mut hand = GameHand::new_with_rng(
        vec![
            (pid(1), c(villain_start), 0),
            (pid(2), c(hero_start), 1),
        ],
        0,
        c(20),
        c(10),
        PokerRng::from_seed(7),
    );
    hand.start().unwrap();
    let total_start = villain_start + hero_start;

    assert_eq!(
        hand.snapshot().current_actor,
        Some(pid(1)),
        "button acts first heads-up pre-flop"
    );
    hand.apply_action(pid(1), PlayerAction::AllIn).unwrap();
    let hero = hand.snapshot().current_actor.unwrap();
    assert_eq!(hero, pid(2), "hero (BB) acts after the shove");
    hand.apply_action(hero, PlayerAction::Call).unwrap();

    assert!(
        hand.is_done(),
        "all-but-one all-in must run out to showdown, not prompt the deep stack"
    );
    assert!(
        hand.snapshot().current_actor.is_none(),
        "no current_actor once only one live stack remains with nothing owed"
    );

    let result = hand.finish();
    let total_final: u32 = result.final_stacks.values().sum();
    assert_eq!(
        total_final, total_start,
        "chip conservation across all-in runout: {total_final} vs {total_start}"
    );
}

#[test]
fn tests_three_player_fold_preflop_actor_never_revisited() {
    let mut hand = GameHand::new_with_rng(
        vec![
            (pid(1), c(500), 0),
            (pid(2), c(500), 1),
            (pid(3), c(500), 2),
        ],
        0,
        c(20),
        c(10),
        PokerRng::from_seed(7),
    );
    hand.start().unwrap();

    let snap = hand.snapshot();
    assert_eq!(
        snap.current_actor,
        Some(pid(1)),
        "UTG should act first preflop"
    );
    hand.apply_action(pid(1), PlayerAction::Fold).unwrap();

    let snap = hand.snapshot();
    let actor = snap.current_actor.unwrap();
    hand.apply_action(actor, PlayerAction::Call).unwrap();
    let snap = hand.snapshot();
    if let Some(actor) = snap.current_actor {
        hand.apply_action(actor, PlayerAction::Check).unwrap();
    }

    let mut safety = 0;
    loop {
        if hand.is_done() {
            break;
        }
        safety += 1;
        if safety > 30 {
            panic!("too many iterations");
        }
        let snap = hand.snapshot();
        let actor = match snap.current_actor {
            Some(a) => a,
            None => break,
        };
        assert_ne!(
            actor,
            pid(1),
            "folded player pid(1) must never be current_actor; street={:?}",
            snap.street
        );
        let committed = snap
            .players
            .iter()
            .find(|p| p.player_id == actor)
            .map(|p| p.committed_this_street.0)
            .unwrap_or(0);
        let to_call = snap.current_bet.0.saturating_sub(committed);
        if to_call > 0 {
            hand.apply_action(actor, PlayerAction::Call).unwrap();
        } else {
            hand.apply_action(actor, PlayerAction::Check).unwrap();
        }
    }
    let result = hand.finish();
    let total: u32 = result.chips_awarded.values().sum();
    assert!(total > 0, "winner must receive chips");
    for pot in &result.pots {
        for winner in &pot.winners {
            assert_ne!(winner.player_id, pid(1), "folded player cannot win");
        }
    }
}

#[test]
fn tests_fold_around_preflop_skips_board() {
    let mut hand = GameHand::new_with_rng(
        vec![
            (pid(1), c(500), 0),
            (pid(2), c(500), 1),
            (pid(3), c(500), 2),
        ],
        0,
        c(20),
        c(10),
        PokerRng::from_seed(42),
    );
    hand.start().unwrap();

    let snap = hand.snapshot();
    let actor = snap.current_actor.unwrap();
    assert_eq!(actor, pid(1), "UTG should act first preflop");
    hand.apply_action(actor, PlayerAction::Fold).unwrap();

    let snap = hand.snapshot();
    let actor = snap.current_actor.unwrap();
    assert_eq!(actor, pid(2), "SB should act next");
    hand.apply_action(actor, PlayerAction::Fold).unwrap();

    assert!(
        hand.is_done(),
        "fold-around: hand must end immediately when only 1 player remains"
    );

    let snap = hand.snapshot();
    assert!(
        snap.board.flop.is_none(),
        "fold-around preflop: flop must NOT be dealt"
    );
    assert!(
        snap.board.turn.is_none(),
        "fold-around preflop: turn must NOT be dealt"
    );
    assert!(
        snap.board.river.is_none(),
        "fold-around preflop: river must NOT be dealt"
    );
}

#[test]
fn tests_odd_chip_goes_to_earliest_position_winner() {
    let board = BoardCards {
        flop: Some([
            card(Rank::Ace, Suit::Clubs),
            card(Rank::King, Suit::Hearts),
            card(Rank::Queen, Suit::Diamonds),
        ]),
        turn: Some(card(Rank::Jack, Suit::Clubs)),
        river: Some(card(Rank::Ten, Suit::Spades)),
    };
    let p1_hole = HoleCards::new(
        card(Rank::Two, Suit::Hearts),
        card(Rank::Three, Suit::Hearts),
    );
    let p3_hole = HoleCards::new(
        card(Rank::Four, Suit::Diamonds),
        card(Rank::Five, Suit::Diamonds),
    );
    let eligible = vec![(pid(1), p1_hole), (pid(3), p3_hole)];
    let pots = vec![SidePot {
        cap: c(101),
        amount: c(101),
        eligible: vec![pid(1), pid(3)],
        refund_to: Vec::new(),
    }];

    let mut order_a = HashMap::new();
    order_a.insert(pid(3).inner(), 0usize);
    order_a.insert(pid(1).inner(), 1usize);
    let res_a = distribute_pots(&pots, &eligible, &board, &order_a, &HashSet::new());
    assert_eq!(res_a.len(), 1);
    let p3_won_a = res_a[0]
        .winners
        .iter()
        .find(|w| w.player_id == pid(3))
        .map(|w| w.amount_won.0)
        .unwrap();
    let p1_won_a = res_a[0]
        .winners
        .iter()
        .find(|w| w.player_id == pid(1))
        .map(|w| w.amount_won.0)
        .unwrap();
    assert_eq!(p3_won_a, 51, "earliest-position pid(3) gets the odd chip");
    assert_eq!(p1_won_a, 50);
    assert_eq!(p3_won_a + p1_won_a, 101, "chip conservation");

    let mut order_b = HashMap::new();
    order_b.insert(pid(1).inner(), 0usize);
    order_b.insert(pid(3).inner(), 1usize);
    let res_b = distribute_pots(&pots, &eligible, &board, &order_b, &HashSet::new());
    let p1_won_b = res_b[0]
        .winners
        .iter()
        .find(|w| w.player_id == pid(1))
        .map(|w| w.amount_won.0)
        .unwrap();
    assert_eq!(p1_won_b, 51, "earliest-position pid(1) gets the odd chip");
}

#[test]
fn tests_three_player_full_hand_no_panic() {
    let mut hand = GameHand::new_with_rng(
        vec![
            (pid(1), c(500), 0),
            (pid(2), c(500), 1),
            (pid(3), c(500), 2),
        ],
        0,
        c(20),
        c(10),
        PokerRng::from_seed(99),
    );
    hand.start().unwrap();
    let mut safety = 0;
    loop {
        if hand.is_done() {
            break;
        }
        safety += 1;
        if safety > 50 {
            panic!("too many iterations");
        }
        let snap = hand.snapshot();
        let actor = match snap.current_actor {
            Some(a) => a,
            None => break,
        };
        let to_call = snap.current_bet.0.saturating_sub(
            snap.players
                .iter()
                .find(|p| p.player_id == actor)
                .map(|p| p.committed_this_street.0)
                .unwrap_or(0),
        );
        if to_call > 0 {
            hand.apply_action(actor, PlayerAction::Call).unwrap();
        } else {
            hand.apply_action(actor, PlayerAction::Check).unwrap();
        }
    }
    let result = hand.finish();
    let total: u32 = result.chips_awarded.values().sum();
    assert_eq!(total, 60);
}
