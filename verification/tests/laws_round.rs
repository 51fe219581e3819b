use engine::action::{ActionError, BlindKind, PlayerAction};
use engine::player::{Chips, PlayerId};
use engine::round::BettingRound;

fn pid(n: u64) -> PlayerId {
    PlayerId(n)
}

fn raise(n: u32) -> PlayerAction {
    PlayerAction::Raise { amount: Chips(n) }
}

fn preflop(stacks: &[u32]) -> BettingRound {
    let players: Vec<(PlayerId, Chips)> =
        stacks.iter().enumerate().map(|(i, s)| (pid(i as u64), Chips(*s))).collect();
    let first = 2 % stacks.len();
    BettingRound::new_preflop(
        players,
        first,
        &[(pid(0), Chips(10)), (pid(1), Chips(20))],
        Chips(20),
    )
}

fn street(stacks: &[u32]) -> BettingRound {
    let players: Vec<(PlayerId, Chips)> =
        stacks.iter().enumerate().map(|(i, s)| (pid(i as u64), Chips(*s))).collect();
    BettingRound::new(players, 0, Chips(0), Chips(20))
}

#[test]
fn blinds_are_posted_and_the_next_player_opens() {
    let r = preflop(&[1000, 1000, 1000]);
    assert_eq!(r.current_player(), Some(pid(2)));
    assert_eq!(r.current_bet(), Chips(20));
    assert_eq!(r.min_raise_to(), Chips(40));
    assert_eq!(r.pot_total(), Chips(30));
    assert_eq!(r.to_call(pid(0)), Chips(10));
    assert_eq!(r.to_call(pid(1)), Chips(0));
    assert_eq!(r.player_contributed(pid(1)), Chips(20));
    assert_eq!(r.players_yet_to_act(), vec![pid(0), pid(1), pid(2)]);
    assert!(!r.is_done());
}

#[test]
fn big_blind_acts_last_and_may_raise() {
    let mut r = preflop(&[1000, 1000, 1000]);
    assert_eq!(r.apply_action(pid(2), &PlayerAction::Call), Ok(Chips(20)));
    assert_eq!(r.apply_action(pid(0), &PlayerAction::Call), Ok(Chips(10)));
    assert_eq!(r.current_player(), Some(pid(1)));
    assert!(r.current_player_can_raise());
    assert_eq!(r.apply_action(pid(1), &PlayerAction::Check), Ok(Chips(0)));
    assert!(r.is_done());
    assert_eq!(r.current_player(), None);
    assert_eq!(r.pot_total(), Chips(60));
}

#[test]
fn action_moves_the_own_chips_only() {
    let mut r = preflop(&[1000, 1000, 1000]);
    let before = r.player_states().to_vec();
    assert_eq!(r.apply_action(pid(2), &raise(60)), Ok(Chips(60)));
    let after = r.player_states();
    assert_eq!(after[2].stack, Chips(940));
    assert_eq!(after[2].contributed, Chips(60));
    for i in 0..2 {
        assert_eq!(after[i].stack, before[i].stack);
        assert_eq!(after[i].contributed, before[i].contributed);
    }
}

#[test]
fn every_refusal_has_its_reason_and_changes_nothing() {
    let mut r = preflop(&[1000, 1000, 1000]);
    r.apply_action(pid(2), &PlayerAction::Fold).unwrap();
    let before = format!("{r:?}");
    let cases = [
        (pid(9), PlayerAction::Fold, ActionError::NotInHand),
        (pid(2), PlayerAction::Call, ActionError::AlreadyFolded),
        (pid(1), PlayerAction::Check, ActionError::NotYourTurn),
        (pid(0), PlayerAction::Check, ActionError::InvalidAction),
        (pid(0), raise(1001), ActionError::InvalidAction),
        (pid(0), raise(39), ActionError::BelowMinRaise),
        (pid(0), raise(20), ActionError::BelowMinRaise),
        (
            pid(0),
            PlayerAction::Blind { kind: BlindKind::Straddle, amount: Chips(40) },
            ActionError::StraddleNotSupported,
        ),
        (
            pid(0),
            PlayerAction::Blind { kind: BlindKind::Big, amount: Chips(20) },
            ActionError::InvalidAction,
        ),
    ];
    for (who, action, error) in cases {
        assert_eq!(r.apply_action(who, &action), Err(error));
        assert_eq!(format!("{r:?}"), before);
    }
}

#[test]
fn only_a_full_raise_reopens_the_betting() {
    let mut r = street(&[1000, 130, 1000]);
    r.apply_action(pid(0), &raise(100)).unwrap();
    r.apply_action(pid(1), &PlayerAction::AllIn).unwrap();
    r.apply_action(pid(2), &PlayerAction::Call).unwrap();
    assert_eq!(r.current_player(), Some(pid(0)));
    assert_eq!(r.to_call(pid(0)), Chips(30));
    assert!(!r.current_player_can_raise());
    assert_eq!(r.apply_action(pid(0), &raise(500)), Err(ActionError::InvalidAction));
    assert_eq!(r.apply_action(pid(0), &PlayerAction::AllIn), Err(ActionError::InvalidAction));
    assert_eq!(r.apply_action(pid(0), &PlayerAction::Call), Ok(Chips(30)));
    assert!(r.is_done());
}

#[test]
fn full_raise_gives_everybody_a_turn_again() {
    let mut r = street(&[1000, 1000, 1000]);
    r.apply_action(pid(0), &raise(100)).unwrap();
    r.apply_action(pid(1), &raise(300)).unwrap();
    assert_eq!(r.min_raise_to(), Chips(500));
    r.apply_action(pid(2), &PlayerAction::Fold).unwrap();
    assert_eq!(r.current_player(), Some(pid(0)));
    assert!(r.current_player_can_raise());
    assert_eq!(r.apply_action(pid(0), &raise(499)), Err(ActionError::BelowMinRaise));
    assert_eq!(r.apply_action(pid(0), &raise(500)), Ok(Chips(400)));
}

#[test]
fn lone_stack_against_all_ins_can_only_call_or_fold() {
    let mut r = street(&[50, 1000]);
    r.apply_action(pid(0), &PlayerAction::AllIn).unwrap();
    assert_eq!(r.current_player(), Some(pid(1)));
    assert!(!r.current_player_can_raise());
    assert_eq!(r.apply_action(pid(1), &raise(200)), Err(ActionError::InvalidAction));
    assert_eq!(r.apply_action(pid(1), &PlayerAction::Call), Ok(Chips(50)));
    assert!(r.is_done());
}

#[test]
fn round_of_all_ins_is_over_at_once() {
    let r = street(&[0, 0, 700]);
    assert!(r.is_done());
    assert_eq!(r.current_player(), None);
    assert!(r.player_all_in(pid(0)));
    assert!(!r.player_all_in(pid(2)));
}

#[test]
fn pots_of_a_round_hold_its_chips() {
    let mut r = street(&[50, 200, 500]);
    r.apply_action(pid(0), &PlayerAction::AllIn).unwrap();
    r.apply_action(pid(1), &PlayerAction::AllIn).unwrap();
    r.apply_action(pid(2), &PlayerAction::Call).unwrap();
    let pots = r.side_pots();
    assert_eq!(pots.len(), 2);
    assert_eq!((pots[0].cap, pots[0].amount), (Chips(50), Chips(150)));
    assert_eq!(pots[0].eligible, vec![pid(0), pid(1), pid(2)]);
    assert_eq!((pots[1].cap, pots[1].amount), (Chips(200), Chips(300)));
    assert_eq!(pots[1].eligible, vec![pid(1), pid(2)]);
    assert_eq!(r.pot_total(), Chips(450));
}

#[test]
fn fold_leaves_one_player_and_ends_the_round() {
    let mut r = preflop(&[1000, 1000]);
    assert_eq!(r.apply_action(pid(0), &PlayerAction::Fold), Ok(Chips(0)));
    assert!(r.is_done());
    assert!(r.player_folded(pid(0)));
    let pots = r.side_pots();
    assert_eq!(pots[0].amount, Chips(20));
    assert_eq!(pots[1].amount, Chips(10));
    assert_eq!(pots[1].refund_to, vec![pid(1)]);
}
